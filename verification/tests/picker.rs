use textfold::doc::Severity;
use textfold::menu::Area;
use textfold::picker::{light, narrow, Choice, Kind, Picker, Row, LONGEST_QUERY};

fn rows(labels: &[&str]) -> Vec<Row> {
    labels.iter().map(|l| Row::new(l, Choice::Here(0))).collect()
}

fn shown(picker: &Picker) -> Vec<String> {
    picker.visible().into_iter().map(|(row, _)| row.label.clone()).collect()
}

fn chosen(picker: &Picker) -> Option<String> {
    picker.selected().map(|r| r.label.clone())
}

#[test]
fn nothing_typed_shows_everything_in_the_order_given() {
    let picker = Picker::new(Kind::Files, rows(&["b", "a", "c"]));
    assert_eq!(shown(&picker), ["b", "a", "c"]);
}

#[test]
fn letters_scattered_through_a_path_still_find_it() {
    let mut picker = Picker::new(
        Kind::Files,
        rows(&["src/main.rs", "docs/readme.md", "src/theme.rs"]),
    );
    for c in "mrs".chars() {
        picker.type_char(c);
    }
    assert_eq!(chosen(&picker).as_deref(), Some("src/main.rs"));
}

#[test]
fn the_letters_that_matched_are_known_so_they_can_be_shown() {
    let mut picker = Picker::new(Kind::Files, rows(&["main.rs"]));
    picker.type_char('m');
    picker.type_char('n');
    let visible = picker.visible();
    let (_, indices) = visible.first().expect("a match");
    assert_eq!(**indices, [0, 3]);
}

#[test]
fn a_query_matching_nothing_shows_nothing_rather_than_everything() {
    let mut picker = Picker::new(Kind::Files, rows(&["one", "two"]));
    for c in "zzzz".chars() {
        picker.type_char(c);
    }
    assert!(picker.is_empty());
    assert!(picker.selected().is_none());
}

#[test]
fn the_detail_is_searched_as_well_as_the_label() {
    let picker_rows = vec![
        Row::new("main", Choice::Here(0)).detail("src/deep/place.rs"),
        Row::new("other", Choice::Here(0)).detail("elsewhere.rs"),
    ];
    let mut picker = Picker::new(Kind::Files, picker_rows);
    for c in "deep".chars() {
        picker.type_char(c);
    }
    assert_eq!(picker.len(), 1);
    assert_eq!(chosen(&picker).as_deref(), Some("main"));
}

#[test]
fn moving_through_the_list_wraps_round() {
    let mut picker = Picker::new(Kind::Files, rows(&["a", "b", "c"]));
    picker.area = Area { x: 0, y: 0, width: 40, height: 3 };
    picker.step(-1);
    assert_eq!(chosen(&picker).as_deref(), Some("c"));
    picker.step(1);
    assert_eq!(chosen(&picker).as_deref(), Some("a"));
}

#[test]
fn the_query_is_edited_where_the_caret_is() {
    let mut picker = Picker::new(Kind::Files, rows(&["x"]));
    for c in "hello".chars() {
        picker.type_char(c);
    }
    picker.move_caret(-2);
    picker.type_char('-');
    assert_eq!(picker.query, "hel-lo");
    picker.delete_word();
    assert_eq!(picker.query, "lo");
}

#[test]
fn a_long_list_scrolls_to_keep_the_cursor_in_view() {
    let labels: Vec<String> = (0..100).map(|i| format!("row {i}")).collect();
    let refs: Vec<&str> = labels.iter().map(String::as_str).collect();
    let mut picker = Picker::new(Kind::Files, rows(&refs));
    picker.area = Area { x: 0, y: 0, width: 40, height: 10 };
    picker.select(50);
    assert!(picker.top <= 50 && 50 < picker.top + 10);
}

#[test]
fn better_matches_come_first_and_equals_stay_as_given() {
    let found = vec![
        Some((5, vec![1])),
        None,
        Some((9, vec![0])),
        Some((5, vec![0])),
    ];
    let shown = narrow(&rows(&["aa", "bb", "cc", "dd"]), &found);
    let order: Vec<usize> = shown.iter().map(|(at, _)| *at).collect();
    assert_eq!(order, [2, 0, 3]);
}

#[test]
fn only_letters_of_the_label_are_lit_each_once_and_in_order() {
    assert_eq!(light(&vec![7, 2, 0, 2], 5), [0, 2]);
    assert_eq!(light(&vec![3], 0), Vec::<u32>::new());
}

#[test]
fn a_query_with_a_capital_means_it() {
    let mut picker = Picker::new(Kind::Files, rows(&["readme", "README"]));
    picker.type_char('R');
    assert_eq!(shown(&picker), ["README"]);
    picker.clear();
    picker.type_char('r');
    assert_eq!(picker.len(), 2);
    assert_eq!(picker.total(), 2);
}

#[test]
fn blanks_around_a_query_say_nothing() {
    let mut picker = Picker::new(Kind::Files, rows(&["b", "a"]));
    picker.type_char(' ');
    assert_eq!(shown(&picker), ["b", "a"]);
    picker.backspace();
    assert_eq!(picker.query, "");
    picker.backspace();
    assert_eq!(picker.caret, 0);
}

#[test]
fn deleting_takes_what_is_behind_the_caret() {
    let mut picker = Picker::new(Kind::Files, rows(&["x"]));
    for c in "ab".chars() {
        picker.type_char(c);
    }
    picker.delete();
    assert_eq!(picker.query, "ab");
    picker.move_caret(-9);
    picker.delete();
    assert_eq!(picker.query, "b");
    picker.move_caret(9);
    assert_eq!(picker.caret, 1);
}

#[test]
fn the_longest_query_can_still_be_scored() {
    let long = "a".repeat(LONGEST_QUERY);
    let mut picker = Picker::new(Kind::Files, rows(&[&long, "b"]));
    picker.query = long[1..].to_string();
    picker.caret = LONGEST_QUERY - 1;
    picker.type_char('a');
    assert_eq!(picker.query, long);
    assert_eq!(shown(&picker), [long]);
}

#[test]
fn a_list_that_fits_is_drawn_from_the_top() {
    let mut picker = Picker::new(Kind::Themes, rows(&["a", "b", "c"]));
    picker.select(2);
    assert_eq!(picker.top, 2);
    picker.fit(10);
    assert_eq!((picker.top, picker.height()), (0, 10));
    picker.set_rows(rows(&["only"]));
    assert_eq!(picker.cursor, 0);
}

#[test]
fn a_row_carries_what_it_was_given() {
    let row = Row::new("save", Choice::Here(3))
        .detail("write the file")
        .tag("edit")
        .key(Some("Ctrl-s".to_string()))
        .severity(Severity::Hint);
    assert_eq!(row.detail.as_deref(), Some("write the file"));
    assert_eq!(row.tag.as_deref(), Some("edit"));
    assert_eq!(row.key.as_deref(), Some("Ctrl-s"));
    assert_eq!(row.severity, Some(Severity::Hint));
    assert!(matches!(row.choice, Choice::Here(3)));
}

#[test]
fn a_list_says_what_it_is() {
    assert_eq!(Kind::Grep.title(), "Search the project");
    assert_eq!(Kind::Files.hint(), "> commands   @ symbols   # project symbols   : line");
    assert_eq!(Kind::Buffers.hint(), "");
}
