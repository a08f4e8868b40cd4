//! Editing: what the keys do to a buffer and its cursors.
use ropey::Rope;
use textfold::blocks::{indent, toggle_comment};
use textfold::doc::{DocId, Document};
use textfold::edit::{
    delete_backward, delete_forward, delete_to_line_end, delete_to_line_start, delete_word_backward,
    delete_word_forward, insert, insert_char, newline, newline_closing,
};
use textfold::indent::Indent;
use textfold::lang::{blank, LangId};
use textfold::lines::{delete_line, duplicate_line, join_lines, move_lines};
use textfold::pane::Pane;
use textfold::select::{
    add_cursor_in_column, add_cursor_next_match, add_cursor_vertically, bracket_byte,
    cursors_to_line_ends, edge_head, land, match_bracket, move_cursors, select_all,
    select_all_matches, select_line, select_word, step_rows, Drawn, Landing, Layout, Motion,
};
use textfold::shuffle::{change_case, shuffle_lines, Case, Shuffle};
use textfold::text::{line_of, line_start, Range, Selections};

fn setup(text: &str, at: usize) -> (Document, Pane) {
    let mut doc = Document::scratch(DocId(0), "t".to_string(), Indent::Spaces(4));
    doc.rope = Rope::from_str(text);
    (doc, Pane::new(at))
}

fn cursors(text: &str, at: &[usize]) -> (Document, Pane) {
    let (doc, mut pane) = setup(text, at[0]);
    let ranges: Vec<Range> = at.iter().map(|&a| Range::point(a)).collect();
    pane.sel = Selections::many(&ranges, 0);
    (doc, pane)
}

/// The brackets of a language that says nothing of its own.
fn brackets() -> Vec<(char, char)> {
    blank(LangId::plain(), "text").brackets
}

fn shuffled(text: &str, how: Shuffle) -> String {
    let (mut doc, mut pane) = setup(text, 0);
    shuffle_lines(&mut doc, &mut pane, how, 0);
    doc.rope.to_string()
}

fn typed(doc: &mut Document, pane: &mut Pane, c: char) {
    insert_char(doc, pane, c, true, &brackets(), 0);
}

fn moved(doc: &Document, pane: &mut Pane, motion: Motion) {
    move_cursors(doc, pane, motion, false, 4, 24);
}

#[test]
fn sorting_with_nothing_selected_sorts_the_whole_file() {
    assert_eq!(shuffled("pear\napple\ncherry\n", Shuffle::Sort), "apple\ncherry\npear\n");
}

#[test]
fn sorting_a_selection_leaves_the_rest_of_the_file_where_it_was() {
    let (mut doc, mut pane) = setup("head\npear\napple\ntail\n", 0);
    // The two middle lines.
    pane.sel = Selections::single(Range::new(5, 15));
    shuffle_lines(&mut doc, &mut pane, Shuffle::Sort, 0);
    assert_eq!(doc.rope.to_string(), "head\napple\npear\ntail\n");
}

#[test]
fn sorting_the_end_of_a_file_does_not_invent_a_last_newline() {
    // The block being sorted is the end of the file, and the file does not end
    // in a newline. Sorting must not give it one, and must not sort the
    // nothing after the last line to the top.
    assert_eq!(shuffled("pear\napple", Shuffle::Sort), "apple\npear");
}

#[test]
fn sorting_is_by_what_the_line_says_not_by_its_indentation() {
    assert_eq!(shuffled("    pear\napple\n", Shuffle::Sort), "apple\n    pear\n");
}

#[test]
fn the_other_way_up_is_the_other_way_up() {
    assert_eq!(shuffled("apple\npear\ncherry\n", Shuffle::SortBackwards), "pear\ncherry\napple\n");
}

#[test]
fn reversing_turns_the_lines_back_to_front() {
    assert_eq!(shuffled("one\ntwo\nthree\n", Shuffle::Reverse), "three\ntwo\none\n");
}

#[test]
fn unique_keeps_the_first_of_each_and_the_order_they_were_in() {
    assert_eq!(shuffled("b\na\nb\nc\na\n", Shuffle::Unique), "b\na\nc\n");
}

#[test]
fn a_file_already_in_order_is_not_an_edit() {
    let (mut doc, mut pane) = setup("a\nb\nc\n", 0);
    assert!(
        shuffle_lines(&mut doc, &mut pane, Shuffle::Sort, 0).is_empty(),
        "nothing to do is nothing to undo"
    );
}

#[test]
fn one_line_is_never_reordered() {
    let (mut doc, mut pane) = setup("only\n", 0);
    assert!(shuffle_lines(&mut doc, &mut pane, Shuffle::Sort, 0).is_empty());
}

#[test]
fn title_case_capitalises_words_and_not_apostrophes() {
    let (mut doc, mut pane) = setup("it's a WELL-known fact\n", 0);
    pane.sel = Selections::single(Range::new(0, 21));
    change_case(&mut doc, &mut pane, Case::Title, 0);
    assert_eq!(doc.rope.to_string(), "It's A Well-Known Fact\n");
}

#[test]
fn a_case_is_changed_a_letter_at_a_time() {
    assert_eq!(Case::Upper.of("straße"), "STRASSE");
    assert_eq!(Case::Lower.of("ÀB"), "àb");
}

#[test]
fn typing_at_several_cursors_types_at_all_of_them() {
    let (mut doc, mut pane) = cursors("aa\nbb\ncc\n", &[0, 3, 6]);
    insert(&mut doc, &mut pane, "x", 0);
    assert_eq!(doc.rope.to_string(), "xaa\nxbb\nxcc\n");
    // And each cursor is after what it typed, not somewhere general.
    assert_eq!(pane.sel.ranges().iter().map(|r| r.head).collect::<Vec<_>>(), vec![1, 5, 9]);
}

#[test]
fn backspace_in_indentation_takes_a_whole_level() {
    let (mut doc, mut pane) = setup("        x\n", 8);
    delete_backward(&mut doc, &mut pane, 4, &brackets(), 0);
    assert_eq!(doc.rope.to_string(), "    x\n");
    delete_backward(&mut doc, &mut pane, 4, &brackets(), 0);
    assert_eq!(doc.rope.to_string(), "x\n");
}

#[test]
fn backspace_in_text_takes_one_character() {
    let (mut doc, mut pane) = setup("    hello\n", 9);
    delete_backward(&mut doc, &mut pane, 4, &brackets(), 0);
    assert_eq!(doc.rope.to_string(), "    hell\n");
}

#[test]
fn a_bracket_closes_itself_and_backspace_takes_both() {
    let (mut doc, mut pane) = setup("", 0);
    typed(&mut doc, &mut pane, '(');
    assert_eq!(doc.rope.to_string(), "()");
    assert_eq!(pane.cursor(), 1);
    delete_backward(&mut doc, &mut pane, 4, &brackets(), 0);
    assert_eq!(doc.rope.to_string(), "");
}

#[test]
fn typing_the_closing_bracket_steps_over_it() {
    let (mut doc, mut pane) = setup("", 0);
    typed(&mut doc, &mut pane, '(');
    typed(&mut doc, &mut pane, 'x');
    typed(&mut doc, &mut pane, ')');
    assert_eq!(doc.rope.to_string(), "(x)");
    assert_eq!(pane.cursor(), 3);
}

#[test]
fn an_apostrophe_in_a_word_is_not_the_start_of_a_string() {
    let (mut doc, mut pane) = setup("don", 3);
    typed(&mut doc, &mut pane, '\'');
    assert_eq!(doc.rope.to_string(), "don'");
}

#[test]
fn a_bracket_typed_over_a_selection_wraps_it() {
    let (mut doc, mut pane) = setup("hello world", 0);
    pane.sel = Selections::single(Range::new(0, 5));
    typed(&mut doc, &mut pane, '(');
    assert_eq!(doc.rope.to_string(), "(hello) world");
    // And it is still selected, so you can wrap it again.
    assert_eq!(doc.slice(pane.sel.primary()), "hello");
}

#[test]
fn enter_keeps_the_indentation_and_deepens_it_inside_a_bracket() {
    let (mut doc, mut pane) = setup("    foo\n", 7);
    newline(&mut doc, &mut pane, &brackets(), 0);
    assert_eq!(doc.rope.to_string(), "    foo\n    \n");

    let (mut doc, mut pane) = setup("fn a() {\n", 8);
    newline(&mut doc, &mut pane, &brackets(), 0);
    assert_eq!(doc.rope.to_string(), "fn a() {\n    \n");
}

#[test]
fn enter_between_braces_puts_the_closing_one_on_its_own_line() {
    let (mut doc, mut pane) = setup("fn a() {}\n", 8);
    newline(&mut doc, &mut pane, &brackets(), 0);
    newline_closing(&mut doc, &pane, &brackets(), 0);
    assert_eq!(doc.rope.to_string(), "fn a() {\n    \n}\n");
    // The cursor is on the middle line, indented.
    assert_eq!(line_of(&doc.rope, pane.cursor()), 1);
}

#[test]
fn indenting_a_selection_moves_whole_lines() {
    let (mut doc, mut pane) = setup("one\ntwo\nthree\n", 0);
    // Up to but not into the third line: a selection ending exactly where a
    // line starts has not reached that line.
    pane.sel = Selections::single(Range::new(0, 8));
    indent(&mut doc, &mut pane, 4, false, 0);
    assert_eq!(doc.rope.to_string(), "    one\n    two\nthree\n");
    indent(&mut doc, &mut pane, 4, true, 0);
    assert_eq!(doc.rope.to_string(), "one\ntwo\nthree\n");
}

#[test]
fn tab_with_no_selection_goes_to_the_next_stop() {
    let (mut doc, mut pane) = setup("ab", 2);
    indent(&mut doc, &mut pane, 4, false, 0);
    assert_eq!(doc.rope.to_string(), "ab  ");
}

#[test]
fn commenting_keeps_the_shape_of_the_block() {
    let (mut doc, mut pane) = setup("    if x {\n        y();\n    }\n", 0);
    pane.sel = Selections::single(Range::new(0, doc.len_chars()));
    let marker = Some("//".to_string());

    assert!(toggle_comment(&mut doc, &mut pane, 4, &marker, 0).is_some());
    assert_eq!(doc.rope.to_string(), "    // if x {\n    //     y();\n    // }\n");
    assert!(toggle_comment(&mut doc, &mut pane, 4, &marker, 0).is_some());
    assert_eq!(doc.rope.to_string(), "    if x {\n        y();\n    }\n");
}

#[test]
fn a_language_with_no_line_comment_is_not_commented() {
    let (mut doc, mut pane) = setup("one\n", 0);
    assert!(toggle_comment(&mut doc, &mut pane, 4, &None, 0).is_none());
    assert_eq!(doc.rope.to_string(), "one\n");
}

#[test]
fn moving_a_line_takes_the_cursor_with_it() {
    let (mut doc, mut pane) = setup("one\ntwo\nthree\n", 4);
    move_lines(&mut doc, &mut pane, false, 0);
    assert_eq!(doc.rope.to_string(), "two\none\nthree\n");
    assert_eq!(line_of(&doc.rope, pane.cursor()), 0);
    move_lines(&mut doc, &mut pane, true, 0);
    assert_eq!(doc.rope.to_string(), "one\ntwo\nthree\n");
    assert_eq!(line_of(&doc.rope, pane.cursor()), 1);
}

#[test]
fn moving_the_last_line_up_does_not_fuse_it_with_the_one_above() {
    let (mut doc, mut pane) = setup("one\ntwo", 4);
    move_lines(&mut doc, &mut pane, false, 0);
    assert_eq!(doc.rope.to_string(), "two\none");
}

#[test]
fn deleting_a_line_takes_its_ending_with_it() {
    let (mut doc, mut pane) = setup("one\ntwo\nthree\n", 4);
    delete_line(&mut doc, &mut pane, 0);
    assert_eq!(doc.rope.to_string(), "one\nthree\n");
}

#[test]
fn joining_puts_one_space_between() {
    let (mut doc, mut pane) = setup("one\n    two\n", 0);
    join_lines(&mut doc, &mut pane, 0);
    assert_eq!(doc.rope.to_string(), "one two\n");
}

#[test]
fn select_line_grows_a_line_at_a_time() {
    let (doc, mut pane) = setup("one\ntwo\nthree\n", 1);
    select_line(&doc, &mut pane);
    assert_eq!(doc.slice(pane.sel.primary()), "one\n");
    select_line(&doc, &mut pane);
    assert_eq!(doc.slice(pane.sel.primary()), "one\ntwo\n");
}

#[test]
fn another_cursor_lands_on_the_next_copy_of_the_word() {
    let (doc, mut pane) = setup("foo bar foo baz foo\n", 1);
    add_cursor_next_match(&doc, &mut pane);
    assert_eq!(pane.sel.len(), 1);
    assert_eq!(doc.slice(pane.sel.primary()), "foo");
    add_cursor_next_match(&doc, &mut pane);
    assert_eq!(pane.sel.len(), 2);
    add_cursor_next_match(&doc, &mut pane);
    assert_eq!(pane.sel.len(), 3);
    for range in pane.sel.ranges() {
        assert_eq!(doc.slice(*range), "foo");
    }
}

#[test]
fn every_copy_at_once() {
    let (doc, mut pane) = setup("x = x + x\n", 0);
    pane.sel = Selections::single(Range::new(0, 1));
    let found = select_all_matches(&doc, &mut pane);
    assert_eq!(found, 3);
    assert_eq!(pane.sel.len(), 3);
}

#[test]
fn moving_with_a_selection_collapses_towards_where_you_are_going() {
    let (doc, mut pane) = setup("hello world", 0);
    pane.sel = Selections::single(Range::new(2, 7));
    moved(&doc, &mut pane, Motion::Left);
    assert_eq!(pane.cursor(), 2);

    pane.sel = Selections::single(Range::new(2, 7));
    moved(&doc, &mut pane, Motion::Right);
    assert_eq!(pane.cursor(), 7);
}

#[test]
fn home_goes_to_the_text_first_and_the_margin_second() {
    let (doc, mut pane) = setup("    hello\n", 7);
    moved(&doc, &mut pane, Motion::LineStart);
    assert_eq!(pane.cursor(), 4);
    moved(&doc, &mut pane, Motion::LineStart);
    assert_eq!(pane.cursor(), 0);
}

#[test]
fn going_down_a_short_line_and_on_remembers_the_column() {
    let (doc, mut pane) = setup("aaaaaaaaaa\nbb\ncccccccccc\n", 8);
    moved(&doc, &mut pane, Motion::Down);
    assert_eq!(pane.cursor(), 13); // the end of `bb`
    moved(&doc, &mut pane, Motion::Down);
    // Back out to column eight on the long line below.
    assert_eq!(pane.cursor() - line_start(&doc.rope, 2), 8);
}

#[test]
fn cursors_that_would_collide_do_not_corrupt_the_document() {
    // Two cursors one character apart, both deleting a word backwards.
    let (mut doc, mut pane) = cursors("hello world", &[5, 6]);
    delete_word_backward(&mut doc, &mut pane, 0);
    // Whatever it does, it must still be text.
    assert!(doc.rope.len_chars() <= 11);
    doc.undo();
    assert_eq!(doc.rope.to_string(), "hello world");
}

#[test]
fn deleting_takes_what_it_says() {
    let (mut doc, mut pane) = setup("one two three\n", 4);
    delete_forward(&mut doc, &mut pane, 0);
    assert_eq!(doc.rope.to_string(), "one wo three\n");
    delete_word_forward(&mut doc, &mut pane, 0);
    assert_eq!(doc.rope.to_string(), "one  three\n");
    delete_to_line_end(&mut doc, &mut pane, 0);
    assert_eq!(doc.rope.to_string(), "one \n");
    delete_to_line_start(&mut doc, &mut pane, 0);
    assert_eq!(doc.rope.to_string(), "\n");
}

#[test]
fn a_line_can_be_had_twice() {
    let (mut doc, mut pane) = setup("one\ntwo\n", 5);
    duplicate_line(&mut doc, &mut pane, 0);
    assert_eq!(doc.rope.to_string(), "one\ntwo\ntwo\n");
    let (mut doc, mut pane) = setup("one\ntwo", 5);
    duplicate_line(&mut doc, &mut pane, 0);
    assert_eq!(doc.rope.to_string(), "one\ntwo\ntwo");
}

#[test]
fn the_other_ways_to_select() {
    let (doc, mut pane) = setup("one two\nthree\n", 5);
    select_word(&doc, &mut pane);
    assert_eq!(doc.slice(pane.sel.primary()), "two");
    select_all(&doc, &mut pane);
    assert_eq!(doc.slice(pane.sel.primary()), "one two\nthree\n");

    let (doc, mut pane) = setup("one\ntwo\nthree\n", 1);
    add_cursor_vertically(&doc, &mut pane, 4, true);
    assert_eq!(pane.sel.ranges().iter().map(|r| r.head).collect::<Vec<_>>(), vec![1, 5]);
    cursors_to_line_ends(&doc, &mut pane);
    assert_eq!(pane.sel.ranges().iter().map(|r| r.head).collect::<Vec<_>>(), vec![3, 7]);
}

#[test]
fn the_ends_of_a_file_and_the_paragraphs_in_it() {
    let (doc, mut pane) = setup("a\n\nb\nc\n", 3);
    moved(&doc, &mut pane, Motion::DocEnd);
    assert_eq!(pane.cursor(), 7);
    moved(&doc, &mut pane, Motion::ParaUp);
    assert_eq!(pane.cursor(), 2);
    moved(&doc, &mut pane, Motion::DocStart);
    assert_eq!(pane.cursor(), 0);
    moved(&doc, &mut pane, Motion::WordRight);
    assert_eq!(pane.cursor(), 1);
    moved(&doc, &mut pane, Motion::LineEnd);
    assert_eq!(pane.cursor(), 1);
}

#[test]
fn a_bracket_is_asked_about_by_byte_and_found_by_character() {
    let (doc, _) = setup("é(x)", 0);
    assert_eq!(bracket_byte(&doc, 1), 2);
    assert_eq!(bracket_byte(&doc, 99), 5, "past the end is the end");
    assert_eq!(match_bracket(&doc, Some(4)), Some(3));
    assert_eq!(match_bracket(&doc, Some(1)), Some(0), "the middle of a character is in it");
    assert_eq!(match_bracket(&doc, None), None);
}

#[test]
fn commenting_twice_changes_nothing() {
    let text = "\tif x {\n\n\t\ty();\n    z\n";
    let (mut doc, mut pane) = setup(text, 0);
    pane.sel = Selections::single(Range::new(0, doc.len_chars()));
    let marker = Some("#".to_string());
    toggle_comment(&mut doc, &mut pane, 4, &marker, 0);
    assert_ne!(doc.rope.to_string(), text);
    toggle_comment(&mut doc, &mut pane, 4, &marker, 0);
    assert_eq!(doc.rope.to_string(), text);
}

#[test]
fn indenting_and_taking_a_level_off_changes_nothing() {
    let text = "one\n\n  two\n\tthree\n";
    let (mut doc, mut pane) = setup(text, 0);
    pane.sel = Selections::single(Range::new(0, doc.len_chars() - 1));
    indent(&mut doc, &mut pane, 4, false, 0);
    assert_eq!(doc.rope.to_string(), "    one\n\n      two\n    \tthree\n");
    indent(&mut doc, &mut pane, 4, true, 0);
    assert_eq!(doc.rope.to_string(), text);
}

#[test]
fn sorting_what_is_sorted_is_not_an_edit() {
    for how in [Shuffle::Sort, Shuffle::SortBackwards, Shuffle::Unique] {
        let once = shuffled("b\n\na\nb\n c", how);
        assert_eq!(shuffled(&once, how), once);
    }
    assert_eq!(shuffled(&shuffled("1\n2\n3\n", Shuffle::Reverse), Shuffle::Reverse), "1\n2\n3\n");
}

fn on(line: usize, row: usize) -> Landing {
    Landing::On { line, row }
}

#[test]
fn moving_by_rows_moves_inside_a_line_that_is_folded() {
    let (doc, mut pane) = cursors("one two three\nfour\nfive\n", &[1, 15]);
    let layout = Layout { rows: Some(vec![3, 1, 1, 1]) };
    let drawn = vec![Drawn { row: 0, column: 1 }, Drawn { row: 0, column: 1 }];
    let (landings, goal) = step_rows(&doc, &pane, Motion::Down, 24, &layout, &drawn);
    assert_eq!(landings, vec![on(0, 1), on(2, 0)]);
    assert_eq!(goal, 1);
    land(&doc, &mut pane, false, goal, &landings, &vec![5, 20]);
    assert_eq!(pane.sel.ranges().iter().map(|r| r.head).collect::<Vec<_>>(), vec![5, 20]);
    assert_eq!(pane.goal, Some(1));

    // Up from the second line is onto the last row of the first.
    let (doc, pane) = setup("one two three\nfour\n", 15);
    let drawn = vec![Drawn { row: 0, column: 1 }];
    let (landings, _) = step_rows(&doc, &pane, Motion::Up, 24, &layout, &drawn);
    assert_eq!(landings, vec![on(0, 2)]);
    // And as far back again is where it was.
    let drawn = vec![Drawn { row: 2, column: 1 }];
    let (landings, _) = step_rows(&doc, &Pane::new(9), Motion::Down, 24, &layout, &drawn);
    assert_eq!(landings, vec![on(1, 0)]);
}

#[test]
fn a_line_that_is_folded_away_is_stepped_over() {
    let (doc, mut pane) = setup("a\nb\nc", 0);
    pane.goal = Some(7);
    let layout = Layout { rows: Some(vec![1, 0, 1]) };
    let drawn = vec![Drawn { row: 0, column: 0 }];
    let (landings, goal) = step_rows(&doc, &pane, Motion::Down, 24, &layout, &drawn);
    assert_eq!(landings, vec![on(2, 0)]);
    assert_eq!(goal, 7, "the column that is being kept to");
    let (landings, _) = step_rows(&doc, &pane, Motion::PageDown, 24, &layout, &drawn);
    assert_eq!(landings, vec![Landing::Bottom]);
    land(&doc, &mut pane, true, goal, &landings, &vec![0]);
    assert_eq!(pane.sel.primary(), Range::new(0, 5));
    let (landings, _) = step_rows(&doc, &Pane::new(0), Motion::PageUp, 24, &layout, &drawn);
    assert_eq!(landings, vec![Landing::Top]);
}

#[test]
fn rows_of_one_line_each_are_lines() {
    let (doc, mut pane) = setup("one\ntwo\nthree\n", 2);
    let (mut other, layout) = (Pane::new(2), Layout { rows: None });
    moved(&doc, &mut pane, Motion::Down);
    let drawn = vec![Drawn { row: 0, column: 2 }];
    let (landings, goal) = step_rows(&doc, &other, Motion::Down, 24, &layout, &drawn);
    land(&doc, &mut other, false, goal, &landings, &vec![6]);
    assert_eq!(other.sel.ranges(), pane.sel.ranges());
    assert_eq!(other.goal, pane.goal);
}

#[test]
fn a_cursor_is_added_under_where_the_last_one_is_drawn() {
    let (doc, mut pane) = cursors("abc\nabc\nabcdef\n", &[0, 5]);
    assert_eq!((edge_head(&pane, true), edge_head(&pane, false)), (5, 0));
    // Something drawn before the second cursor has pushed it along.
    add_cursor_in_column(&doc, &mut pane, 4, true, 4);
    assert_eq!(pane.sel.ranges().iter().map(|r| r.head).collect::<Vec<_>>(), vec![0, 5, 12]);
    assert_eq!(pane.goal, Some(4));
}

#[test]
fn moving_lines_past_the_last_one_keeps_the_blank_ones() {
    let (mut doc, mut pane) = setup("a\n\nb", 0);
    pane.sel = Selections::single(Range::new(0, 3));
    move_lines(&mut doc, &mut pane, true, 0);
    assert_eq!(doc.rope.to_string(), "b\na\n");

    let (mut doc, mut pane) = setup("a\n\nb", 3);
    move_lines(&mut doc, &mut pane, false, 0);
    assert_eq!(doc.rope.to_string(), "a\nb\n");
}
