//! Buffers: their history, their breakpoints, their colours and the disk.
use ropey::Rope;
use textfold::change::Change;
use textfold::doc::{
    DocId, Document, OnDisk, Owner, Severity, Stamp, COLOUR_LIMIT, MERGE_WINDOW, RECOLOUR_AFTER,
    RECOLOUR_TRIES,
};
use textfold::files::{absolute, attempted, read_whole, temporary, Attempt, Read};
use textfold::indent::{detect_indent, Indent};
use textfold::lang::{init, LangId, Languages, Said};
use textfold::text::{Range, Selections};

fn doc(text: &str) -> Document {
    let mut d = Document::scratch(DocId(0), "test".to_string(), Indent::Spaces(4));
    d.rope = Rope::from_str(text);
    d
}

fn sel(at: usize) -> Selections {
    Selections::single(Range::point(at))
}

fn replace(from: usize, to: usize, text: &str) -> Change {
    Change::replace(from, to, text.to_string())
}

fn insert(at: usize, text: &str) -> Change {
    Change::insert(at, text.to_string())
}

fn languages() -> Languages {
    init(&Said { plugins: vec![], off: vec![], problems: vec![], home: None }).languages
}

#[test]
fn a_breakpoint_goes_on_and_comes_off_the_line_you_asked_about() {
    let mut d = doc("one\ntwo\nthree\n");
    assert!(d.toggle_breakpoint(1), "it should go on");
    assert!(d.has_breakpoint(1));
    assert!(!d.has_breakpoint(0));
    assert_eq!(d.breakpoint_lines(), vec![1]);
    assert!(!d.toggle_breakpoint(1), "and off again");
    assert!(d.breakpoint_lines().is_empty());
}

#[test]
fn a_breakpoint_past_the_end_of_the_file_is_not_put_anywhere() {
    let mut d = doc("one\n");
    assert!(!d.toggle_breakpoint(40));
    assert!(d.breakpoints.is_empty());
}

#[test]
fn two_breakpoints_on_lines_that_have_become_one_are_one_breakpoint() {
    // The reason lines are worked out from positions rather than stored: an
    // edit can join two lines, and the answer to "which lines have a
    // breakpoint" then has to be one line rather than that line twice.
    let mut d = doc("one\ntwo\nthree\n");
    d.toggle_breakpoint(0);
    d.toggle_breakpoint(1);
    assert_eq!(d.breakpoint_lines(), vec![0, 1]);
    // Both positions now point into the same line.
    d.rope = Rope::from_str("onetwo\nthree\n");
    d.breakpoints = vec![0, 3];
    assert_eq!(d.breakpoint_lines(), vec![0]);
}

#[test]
fn a_buffer_refilled_a_thousand_times_remembers_none_of_it() {
    // A plugin's panel is replaced whole every time the plugin has something
    // new to say, and undo in a buffer you cannot type into has nothing to
    // give back.
    let mut d = doc("");
    for round in 0..1000 {
        let was = d.len_chars();
        let text = format!("line one of round {round}\nline two\nline three\n");
        d.apply_atomic(vec![Change::replace(0, was, text)], &sel(0), 0);
        d.mark_saved(None);
        d.forget_history();
    }
    assert!(d.done.is_empty(), "{} revisions kept", d.done.len());
    assert!(d.undone.is_empty());
    assert!(!d.is_modified(), "it should read as exactly what was put in");

    // And undo has nothing to give back, which is the point: the history is
    // not merely hidden, it is gone.
    let before = d.rope.to_string();
    d.undo();
    assert_eq!(d.rope.to_string(), before);

    // Without forgetting, the same rounds keep a revision each.
    let mut d = doc("");
    for round in 0..50 {
        let was = d.len_chars();
        d.apply_atomic(vec![Change::replace(0, was, format!("round {round}\n"))], &sel(0), 0);
    }
    assert_eq!(d.done.len(), 50, "the history really does grow otherwise");
}

fn stamp(modified: u128, len: u64) -> Stamp {
    Stamp { modified: Some(modified), len }
}

fn opened(text: &str, stamp: Option<Stamp>) -> Document {
    Document::open(
        DocId(0),
        "/work/a.txt".to_string(),
        &Some(Read { text: text.to_string(), stamp }),
        false,
        Indent::Spaces(4),
        &languages(),
        false,
        0,
    )
}

#[test]
fn a_file_read_whole_comes_back_with_the_stamp_it_was_read_under() {
    // The pairing is the point. Content from one moment stamped with metadata
    // from another is a buffer that is quietly wrong forever.
    let before = stamp(10, 5);
    assert_eq!(read_whole(Some(before), Some(before)), Some(before));
    let d = opened("hello", read_whole(Some(before), Some(before)));
    assert_eq!(d.text(), "hello");
    assert_eq!(d.stamp, Some(before));
}

#[test]
fn a_file_that_moved_while_it_was_read_is_not_stamped() {
    assert_eq!(read_whole(Some(stamp(10, 5)), Some(stamp(11, 5))), None);
    assert_eq!(read_whole(Some(stamp(10, 5)), Some(stamp(10, 6))), None);
    assert_eq!(read_whole(Some(stamp(10, 5)), None), None);
}

#[test]
fn a_file_is_read_three_times_before_it_is_left_alone() {
    let (before, after) = (Some(stamp(10, 5)), Some(stamp(11, 5)));
    assert_eq!(attempted(1, before, after), Attempt::Again);
    assert_eq!(attempted(2, before, None), Attempt::Again);
    assert_eq!(attempted(3, before, after), Attempt::Moving);
    assert_eq!(attempted(3, before, before), Attempt::Whole(stamp(10, 5)));
    assert_eq!(attempted(1, None, None), Attempt::Again);
}

#[test]
fn what_is_not_text_is_read_all_the_same() {
    let read = Read::of(&vec![b'a', 0xff, b'\n'], Some(stamp(1, 3)));
    assert_eq!(read.text, "a\u{fffd}\n");
    assert_eq!(read.stamp, Some(stamp(1, 3)));
    assert_eq!(Read::of(&"größe".as_bytes().to_vec(), None).text, "größe");
}

#[test]
fn a_file_still_being_written_is_not_taken_until_it_stops() {
    // The trouble this is here for: a buffer full of half a file.
    let mut d = opened("one\n", Some(stamp(1, 4)));
    assert_eq!(d.check_disk(Some(stamp(1, 4))), OnDisk::Same);

    // It changes. The first sighting of a change is never settled, because one
    // look cannot tell "it has just changed" from "it is changing".
    assert_eq!(d.check_disk(Some(stamp(2, 8))), OnDisk::Changed);
    assert!(!d.has_settled(), "one look is not enough to know it has stopped");

    // Still changing, still not settled, however many times we look.
    for n in 3..8u64 {
        assert_eq!(d.check_disk(Some(stamp(n as u128, 2 * n + 1))), OnDisk::Changed);
        assert!(!d.has_settled(), "it moved again between the two looks");
    }

    // It stops. The next look sees the same thing twice and says so.
    assert_eq!(d.check_disk(Some(stamp(7, 15))), OnDisk::Changed);
    assert!(d.has_settled());
}

#[test]
fn a_buffer_filled_from_disk_is_stamped_with_what_it_was_filled_from() {
    let mut d = opened("first", Some(stamp(1, 5)));

    // Somebody else writes it, and we take it.
    let read = read_whole(Some(stamp(2, 6)), Some(stamp(2, 6))).expect("sat still");
    let len = d.len_chars();
    d.apply_atomic(vec![replace(0, len, "second")], &sel(0), 0);
    d.took_from_disk(read);

    assert!(!d.is_modified());
    assert_eq!(d.check_disk(Some(stamp(2, 6))), OnDisk::Same, "it is up to date, and knows it");

    // And a further change is still noticed, rather than being hidden behind a
    // stamp taken at the wrong moment.
    assert_eq!(d.check_disk(Some(stamp(3, 5))), OnDisk::Changed);
}

#[test]
fn a_file_that_would_not_sit_still_to_be_opened_is_read_again_later() {
    // It opens either way, but with no stamp, so the first disk check treats
    // it as changed and reads it properly once it has stopped moving.
    let mut d = opened("half", None);
    assert_eq!(d.stamp, None);
    assert_eq!(d.seen, None);
    assert_eq!(d.check_disk(Some(stamp(1, 4))), OnDisk::Changed);
}

/// A file with colours.
fn coloured(text: &str) -> Document {
    let mut d = doc(text);
    d.set_language(LangId(1), true, true, 0);
    d
}

#[test]
fn colours_a_busy_moment_knocked_out_come_back() {
    let mut d = coloured("fn main() {\n    let x = 1;\n}\n");
    assert!(d.coloured, "it never had colours to lose");

    // What a parse that ran out of its budget leaves behind.
    d.coloured = false;
    d.colours_off = Some("colouring this file again");
    d.recolour = Some(5);

    assert!(d.wants_recolour(5), "nothing was going to try again");
    d.recolour(true, true, 5);
    assert!(d.coloured, "the file never got its colours back");
    assert_eq!(d.colours_off, None);
    assert!(!d.wants_recolour(5), "it is still trying after it worked");
    assert_eq!(d.recolour_tries, 0);
}

#[test]
fn a_file_too_large_to_colour_is_not_tried_again_for_ever() {
    let mut d = coloured("fn main() {}\n");
    d.rope = Rope::from_str(&"// padding\n".repeat(COLOUR_LIMIT / 8));
    d.reparse(true, true, 0);
    assert!(!d.coloured);
    assert_eq!(d.colours_off, Some("this file is very large"));
    assert!(!d.wants_recolour(0), "a file that will never be small enough is being retried");
}

#[test]
fn giving_up_takes_several_goes_and_then_says_so() {
    let mut d = coloured("fn main() {}\n");
    d.coloured = false;
    d.recolour_tries = RECOLOUR_TRIES - 1;
    d.recolour = Some(0);
    d.rope = Rope::from_str(&"x".repeat(COLOUR_LIMIT + 1));

    d.recolour(true, false, 0);
    // Past the size limit it is not a matter of trying again, and the reason
    // given is the true one rather than "too slowly".
    assert_eq!(d.colours_off, Some("this file is very large"));
    assert!(!d.wants_recolour(0));
}

#[test]
fn a_parse_that_keeps_running_out_of_time_is_tried_so_often_and_no_more() {
    let mut d = coloured("fn main() {}\n");
    let mut now: u64 = 0;
    let mut tries = 0;
    d.reparse(true, false, now);
    assert!(!d.coloured);
    while d.recolour.is_some() {
        assert!(!d.wants_recolour(now), "a moment has to pass first");
        now += RECOLOUR_AFTER * 16;
        assert!(d.wants_recolour(now));
        d.recolour(true, false, now);
        tries += 1;
        assert!(tries < 100, "it never gives up");
    }
    assert!(d.colours_off.is_some(), "and it says so");
}

#[test]
fn an_edit_and_its_undo_are_the_same_shape() {
    let mut d = doc("hello world");
    d.apply(vec![replace(6, 11, "there")], &sel(6), 0);
    assert_eq!(d.rope.to_string(), "hello there");
    assert!(d.is_modified());
    d.undo();
    assert_eq!(d.rope.to_string(), "hello world");
    d.redo();
    assert_eq!(d.rope.to_string(), "hello there");
}

#[test]
fn undoing_several_changes_at_once_puts_all_of_them_back() {
    // The changes are applied right to left, so every inverse but the leftmost
    // is recorded at a position the finished document does not agree with.
    let mut d = doc("aaa bbb ccc");
    d.apply(vec![replace(0, 3, "x"), replace(4, 7, "yy"), replace(8, 11, "zzz")], &sel(0), 0);
    assert_eq!(d.rope.to_string(), "x yy zzz");
    d.undo();
    assert_eq!(d.rope.to_string(), "aaa bbb ccc");
    d.redo();
    assert_eq!(d.rope.to_string(), "x yy zzz");
}

#[test]
fn a_position_walked_through_every_edit_lands_where_it_belongs() {
    let mut d = doc("aaa bbb ccc");
    let edits =
        d.apply(vec![replace(0, 3, "x"), replace(4, 7, "yy"), replace(8, 11, "zzz")], &sel(0), 0);
    // The very end of the old text is the very end of the new text.
    let mut at = 11;
    for edit in &edits {
        at = edit.map(at);
    }
    assert_eq!(at, d.len_chars());
}

#[test]
fn quick_typing_undoes_as_one_thing() {
    let mut d = doc("");
    for (i, c) in "word".chars().enumerate() {
        d.apply(vec![Change::insert(i, c.to_string())], &sel(i), 0);
    }
    assert_eq!(d.rope.to_string(), "word");
    d.undo();
    assert_eq!(d.rope.to_string(), "");
    assert!(d.undo().is_none());
}

#[test]
fn slow_typing_undoes_a_piece_at_a_time() {
    let mut d = doc("");
    d.apply(vec![insert(0, "a")], &sel(0), 0);
    d.apply(vec![insert(1, "b")], &sel(1), MERGE_WINDOW + 1);
    d.undo();
    assert_eq!(d.rope.to_string(), "a");
}

#[test]
fn a_paste_does_not_absorb_what_you_type_next() {
    let mut d = doc("");
    d.apply_atomic(vec![insert(0, "pasted")], &sel(0), 0);
    d.apply(vec![insert(6, "!")], &sel(6), 0);
    d.undo();
    assert_eq!(d.rope.to_string(), "pasted");
    d.undo();
    assert_eq!(d.rope.to_string(), "");
}

#[test]
fn undoing_back_to_where_you_saved_is_unmodified_again() {
    let mut d = doc("start");
    assert!(!d.is_modified());
    d.apply(vec![insert(5, "!")], &sel(5), 0);
    assert!(d.is_modified());
    d.undo();
    assert!(!d.is_modified());
}

#[test]
fn positions_after_an_edit_land_where_a_person_would_expect() {
    let mut d = doc("one two three");
    let edits = d.apply(vec![replace(4, 7, "TWO!")], &sel(4), 0);
    let edit = &edits[0];
    // Before the edit: untouched.
    assert_eq!(edit.map(2), 2);
    // After it: slid by one.
    assert_eq!(edit.map(8), 9);
    // Inside it: at the end of what replaced it.
    assert_eq!(edit.map(5), 8);
}

#[test]
fn utf16_columns_are_what_a_language_server_is_told() {
    // An emoji outside the basic plane is two UTF-16 units and one char.
    let d = doc("x🦀y");
    assert_eq!(d.lsp_point_at(1), (0, 1));
    assert_eq!(d.lsp_point_at(2), (0, 3));
    assert_eq!(d.char_at_lsp_point(0, 3), 2);
}

#[test]
fn a_file_that_has_made_up_its_mind_about_indentation_wins() {
    let tabs = Rope::from_str("fn a() {\n\tlet x = 1;\n\tif x {\n\t\tb();\n\t}\n}\n");
    assert_eq!(detect_indent(&tabs), Some(Indent::Tabs));
    let two = Rope::from_str("def a():\n  if x:\n    b()\n  c()\n");
    assert_eq!(detect_indent(&two), Some(Indent::Spaces(2)));
    let four = Rope::from_str("fn a() {\n    let x = 1;\n    if x {\n        b();\n    }\n}\n");
    assert_eq!(detect_indent(&four), Some(Indent::Spaces(4)));
    // Nothing to go on is nothing to go on, not a guess.
    assert_eq!(detect_indent(&Rope::from_str("one\ntwo\n")), None);
}

#[test]
fn a_line_and_column_counted_in_characters_finds_the_place() {
    let mut doc = Document::scratch(DocId(0), "test".to_string(), Indent::Spaces(4));
    doc.apply_atomic(vec![replace(0, 0, "héllo\nwörld\n")], &sel(0), 0);

    // Characters, not bytes and not UTF-16: the accented letter is one of
    // each, and column three is past it either way.
    assert_eq!(doc.char_at_point(0, 0), 0);
    assert_eq!(doc.char_at_point(0, 3), 3);
    assert_eq!(doc.char_at_point(1, 0), 6);
    assert_eq!(doc.char_at_point(1, 5), 11);

    // A column past the end of its line stops at the end of that line rather
    // than running on into the next one.
    assert_eq!(doc.char_at_point(0, 200), 5);
    // And a line past the end of the file lands in the last one.
    assert_eq!(doc.char_at_point(99, 0), doc.char_at_point(2, 0));
}

#[test]
fn a_saved_file_ends_its_lines_the_way_it_did() {
    let mut d = opened("one\r\ntwo\r\n", None);
    assert!(d.crlf);
    assert_eq!(d.text(), "one\ntwo\n");
    assert_eq!(d.text_to_save(false), "one\r\ntwo\r\n");
    d.apply(vec![replace(7, 8, "")], &sel(7), 0);
    assert_eq!(d.text_to_save(false), "one\r\ntwo");
    assert_eq!(d.text_to_save(true), "one\r\ntwo\r\n");
}

#[test]
fn a_file_that_has_gone_is_gone() {
    let mut d = opened("one\n", Some(stamp(1, 4)));
    assert_eq!(d.check_disk(None), OnDisk::Gone);
    assert!(d.is_news());
    d.noted();
    assert!(!d.is_news(), "saying it once is enough");
}

#[test]
fn a_severity_has_a_number_and_a_name() {
    assert_eq!(Severity::from_lsp(1), Severity::Error);
    assert_eq!(Severity::from_lsp(2), Severity::Warning);
    assert_eq!(Severity::from_lsp(3), Severity::Info);
    assert_eq!(Severity::from_lsp(4), Severity::Hint);
    assert_eq!(Severity::Warning.to_lsp(), 2);
    assert_eq!(Severity::Error.label(), "error");
    assert_eq!(Owner::Plugin("files".to_string()).plugin(), Some("files"));
    assert_eq!(Owner::Debugger.plugin(), None);
}

#[test]
fn a_path_is_made_whole_from_where_you_are() {
    let here = Some("/work".to_string());
    assert_eq!(absolute("a.txt", &here), "/work/a.txt");
    assert_eq!(absolute("/x/a.txt", &here), "/x/a.txt");
    assert_ne!(temporary("/work/a.txt", 17), "/work/a.txt");
}
