//! Two buffers side by side.
use textfold::diff::{Diff, Side};
use textfold::doc::{DocId, Document};
use textfold::git::Mark;
use textfold::indent::Indent;

fn doc(id: u32, text: &str) -> Document {
    let mut doc = Document::scratch(DocId(id), format!("buffer {id}"), Indent::Spaces(4));
    doc.set_text(text, false, false, 0);
    doc
}

fn compare(a: &str, b: &str) -> (Diff, Document, Document) {
    let (left, right) = (doc(1, a), doc(2, b));
    let diff = Diff::new((0, &left), (1, &right));
    (diff, left, right)
}

#[test]
fn two_files_that_are_the_same_have_nothing_to_say() {
    let (diff, ..) = compare("one\ntwo\n", "one\ntwo\n");
    assert!(diff.same());
    assert_eq!(diff.differing(), 0);
    assert_eq!(diff.mark(0, 0), None);
    assert_eq!(diff.mark(1, 0), None);
}

#[test]
fn a_line_only_one_side_has_is_marked_on_that_side() {
    // The right has an extra line.
    let (diff, ..) = compare("one\ntwo\n", "one\nextra\ntwo\n");
    assert_eq!(diff.mark(1, 1), Some(Mark::Added), "the extra line");
    assert_eq!(diff.mark(1, 0), None);
    assert_eq!(diff.mark(1, 2), None);
    // And the left says something is missing where it would have gone.
    assert!(diff.mark(0, 0).is_some() || diff.mark(0, 1).is_some());
}

#[test]
fn matching_lines_sit_beside_each_other() {
    let (diff, ..) = compare("one\ntwo\nthree\n", "one\nextra\ntwo\nthree\n");
    assert_eq!(diff.beside(0, 0), Some(0), "the first line of each");
    assert_eq!(diff.beside(0, 1), Some(2), "\"two\" moved down one");
    assert_eq!(diff.beside(0, 2), Some(3));
    // And back the other way.
    assert_eq!(diff.beside(1, 2), Some(1));
    assert_eq!(diff.beside(1, 3), Some(2));
}

#[test]
fn inside_a_block_that_differs_the_two_sides_move_together() {
    let (diff, ..) = compare("same\na\nb\nc\nend\n", "same\nx\ny\nz\nend\n");
    // Nothing in the middle lines up, so the offset from "same" is kept
    // rather than everything snapping to the next line they agree on.
    assert_eq!(diff.beside(0, 1), Some(1));
    assert_eq!(diff.beside(0, 2), Some(2));
    assert_eq!(diff.beside(0, 3), Some(3));
    assert_eq!(diff.beside(0, 4), Some(4), "\"end\"");
}

#[test]
fn a_pane_that_is_not_in_the_comparison_is_not_answered_about() {
    let (diff, ..) = compare("one\n", "two\n");
    assert_eq!(diff.side_of(7), None);
    assert_eq!(diff.mark(7, 0), None);
    assert_eq!(diff.beside(7, 0), None);
    assert_eq!(diff.other_pane(7), None);
}

#[test]
fn the_other_pane_is_the_one_you_are_not_in() {
    let (diff, ..) = compare("one\n", "two\n");
    assert_eq!(diff.other_pane(0), Some(1));
    assert_eq!(diff.other_pane(1), Some(0));
}

#[test]
fn stepping_walks_blocks_rather_than_lines() {
    // Two separate differences, the first of them three lines long.
    let (diff, ..) = compare(
        "keep\na\nb\nc\nkeep2\nkeep3\nd\nkeep4\n",
        "keep\nx\ny\nz\nkeep2\nkeep3\nw\nkeep4\n",
    );
    let first = diff.next_change(1, 0, true).expect("a difference");
    assert_eq!(first, 1);
    let second = diff.next_change(1, first, true).expect("another");
    assert_eq!(second, 6, "it stepped inside the first block");
}

#[test]
fn an_edit_makes_a_comparison_out_of_date_without_making_it_wrong() {
    let (diff, left, mut right) = compare("one\n", "one\n");
    assert!(diff.current_for(&left, &right));
    right.set_text("two\n", false, false, 0);
    assert!(!diff.current_for(&left, &right));
}

#[test]
fn a_comparison_stops_describing_panes_that_have_moved_on() {
    let (diff, left, right) = compare("one\n", "two\n");
    assert!(diff.describes(&[(0, left.id), (1, right.id)]));
    assert!(
        !diff.describes(&[(0, left.id)]),
        "a pane was closed and the comparison did not notice"
    );
    assert!(
        !diff.describes(&[(0, left.id), (1, DocId(99))]),
        "a different file was shown and the comparison did not notice"
    );
}

#[test]
fn each_pane_has_its_side() {
    let (diff, ..) = compare("one\ntwo\n", "one\n2\n");
    assert_eq!(diff.panes(), (0, 1));
    assert_eq!(diff.side_of(0), Some(Side::Left));
    assert_eq!(diff.side_of(1), Some(Side::Right));
    assert_eq!(diff.differing(), 1);
    assert_eq!(diff.next_change(0, 1, false), Some(1), "the only one comes round again");
}

#[test]
fn a_last_line_without_an_end_is_a_difference() {
    let (diff, ..) = compare("one", "one\n");
    assert!(!diff.same());
    let (diff, ..) = compare("one\n", "one\n");
    assert!(diff.same());
    let (diff, ..) = compare("", "");
    assert!(diff.same());
}
