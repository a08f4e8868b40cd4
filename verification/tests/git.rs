//! The marks against what was committed.
use textfold::doc::{DocId, Document};
use textfold::git::{aligned, marks, Mark, Repo, Tracker};
use textfold::indent::Indent;

fn at(text: &str) -> Vec<(usize, Mark)> {
    marks("a\nb\nc\nd\ne\n", text)
}

#[test]
fn a_file_nobody_touched_has_nothing_to_say() {
    assert_eq!(at("a\nb\nc\nd\ne\n"), vec![]);
}

#[test]
fn a_changed_line_is_marked_where_it_is_now() {
    assert_eq!(at("a\nb\nC\nd\ne\n"), vec![(2, Mark::Changed)]);
}

#[test]
fn inserted_lines_are_marked_as_added() {
    assert_eq!(at("a\nb\nx\ny\nc\nd\ne\n"), vec![(2, Mark::Added), (3, Mark::Added)]);
}

#[test]
fn a_deletion_is_marked_against_the_line_that_took_its_place() {
    assert_eq!(at("a\nb\nd\ne\n"), vec![(2, Mark::Removed)]);
}

#[test]
fn an_edit_at_each_end_leaves_the_middle_alone() {
    let marks = at("A\nb\nc\nd\nE\n");
    assert_eq!(marks, vec![(0, Mark::Changed), (4, Mark::Changed)]);
}

#[test]
fn a_block_moved_down_lines_up_on_what_is_unique() {
    let old = "fn a() {\n  one\n}\nfn b() {\n  two\n}\n";
    let new = "fn b() {\n  two\n}\nfn a() {\n  one\n}\n";
    let marks = marks(old, new);
    assert!(!marks.is_empty(), "a move is a change somewhere");
    assert!(marks.len() < 6, "{marks:?}");
}

#[test]
fn a_file_that_did_not_exist_before_is_all_new() {
    let marks = marks("", "one\ntwo\n");
    assert_eq!(marks, vec![(0, Mark::Added), (1, Mark::Added)]);
}

#[test]
fn emptying_a_file_leaves_one_mark_rather_than_none() {
    let marks = marks("one\ntwo\n", "");
    assert_eq!(marks, vec![(0, Mark::Removed)]);
}

#[test]
fn lines_taken_out_on_both_sides_of_the_last_line_are_one_mark() {
    assert_eq!(marks("x\na\ny\n", "a\n"), vec![(0, Mark::Removed)]);
}

#[test]
fn a_carriage_return_before_a_line_feed_is_not_a_change() {
    assert_eq!(marks("a\r\nb\r\n", "a\nb\n"), vec![]);
    assert_eq!(marks("a\nb\r", "a\nb"), vec![(1, Mark::Changed)]);
}

#[test]
fn lines_in_common_are_lined_up_in_order() {
    assert_eq!(aligned("a\nb\nc\n", "a\nx\nb\nc\n"), vec![(0, 0), (1, 2), (2, 3)]);
    assert_eq!(aligned("p\nu\nv\nq\n", "r\nv\nu\ns\n").len(), 1);
}

#[test]
fn a_mark_is_drawn_as_a_bar() {
    assert_eq!(Mark::Added.glyph(), '\u{2503}');
    assert_eq!(Mark::Changed.glyph(), '\u{2503}');
    assert_eq!(Mark::Removed.glyph(), '\u{2581}');
}

#[test]
fn a_head_names_a_branch_or_a_commit() {
    assert_eq!(Repo::head("ref: refs/heads/trunk\n").as_deref(), Some("trunk"));
    assert_eq!(Repo::head("0123456789abcdef\n").as_deref(), Some("0123456"));
    assert_eq!(Repo::head("0123\n"), None);
}

#[test]
fn a_git_file_points_somewhere_else() {
    let here = Repo::at("/w", true, &None).expect("a repository");
    assert_eq!((here.root.as_str(), here.dir.as_str()), ("/w", "/w/.git"));
    let there = Repo::at("/w", false, &Some("gitdir: ../r/.git/worktrees/w\n".into()));
    assert_eq!(there.expect("a repository").dir, "/w/../r/.git/worktrees/w");
    let away = Repo::at("/w", false, &Some("gitdir: /r/.git\n".into()));
    assert_eq!(away.expect("a repository").dir, "/r/.git");
    assert!(Repo::at("/w", false, &Some("nothing".into())).is_none());
    assert!(Repo::at("/w", false, &None).is_none());
}

#[test]
fn a_file_is_asked_for_by_its_path_below_the_root() {
    let repo = Repo::at("/w", true, &None).expect("a repository");
    assert_eq!(repo.object_of("/w/src/a.rs").as_deref(), Some("HEAD:src/a.rs"));
    assert_eq!(repo.object_of("/work/src/a.rs"), None);
    assert_eq!(Repo::committed("a\r\nb\r\n"), "a\nb\n");
    assert_eq!(Repo::head_moved(Some(3), None, Some(5)), Some(5));
}

fn document(id: u32, path: &str, text: &str) -> Document {
    let mut doc = Document::scratch(DocId(id), "x".to_string(), Indent::Spaces(4));
    doc.path = Some(path.to_string());
    doc.set_text(text, false, false, 0);
    doc
}

#[test]
fn a_tracker_keeps_marks_for_the_files_of_its_repository() {
    let mut t = Tracker::default();
    assert!(!t.watching());
    let repo = Repo::at("/w", true, &None);
    assert!(t.open(repo, Some("trunk".to_string()), Some(1)));
    assert_eq!(t.head(), Some("trunk"));
    let doc = document(7, "/w/a.txt", "one\nTWO\nthree\n");
    assert!(t.wants_baseline(&doc));
    assert!(t.refresh(&doc, Some("one\ntwo\nthree\n".to_string())));
    assert!(!t.refresh(&doc, None), "nothing has been edited since");
    assert!(t.tracking(DocId(7)));
    assert_eq!(t.mark(DocId(7), 1), Some(Mark::Changed));
    assert_eq!(t.mark(DocId(7), 0), None);
    assert_eq!(t.changed_lines(DocId(7)), 1);
    assert_eq!(t.next_change(DocId(7), 0, true), Some(1));
    assert_eq!(t.next_change(DocId(7), 1, false), Some(1));
    let other = document(8, "/elsewhere/a.txt", "x\n");
    assert!(!t.refresh(&other, Some("y\n".to_string())));
    assert!(!t.poll_head(Some(1), None));
    assert!(t.poll_head(Some(2), Some("other".to_string())));
    assert_eq!(t.changed_lines(DocId(7)), 0);
    assert!(t.refresh(&doc, None));
    assert!(!t.tracking(DocId(7)), "git has never seen it");
    t.forget_baseline(DocId(7));
    t.forget(DocId(7));
    assert_eq!(t.next_change(DocId(7), 0, true), None);
}

#[test]
fn as_many_lines_as_can_be_are_lined_up() {
    assert_eq!(aligned("a\nb\nc\nd\n", "b\nc\nd\na\n"), vec![(1, 0), (2, 1), (3, 2)]);
    assert_eq!(aligned("a\nb\nc\nd\n", "d\na\nb\nc\n"), vec![(0, 1), (1, 2), (2, 3)]);
}

#[test]
fn a_git_file_that_names_nothing_is_walked_past() {
    let dirs: Vec<String> = ["/w/a/b", "/w/a", "/w", "/"].map(str::to_string).to_vec();
    let none = || (false, None);
    let seen = vec![none(), (false, Some("nothing".to_string())), (true, None), none()];
    let found = Repo::find(&dirs, &seen).expect("a repository");
    assert_eq!((found.root.as_str(), found.dir.as_str()), ("/w", "/w/.git"));
    let seen = vec![none(), (false, Some("gitdir: /r/.git\n".to_string())), (true, None), none()];
    let found = Repo::find(&dirs, &seen).expect("a repository");
    assert_eq!((found.root.as_str(), found.dir.as_str()), ("/w/a", "/r/.git"));
    assert!(Repo::find(&dirs, &vec![none(), none(), none(), none()]).is_none());
}

#[test]
fn a_branch_may_be_called_anything() {
    assert_eq!(Repo::head("ref: refs/heads/größe\n").as_deref(), Some("größe"));
}
