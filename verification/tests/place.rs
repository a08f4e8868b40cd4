use textfold::doc::{DocId, Document, OnDisk, Stamp};
use textfold::files::{absolute, read_whole, split_place, temporary, Read};
use textfold::indent::Indent;
use textfold::lang::{init, LangId, Languages, Said};

fn plain() -> Languages {
    let said = Said { plugins: Vec::new(), off: Vec::new(), problems: Vec::new(), home: None };
    init(&said).languages
}

#[test]
fn a_compiler_error_can_be_pasted_straight_in() {
    assert_eq!(
        split_place("src/main.rs:42:8", false),
        ("src/main.rs".to_string(), Some((41, 7)))
    );
    assert_eq!(
        split_place("src/main.rs:42", false),
        ("src/main.rs".to_string(), Some((41, 0)))
    );
    assert_eq!(split_place("src/main.rs", false), ("src/main.rs".to_string(), None));
    assert_eq!(split_place("weird:name", false), ("weird:name".to_string(), None));
}

#[test]
fn a_file_that_really_has_a_colon_in_its_name_still_opens() {
    assert_eq!(split_place("notes:1", true), ("notes:1".to_string(), None));
    assert_eq!(split_place("a:b:3", false), ("a:b:3".to_string(), None));
    assert_eq!(split_place("a:0:0", false), ("a".to_string(), Some((0, 0))));
}

#[test]
fn a_path_is_taken_from_where_one_is() {
    let here = Some("/home/me".to_string());
    assert_eq!(absolute("./a//b/./c", &here), "/home/me/a/b/c");
    assert_eq!(absolute("/x/../y/", &here), "/x/../y/");
    assert_eq!(absolute("//net/share", &here), "//net/share");
    assert_eq!(absolute("///a", &here), "/a");
    assert_eq!(absolute("", &here), "");
    assert_eq!(absolute("a", &None), "a");
    assert_eq!(absolute(".", &here), "/home/me");
}

#[test]
fn a_file_is_written_beside_the_one_it_is_to_be() {
    assert_eq!(temporary("/a/b.rs", 12), "/a/.b.rs.textfold-12");
    assert_eq!(temporary("b.rs", 1), ".b.rs.textfold-1");
}

#[test]
fn a_file_that_moved_while_it_was_read_was_not_read() {
    let a = Stamp { modified: Some(1), len: 4 };
    let b = Stamp { modified: Some(2), len: 4 };
    assert_eq!(read_whole(Some(a), Some(a)), Some(a));
    assert_eq!(read_whole(Some(a), Some(b)), None);
    assert_eq!(read_whole(Some(a), None), None);
}

#[test]
fn a_file_is_opened_as_it_is_on_disk() {
    let stamp = Stamp { modified: Some(1), len: 9 };
    let read = Some(Read { text: "if x:\r\n\ty\r\n".to_string(), stamp: Some(stamp) });
    let d = Document::open(
        DocId(3),
        "/p/notes.txt".to_string(),
        &read,
        true,
        Indent::Spaces(2),
        &plain(),
        false,
        0,
    );
    assert_eq!(d.text(), "if x:\n\ty\n");
    assert!(d.crlf && d.had_final_newline && d.read_only && d.settled);
    assert_eq!(d.name, "notes.txt");
    assert_eq!(d.language, LangId(0));
    assert_eq!(d.indent, Indent::Tabs);
    assert!(!d.is_modified());
}

#[test]
fn a_file_that_is_not_there_yet_is_empty() {
    let d = Document::open(
        DocId(3),
        "/p/new.rs".to_string(),
        &None,
        true,
        Indent::Spaces(2),
        &plain(),
        false,
        0,
    );
    assert_eq!(d.text(), "");
    assert!(!d.read_only && !d.settled && d.had_final_newline);
    assert_eq!(d.indent, Indent::Spaces(2));
    assert_eq!(d.on_disk, OnDisk::Same);
}

#[test]
fn saving_under_another_name_changes_what_a_document_stands_for() {
    let mut d = Document::scratch(DocId(1), "untitled".to_string(), Indent::Tabs);
    let here = Some("/p".to_string());
    d.save_to("text\n", "b.txt", &here, &plain(), None);
    assert_eq!(d.path.as_deref(), Some("/p/b.txt"));
    assert_eq!(d.name, "b.txt");
    d.rename_to("/q/c.txt", &here, &plain(), None);
    assert_eq!(d.path.as_deref(), Some("/q/c.txt"));
    d.redetect_language(&plain(), false, 0);
    assert_eq!(d.language, LangId(0));
}
