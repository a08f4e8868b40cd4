//! What a program is called by the files that make it.
use textfold::source::{declared_class, package_name, package_of, read_address};

#[test]
fn a_class_is_qualified_by_the_package_it_declares() {
    assert_eq!(package_of("package com.example.calc;\n"), Some("com.example.calc".into()));
    assert_eq!(
        package_of("package com.example;\n\nimport java.util.List;\n\nclass Main {}\n"),
        Some("com.example".into()),
    );
}

#[test]
fn a_file_with_no_package_line_is_in_the_default_package() {
    assert_eq!(package_of("class Main {}\n"), None);
    assert_eq!(package_of("import java.util.List;\n\nclass Main {}\n"), None);
    assert_eq!(package_of(""), None);
}

#[test]
fn the_word_package_in_a_comment_is_not_a_package_declaration() {
    assert_eq!(package_of("// package com.wrong;\nclass Main {}\n"), None);
    assert_eq!(package_of("/* package com.wrong; */\nclass Main {}\n"), None);
    assert_eq!(
        package_of("/*\n * package com.wrong;\n */\npackage com.right;\nclass Main {}\n"),
        Some("com.right".into()),
    );
}

#[test]
fn an_identifier_beginning_with_package_is_not_a_declaration() {
    assert_eq!(package_of("packagefoo.Bar x;\n"), None);
}

#[test]
fn a_class_is_the_file_name_with_the_package_in_front_of_it() {
    assert_eq!(
        declared_class("/p/com/example/Main.java", "package com.example;\n\nclass Main {}\n"),
        Some("com.example.Main".into())
    );
    assert_eq!(
        declared_class("/p/Scratch.java", "class Scratch {}\n"),
        Some("Scratch".into())
    );
    assert_eq!(declared_class("/", ""), None);
}

#[test]
fn what_cargo_calls_the_binary_is_read_out_of_the_manifest() {
    assert_eq!(
        package_name(
            "[package]\nname = \"word-count\"  # what it is called\nversion = \"0.1.0\"\n\n\
             [dependencies]\nname = \"not this one\"\n",
        )
        .as_deref(),
        Some("word-count")
    );
    assert_eq!(package_name("[workspace]\nmembers = [\"a\", \"b\"]\n"), None);
    assert_eq!(package_name("[package]\nname = \"\"\n"), None);
    assert_eq!(package_name("[package]\nname = bare\n"), None);
}

#[test]
fn an_address_is_read_the_way_somebody_would_write_one() {
    assert_eq!(read_address("5005"), Some(("127.0.0.1".into(), 5005)));
    assert_eq!(read_address("  5005 "), Some(("127.0.0.1".into(), 5005)));
    assert_eq!(read_address("10.0.0.2:5005"), Some(("10.0.0.2".into(), 5005)));
    assert_eq!(read_address("box.local:9"), Some(("box.local".into(), 9)));
    assert_eq!(read_address("[::1]:5005"), Some(("::1".into(), 5005)));
    assert_eq!(read_address("localhost"), None);
    assert_eq!(read_address(""), None);
    assert_eq!(read_address("5005 or so"), None);
    assert_eq!(read_address("70000"), None, "not a port at all");
    assert_eq!(read_address(":80"), Some(("127.0.0.1".into(), 80)));
}
