//! Which language a file is written in, and where its project begins.
use ropey::Rope;
use textfold::lang::{
    blank, built_in_grammar, by_name, by_tag, detect, get, init, matches_pattern, names,
    places_to_look, project_root, rebuild, FileGrammar, FileLang, FileServer, Holding, LangId, Languages, Plugin,
    Said,
};

fn silent() -> FileLang {
    FileLang {
        lsp_id: None,
        extensions: None,
        filenames: None,
        shebangs: None,
        line_comment: None,
        block_comment: None,
        brackets: None,
        servers: None,
        grammar: None,
    }
}

fn server(command: &str) -> FileServer {
    FileServer {
        name: None,
        command: command.to_string(),
        args: vec![],
        roots: vec![],
        init_options: None,
        settings: None,
        env: vec![],
    }
}

fn texts(list: &[&str]) -> Option<Vec<String>> {
    Some(list.iter().map(|s| s.to_string()).collect())
}

fn plugin(id: &str, languages: Vec<(String, FileLang)>) -> Plugin {
    Plugin { id: id.to_string(), on: true, languages }
}

fn said() -> Said {
    Said {
        plugins: vec![
            plugin(
                "bash",
                vec![(
                    "bash".to_string(),
                    FileLang {
                        extensions: texts(&["sh", "bash"]),
                        shebangs: texts(&["bash", "sh"]),
                        ..silent()
                    },
                )],
            ),
            plugin(
                "docker",
                vec![(
                    "dockerfile".to_string(),
                    FileLang { filenames: texts(&["Dockerfile"]), ..silent() },
                )],
            ),
            plugin(
                "rust",
                vec![(
                    "rust".to_string(),
                    FileLang {
                        extensions: texts(&["rs"]),
                        line_comment: Some("//".to_string()),
                        grammar: Some(FileGrammar::BuiltIn { built_in: "rust".to_string() }),
                        ..silent()
                    },
                )],
            ),
        ],
        off: vec![],
        problems: vec![],
        home: None,
    }
}

#[test]
fn a_file_is_recognised_by_name_then_by_shebang() {
    let languages = init(&said()).languages;
    let rust = detect(&languages, "/x/src/main.rs", &Rope::new());
    assert_eq!(get(&languages, rust).name, "rust");
    // No extension at all, but it says what it is.
    let script =
        detect(&languages, "/x/deploy", &Rope::from_str("#!/usr/bin/env bash\necho hi\n"));
    assert_eq!(get(&languages, script).name, "bash");
    // Nothing to go on.
    assert_eq!(detect(&languages, "/x/notes", &Rope::new()), LangId::plain());
}

#[test]
fn a_whole_file_name_beats_an_extension() {
    let languages = init(&said()).languages;
    let makefile = detect(&languages, "/x/Dockerfile", &Rope::new());
    assert_eq!(get(&languages, makefile).name, "dockerfile");
}

#[test]
fn a_later_plugin_adds_to_a_language_rather_than_replacing_it() {
    let mut langs = Languages { langs: vec![blank(LangId(0), "rust")], problems: vec![] };
    let first = vec![(
        "rust".to_string(),
        FileLang {
            extensions: texts(&["rs"]),
            line_comment: Some("//".to_string()),
            servers: Some(vec![server("rust-analyzer")]),
            ..silent()
        },
    )];
    langs.merge("rust", &first, &vec![], &None);
    let second = vec![(
        "rust".to_string(),
        FileLang { servers: Some(vec![server("ra-multiplex")]), ..silent() },
    )];
    langs.merge("mine", &second, &vec![], &None);

    let rust = &langs.langs[0];
    assert_eq!(rust.servers[0].command, "ra-multiplex");
    // A server with no name of its own is called after its command, so that it
    // still has an id to be switched off by.
    assert_eq!(rust.servers[0].id, "mine/ra-multiplex");
    // The parts the second plugin said nothing about survived.
    assert_eq!(rust.line_comment.as_deref(), Some("//"));
    assert_eq!(rust.extensions, ["rs"]);
}

#[test]
fn a_language_nothing_provides_keeps_its_name_and_loses_the_rest() {
    let lang = blank(LangId(7), "zig");
    assert!(!lang.is_available());
    assert!(lang.extensions.is_empty());
    assert!(lang.servers.is_empty());
    assert!(!lang.has_grammar());
}

/// What the directories above a file hold, where one of them holds a name.
fn holdings(from: &str, markers: &[String], dir: &str, name: &str) -> Vec<Holding> {
    places_to_look(from, false)
        .iter()
        .map(|place| Holding {
            present: markers.iter().map(|m| place == dir && m == name).collect(),
            names: if place == dir { vec![name.to_string()] } else { vec![] },
        })
        .collect()
}

#[test]
fn a_marker_can_name_an_extension_rather_than_a_file() {
    // The file that marks the top of a project can be named after the
    // solution, not after the language.
    let file = "/w/src/Widgets/Widget.cs";
    let markers = vec!["*.sln".to_string(), ".git".to_string()];
    let held = holdings(file, &markers, "/w", "Thing.sln");
    assert_eq!(project_root(file, false, &markers, &held), "/w");
    // And an extension nothing has still falls back rather than matching.
    let markers = vec!["*.nope".to_string()];
    let held = holdings(file, &markers, "/w", "Thing.sln");
    assert_eq!(project_root(file, false, &markers, &held), "/w/src/Widgets");
}

#[test]
fn the_project_root_is_the_nearest_marker_above_the_file() {
    let file = "/w/crate/src/inner/thing.rs";
    let markers = vec!["Cargo.toml".to_string()];
    let held = holdings(file, &markers, "/w/crate", "Cargo.toml");
    assert_eq!(project_root(file, false, &markers, &held), "/w/crate");
    assert_eq!(places_to_look("/w/a.rs", false), vec!["/w".to_string(), "/".to_string()]);
}

#[test]
fn a_language_keeps_its_number_when_plugins_come_and_go() {
    let mut registry = init(&said());
    let rust = by_name(&registry.languages, "rust").expect("there");
    assert_eq!(by_tag(&registry.languages, "rs"), Some(rust));
    assert_eq!(by_tag(&registry.languages, "nonsense"), None);
    let mut now = said();
    now.plugins.remove(0);
    rebuild(&mut registry, &now);
    assert_eq!(by_name(&registry.languages, "rust"), Some(rust));
    assert_eq!(get(&registry.languages, rust).name, "rust");
    assert!(get(&registry.languages, rust).is_available());
    // What went is no longer recognised, and its number still means it.
    assert_eq!(detect(&registry.languages, "/x/a.sh", &Rope::new()), LangId::plain());
    assert!(!names(&registry.languages).iter().any(|(_, name)| name == "bash"));
}

#[test]
fn a_grammar_nobody_compiled_in_is_said_to_be_missing() {
    assert!(built_in_grammar("rust"));
    assert!(!built_in_grammar("klingon"));
    let mut langs = Languages { langs: vec![blank(LangId(0), "x")], problems: vec![] };
    let asks = vec![(
        "x".to_string(),
        FileLang {
            grammar: Some(FileGrammar::BuiltIn { built_in: "klingon".to_string() }),
            ..silent()
        },
    )];
    langs.merge("mine", &asks, &vec![], &None);
    assert!(!langs.langs[0].has_grammar());
    assert_eq!(langs.problems.len(), 1);
    assert!(langs.problems[0].contains("klingon"), "{:?}", langs.problems);
}

#[test]
fn a_server_that_was_switched_off_is_left_out() {
    let mut langs = Languages { langs: vec![blank(LangId(0), "rust")], problems: vec![] };
    let def = vec![(
        "rust".to_string(),
        FileLang { servers: Some(vec![server("one"), server("two")]), ..silent() },
    )];
    langs.merge("rust", &def, &vec!["rust/one".to_string()], &None);
    assert_eq!(langs.langs[0].servers.len(), 1);
    assert_eq!(langs.langs[0].servers[0].id, "rust/two");
}

#[test]
fn the_longest_extension_wins() {
    let mut s = said();
    s.plugins.push(plugin(
        "web",
        vec![
            ("typescript".to_string(), FileLang { extensions: texts(&["ts"]), ..silent() }),
            ("declarations".to_string(), FileLang { extensions: texts(&["d.ts"]), ..silent() }),
        ],
    ));
    let languages = init(&s).languages;
    let id = detect(&languages, "/x/a.d.ts", &Rope::new());
    assert_eq!(get(&languages, id).name, "declarations");
    let id = detect(&languages, "/x/a.ts", &Rope::new());
    assert_eq!(get(&languages, id).name, "typescript");
}

#[test]
fn a_language_whose_plugin_is_off_is_there_by_name_alone() {
    let mut s = said();
    s.plugins[2].on = false;
    let languages = init(&s).languages;
    let rust = languages.langs.iter().find(|l| l.name == "rust").expect("by name");
    assert!(!rust.is_available());
    assert!(rust.extensions.is_empty());
    assert!(!rust.has_grammar());
}

#[test]
fn a_tag_means_what_it_means_in_small_letters() {
    let registry = init(&said());
    let rust = by_tag(&registry.languages, "rust");
    assert!(rust.is_some());
    for tag in ["RUST", " Rust\t", "rs", "RS "] {
        assert_eq!(by_tag(&registry.languages, tag), rust, "{tag:?}");
        let low = tag.trim().to_lowercase();
        assert_eq!(by_tag(&registry.languages, &low), rust, "{low:?}");
    }
    assert_eq!(by_tag(&registry.languages, " \t"), None);
    assert_eq!(by_tag(&registry.languages, "text"), None, "plain text is not meant by a tag");
}

#[test]
fn a_name_gives_its_number_or_none_after_a_rebuild() {
    let mut registry = init(&said());
    let bash = by_name(&registry.languages, "bash").expect("there");
    let mut off = said();
    off.plugins.remove(0);
    rebuild(&mut registry, &off);
    assert_eq!(by_name(&registry.languages, "bash"), None);
    assert_eq!(get(&registry.languages, bash).name, "bash");
    rebuild(&mut registry, &said());
    assert_eq!(by_name(&registry.languages, " Bash"), Some(bash));
}

#[test]
fn a_pattern_means_a_name_or_a_kind_of_file() {
    assert!(matches_pattern("/w/Cargo.toml", "Cargo.toml"));
    assert!(!matches_pattern("/w/Cargo.toml.bak", "Cargo.toml"));
    assert!(matches_pattern("/w/A.RS", "*.rs"));
    assert!(!matches_pattern("/w/rs", "*.rs"));
}
