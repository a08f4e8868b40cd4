//! What the command line asks for, and what is said there.
use textfold::cli::{
    about_language, announce, go_to, nothing_newer, restored, state_of, wants_session, what_to_do,
    Asked, Errand,
};
use textfold::plan::{Files, Plan, Step};

fn nothing_asked() -> Asked {
    Asked {
        list_themes: false,
        list_plugins: false,
        refresh: false,
        update: false,
        list_packages: false,
        install: false,
        uninstall: false,
        list_languages: false,
        log_path: false,
    }
}

#[test]
fn the_first_thing_asked_for_is_done() {
    assert_eq!(nothing_asked().errand(), Errand::Edit);
    let both = Asked { install: true, log_path: true, ..nothing_asked() };
    assert_eq!(both.errand(), Errand::Install);
    let all = Asked {
        list_themes: true,
        list_plugins: true,
        refresh: true,
        update: true,
        list_packages: true,
        install: true,
        uninstall: true,
        list_languages: true,
        log_path: true,
    };
    assert_eq!(all.errand(), Errand::ListThemes);
    assert_eq!(Asked { log_path: true, ..nothing_asked() }.errand(), Errand::LogPath);
}

#[test]
fn a_plugin_stands_in_one_of_three_ways() {
    assert_eq!(state_of(false, true), "off");
    assert_eq!(state_of(true, true), "on ");
    assert_eq!(state_of(true, false), "get");
    assert_eq!(what_to_do("zls", true, &None), "textfold --install zls");
    assert_eq!(what_to_do("zls", false, &Some("ziglang.org".to_string())), "see ziglang.org");
    assert_eq!(
        what_to_do("zls", false, &None),
        "install it yourself and textfold will find it"
    );
}

#[test]
fn a_language_says_what_it_has() {
    let servers = vec!["pyright".to_string(), "ruff".to_string()];
    assert_eq!(about_language(true, &servers), "coloured, pyright, ruff");
    assert_eq!(about_language(false, &servers), "pyright, ruff");
    assert_eq!(about_language(false, &vec![]), "");
}

fn plan(system: bool, removing: bool) -> Plan {
    Plan {
        id: "zls".to_string(),
        name: "Zig".to_string(),
        removing,
        files: Files::Leave,
        steps: vec![Step {
            about: "get it".to_string(),
            run: vec!["brew".to_string(), "install".to_string(), "zls".to_string()],
            unless: None,
            when: None,
            os: vec![],
            arch: vec![],
            system,
        }],
        steps_from: None,
        needs: vec![],
        see: None,
    }
}

#[test]
fn what_a_plan_will_do_is_said_before_it_is_done() {
    let tools = Some("/t".to_string());
    assert_eq!(
        announce(&plan(false, false), &tools),
        ["Zig:", "  brew install zls", "", "Into /t", ""]
    );
    assert_eq!(announce(&plan(false, true), &tools), ["Zig:", "  brew install zls", ""]);
    let system = announce(&plan(true, false), &tools);
    assert_eq!(
        system[3],
        "Some of this installs system-wide — the lines that say so above."
    );
    let mut idle = plan(false, false);
    idle.steps = vec![];
    assert_eq!(announce(&idle, &tools), ["Zig has nothing to do — it is already here"]);
}

#[test]
fn nothing_newer_is_said_of_one_or_of_all() {
    assert_eq!(nothing_newer(""), "everything is at the newest version there is");
    assert_eq!(nothing_newer("zls"), "zls is already at the newest version there is");
}

#[test]
fn what_was_open_comes_back_only_where_nothing_was_named() {
    assert!(wants_session(0, false, true));
    assert!(!wants_session(1, false, true));
    assert!(!wants_session(0, true, true));
    assert!(!wants_session(0, false, false));
    assert_eq!(restored(0), None);
    assert_eq!(
        restored(1).as_deref(),
        Some("1 file from last time — --no-session starts empty")
    );
    assert_eq!(
        restored(11).as_deref(),
        Some("11 files from last time — --no-session starts empty")
    );
}

#[test]
fn the_last_file_named_says_where_to_go() {
    assert_eq!(go_to(&vec![Some((1, 2)), None], None), None);
    assert_eq!(go_to(&vec![None, Some((41, 7))], None), Some((41, 7)));
    assert_eq!(go_to(&vec![Some((41, 7))], Some(3)), Some((2, 0)));
    assert_eq!(go_to(&vec![], Some(0)), Some((0, 0)));
    assert_eq!(go_to(&vec![], None), None);
}
