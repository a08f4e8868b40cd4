use textfold::bindings::{Keys, Wishes};
use textfold::cmd::Cmd;
use textfold::keys::{Code, Key, Media, Modifier, Mods};
use textfold::scheme::{shipped, SHIPPED};

fn mods(control: bool, alt: bool, shift: bool) -> Mods {
    Mods { control, alt, shift }
}

const NONE: Mods = Mods { control: false, alt: false, shift: false };
const CONTROL: Mods = Mods { control: true, alt: false, shift: false };
const SHIFT: Mods = Mods { control: false, alt: false, shift: true };

fn names() -> Vec<(String, Cmd)> {
    vec![
        ("save".to_string(), Cmd::Save),
        ("quit".to_string(), Cmd::Quit),
        ("help".to_string(), Cmd::Help),
        ("about".to_string(), Cmd::About),
    ]
}

fn with(overrides: Vec<(&str, Vec<&str>)>) -> Keys {
    let chosen: Vec<(String, Vec<String>)> = overrides
        .into_iter()
        .map(|(name, keys)| {
            (name.to_string(), keys.into_iter().map(|k| k.to_string()).collect())
        })
        .collect();
    Keys::new(&Vec::new(), &chosen, &names())
}

fn every_key_of(n: u8) -> Vec<&'static str> {
    let s = shipped(n);
    let mut all = vec![s.first];
    all.extend(s.second);
    all.extend(s.third);
    all
}

#[test]
fn every_key_textfold_ships_is_a_key() {
    let keys = Keys::default();
    assert!(keys.problems.is_empty(), "{:?}", keys.problems);
}

#[test]
fn nothing_shipped_is_bound_to_two_things() {
    let mut seen: Vec<(Key, Cmd)> = Vec::new();
    for n in 0..SHIPPED {
        let cmd = shipped(n).cmd;
        for text in every_key_of(n) {
            let key = Key::parse(text).expect("parses");
            if let Some((_, other)) = seen.iter().find(|(k, _)| *k == key) {
                panic!("{text} is both {other:?} and {cmd:?}");
            }
            seen.push((key, cmd));
        }
    }
}

#[test]
fn nothing_is_reachable_only_by_a_key_the_desktop_takes() {
    let taken = |key: &Key| {
        key.mods.control
            && key.mods.alt
            && matches!(key.code, Code::Up | Code::Down | Code::Left | Code::Right)
    };
    let keys = Keys::default();
    for n in 0..SHIPPED {
        let cmd = shipped(n).cmd;
        let bound = keys.keys_for(cmd);
        assert!(
            bound.is_empty() || !bound.iter().all(taken),
            "{cmd:?} can only be reached by a key the desktop takes first"
        );
    }
}

#[test]
fn the_key_shown_for_a_command_is_one_that_arrives() {
    let keys = Keys::default();
    assert_eq!(
        keys.shortcut(Cmd::AddCursorAbove).as_deref(),
        Some("Ctrl-Shift-\u{2191}")
    );
    assert_eq!(
        keys.shortcut(Cmd::AddCursorBelow).as_deref(),
        Some("Ctrl-Shift-\u{2193}")
    );
    let press = |code, mods| keys.lookup(Key::from_event(code, mods));
    let ctrl_shift = mods(true, false, true);
    assert_eq!(press(Code::Up, ctrl_shift), Some(Cmd::AddCursorAbove));
    assert_eq!(press(Code::Down, ctrl_shift), Some(Cmd::AddCursorBelow));
    assert_eq!(press(Code::Up, CONTROL), Some(Cmd::MoveParaUp));
    let ctrl_alt = mods(true, true, false);
    assert_eq!(press(Code::Up, ctrl_alt), Some(Cmd::AddCursorAbove));
    assert_eq!(press(Code::Down, ctrl_alt), Some(Cmd::AddCursorBelow));
}

#[test]
fn the_ordinary_keys_all_do_the_ordinary_thing() {
    let keys = Keys::default();
    let press = |code, mods| keys.lookup(Key::from_event(code, mods));
    assert_eq!(press(Code::Char('s'), CONTROL), Some(Cmd::Save));
    assert_eq!(press(Code::Char('z'), CONTROL), Some(Cmd::Undo));
    assert_eq!(press(Code::Left, SHIFT), Some(Cmd::ExtendLeft));
    assert_eq!(press(Code::Esc, NONE), Some(Cmd::Escape));
}

#[test]
fn shift_on_a_letter_is_the_letter_however_the_terminal_says_it() {
    let plain = Key::from_event(Code::Char('P'), CONTROL);
    let extended = Key::from_event(Code::Char('P'), mods(true, false, true));
    let third = Key::from_event(Code::Char('p'), mods(true, false, true));
    assert_eq!(plain, extended);
    assert_eq!(plain, third);
    assert_eq!(Key::parse("ctrl-shift-p"), Some(plain));
}

#[test]
fn shift_tab_and_backtab_are_one_key() {
    let backtab = Key::from_event(Code::BackTab, NONE);
    let shift_tab = Key::from_event(Code::Tab, SHIFT);
    assert_eq!(backtab, shift_tab);
    assert_eq!(Keys::default().lookup(backtab), Some(Cmd::Unindent));
}

#[test]
fn a_capital_letter_is_written_as_the_shift_it_is() {
    assert_eq!(Key::parse("ctrl-shift-k").unwrap().show(), "Ctrl-Shift-k");
    assert_eq!(Key::parse("ctrl-k").unwrap().show(), "Ctrl-k");
    assert_eq!(Key::parse("shift-left").unwrap().show(), "Shift-\u{2190}");
}

#[test]
fn keys_are_written_the_way_people_write_them() {
    assert!(Key::parse("ctrl-s").is_some());
    assert!(Key::parse("alt-shift-up").is_some());
    assert!(Key::parse("f12").is_some());
    assert_eq!(Key::parse("space").and_then(|k| k.as_typed()), Some(' '));
    assert_eq!(
        Key::parse("ctrl--"),
        Some(Key { code: Code::Char('-'), mods: CONTROL })
    );
    assert_eq!(Key::parse("hyper-s"), None);
    assert_eq!(Key::parse(""), None);
}

#[test]
fn rebinding_a_command_takes_back_the_key_it_had() {
    let keys = with(vec![("save", vec!["f4"])]);
    assert_eq!(keys.lookup(Key::parse("f4").unwrap()), Some(Cmd::Save));
    assert_eq!(keys.lookup(Key::parse("ctrl-s").unwrap()), None);
}

#[test]
fn an_empty_list_unbinds() {
    let keys = with(vec![("quit", vec![])]);
    assert_eq!(keys.lookup(Key::parse("ctrl-q").unwrap()), None);
    assert_eq!(keys.lookup(Key::parse("ctrl-s").unwrap()), Some(Cmd::Save));
}

#[test]
fn a_command_that_does_not_exist_is_worth_saying_so() {
    let keys = with(vec![("frobnicate", vec!["f9"])]);
    assert_eq!(keys.problems.len(), 1);
    assert!(keys.problems[0].contains("frobnicate"));
}

#[test]
fn a_typing_key_is_told_from_a_command_key() {
    assert_eq!(Key::parse("a").and_then(|k| k.as_typed()), Some('a'));
    assert_eq!(Key::parse("shift-a").and_then(|k| k.as_typed()), Some('A'));
    assert_eq!(Key::parse("ctrl-a").and_then(|k| k.as_typed()), None);
    assert_eq!(Key::parse("alt-a").and_then(|k| k.as_typed()), None);
}

#[test]
fn a_key_is_spelled_the_way_a_settings_file_spells_it() {
    for text in ["ctrl-s", "alt-shift-up", "f12", "enter", "r", "space", "ctrl-."] {
        let key = Key::parse(text).unwrap_or_else(|| panic!("{text} should parse"));
        assert_eq!(key.spelled(), text);
        assert_eq!(Key::parse(&key.spelled()), Some(key), "{text} did not read back");
    }
    assert_eq!(Key::parse("K").map(|k| k.spelled()), Some("shift-k".into()));
}

#[test]
fn a_plugin_may_have_the_keys_nobody_else_wanted() {
    let mut keys = Keys::built_in();
    let taken = Key::parse("ctrl-s").expect("a key");
    let spare = Key::parse("ctrl-f6").expect("a key");
    let was = keys.lookup(taken);
    assert!(was.is_some(), "ctrl-s should already do something");

    keys.suggest(taken, Cmd::About);
    assert_eq!(
        keys.lookup(taken),
        was,
        "a plugin took a key that was already doing something"
    );

    keys.suggest(spare, Cmd::About);
    assert_eq!(keys.lookup(spare), Some(Cmd::About));
}

#[test]
fn what_you_bind_yourself_beats_what_a_plugin_suggested() {
    let mut keys = Keys::built_in();
    let spare = Key::parse("ctrl-f6").expect("a key");
    keys.suggest(spare, Cmd::About);
    keys.bind(spare, Cmd::Help);
    assert_eq!(keys.lookup(spare), Some(Cmd::Help));
}

#[test]
fn the_minus_key_reads_back_with_and_without_what_is_held_down() {
    for held in [NONE, CONTROL, mods(false, true, false), mods(true, true, false)] {
        let key = Key { code: Code::Char('-'), mods: held };
        assert_eq!(Key::parse(&key.spelled()), Some(key));
    }
}

#[test]
fn letters_beyond_ascii_go_through_the_same_doors() {
    let key = Key::from_event(Code::Char('é'), mods(true, false, true));
    assert_eq!(key.code, Code::Char('É'));
    assert_eq!(key.spelled(), "ctrl-shift-é");
    assert_eq!(Key::parse(&key.spelled()), Some(key));
    assert_eq!(Key::parse("ÉÉ"), None);
}

#[test]
fn a_function_key_has_a_number_from_one_to_twenty_four() {
    assert_eq!(Key::parse("F24").map(|k| k.code), Some(Code::F(24)));
    assert_eq!(Key::parse("f0"), None);
    assert_eq!(Key::parse("f25"), None);
    assert_eq!(Key::parse("f"), Some(Key { code: Code::Char('f'), mods: NONE }));
}

#[test]
fn a_key_without_a_spelling_of_its_own_is_called_by_its_name() {
    let menu = Key { code: Code::Menu, mods: NONE };
    assert_eq!(menu.show(), "Menu");
    assert_eq!(Key::parse(&menu.spelled()), Some(menu));
    let play = Key { code: Code::Media(Media::PlayPause), mods: NONE };
    assert_eq!(play.show(), "Media(PlayPause)");
    assert_eq!(play.spelled(), "media(playpause)");
    let held = Key { code: Code::Modifier(Modifier::IsoLevel3Shift), mods: NONE };
    assert_eq!(held.show(), "Modifier(IsoLevel3Shift)");
}

#[test]
fn a_plugin_that_asks_for_nonsense_is_told_so_by_name() {
    let wishes = vec![Wishes {
        id: "mine".to_string(),
        keys: vec![
            ("save".to_string(), vec!["hyper-x".to_string(), "ctrl-f7".to_string()]),
            ("nothing".to_string(), vec!["f9".to_string()]),
        ],
    }];
    let keys = Keys::new(&wishes, &Vec::new(), &names());
    assert_eq!(
        keys.problems,
        [
            "mine: \"hyper-x\" is not a key",
            "mine: there is no command called \"nothing\""
        ]
    );
    assert_eq!(keys.lookup(Key::parse("ctrl-f7").unwrap()), Some(Cmd::Save));
}

#[test]
fn what_somebody_wrote_is_quoted_with_its_escapes() {
    let keys = with(vec![("save", vec!["tab\tkey\""])]);
    assert_eq!(keys.problems, ["\"tab\\tkey\\\"\" is not a key"]);
}

#[test]
fn a_command_nobody_mentions_keeps_what_it_came_with() {
    let keys = with(vec![("quit", vec![])]);
    let save = Key::parse("ctrl-s").expect("a key");
    assert_eq!(keys.lookup(save), Some(Cmd::Save));
    assert_eq!(keys.keys_for(Cmd::Save), Keys::built_in().keys_for(Cmd::Save));
}
