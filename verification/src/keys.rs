//! Keystrokes, and which of them does what.
use vstd::prelude::*;

use crate::chars::{
    all_ascii, ascii, chars_of, is_upper, large, lower_of, lowercase, lowercase_char, lowercased,
    same, small, upper_of, uppercase_char, whitespace,
};
use crate::numbers::{decimal, law_a_number_reads_back, parse_number, read_number, show_number};
use crate::split::{cut, cut_at, deep, lemma_cut_some};
use crate::strings::{piece, text_of, trim, trimmed};

verus! {

// ---------------------------------------------------------------------------
// A key
// ---------------------------------------------------------------------------

/// A key for playing things.
#[derive(Clone, Copy, PartialEq, Eq, Structural, Hash, Debug)]
pub enum Media {
    Play,
    Pause,
    PlayPause,
    Reverse,
    Stop,
    FastForward,
    Rewind,
    TrackNext,
    TrackPrevious,
    Record,
    LowerVolume,
    RaiseVolume,
    MuteVolume,
}

/// A key that is held down with others.
#[derive(Clone, Copy, PartialEq, Eq, Structural, Hash, Debug)]
pub enum Modifier {
    LeftShift,
    LeftControl,
    LeftAlt,
    LeftSuper,
    LeftHyper,
    LeftMeta,
    RightShift,
    RightControl,
    RightAlt,
    RightSuper,
    RightHyper,
    RightMeta,
    IsoLevel3Shift,
    IsoLevel5Shift,
}

/// Which key of a keyboard.
#[derive(Clone, Copy, PartialEq, Eq, Structural, Hash, Debug)]
pub enum Code {
    Enter,
    Tab,
    Esc,
    Backspace,
    Delete,
    Insert,
    Left,
    Right,
    Up,
    Down,
    Home,
    End,
    PageUp,
    PageDown,
    F(u8),
    Char(char),
    BackTab,
    Null,
    CapsLock,
    ScrollLock,
    NumLock,
    PrintScreen,
    Pause,
    Menu,
    KeypadBegin,
    Media(Media),
    Modifier(Modifier),
}

/// What is held down with a key.
#[derive(Clone, Copy, PartialEq, Eq, Structural, Hash, Debug)]
pub struct Mods {
    pub control: bool,
    pub alt: bool,
    pub shift: bool,
}

/// A keystroke, with what is held down settled into one spelling, so that two
/// ways of describing one key are one key.
#[derive(Clone, Copy, PartialEq, Eq, Structural, Hash, Debug)]
pub struct Key {
    pub code: Code,
    pub mods: Mods,
}

/// A character as shift makes it: the first of what it is as a large letter.
pub open spec fn shifted(c: char) -> char {
    let up = upper_of(c);
    if up.len() > 0 { up[0] } else { c }
}

/// A keystroke in the one spelling. Shift on a character is in the character,
/// and a tab backwards is a tab with shift.
pub open spec fn settled(code: Code, mods: Mods) -> Key {
    match code {
        Code::Char(c) => Key {
            code: Code::Char(if mods.shift { shifted(c) } else { c }),
            mods: Mods { shift: false, ..mods },
        },
        Code::BackTab => Key { code: Code::Tab, mods: Mods { shift: true, ..mods } },
        _ => Key { code, mods },
    }
}

/// What a media key is called.
pub open spec fn media_name(m: Media) -> Seq<char> {
    match m {
        Media::Play => "Play"@,
        Media::Pause => "Pause"@,
        Media::PlayPause => "PlayPause"@,
        Media::Reverse => "Reverse"@,
        Media::Stop => "Stop"@,
        Media::FastForward => "FastForward"@,
        Media::Rewind => "Rewind"@,
        Media::TrackNext => "TrackNext"@,
        Media::TrackPrevious => "TrackPrevious"@,
        Media::Record => "Record"@,
        Media::LowerVolume => "LowerVolume"@,
        Media::RaiseVolume => "RaiseVolume"@,
        Media::MuteVolume => "MuteVolume"@,
    }
}

/// What a key that is held down with others is called.
pub open spec fn modifier_name(m: Modifier) -> Seq<char> {
    match m {
        Modifier::LeftShift => "LeftShift"@,
        Modifier::LeftControl => "LeftControl"@,
        Modifier::LeftAlt => "LeftAlt"@,
        Modifier::LeftSuper => "LeftSuper"@,
        Modifier::LeftHyper => "LeftHyper"@,
        Modifier::LeftMeta => "LeftMeta"@,
        Modifier::RightShift => "RightShift"@,
        Modifier::RightControl => "RightControl"@,
        Modifier::RightAlt => "RightAlt"@,
        Modifier::RightSuper => "RightSuper"@,
        Modifier::RightHyper => "RightHyper"@,
        Modifier::RightMeta => "RightMeta"@,
        Modifier::IsoLevel3Shift => "IsoLevel3Shift"@,
        Modifier::IsoLevel5Shift => "IsoLevel5Shift"@,
    }
}

/// What a key is called that has no spelling of its own.
pub open spec fn plain_name(code: Code) -> Seq<char> {
    match code {
        Code::BackTab => "BackTab"@,
        Code::Null => "Null"@,
        Code::CapsLock => "CapsLock"@,
        Code::ScrollLock => "ScrollLock"@,
        Code::NumLock => "NumLock"@,
        Code::PrintScreen => "PrintScreen"@,
        Code::Pause => "Pause"@,
        Code::Menu => "Menu"@,
        Code::KeypadBegin => "KeypadBegin"@,
        Code::Media(m) => "Media("@ + media_name(m) + ")"@,
        Code::Modifier(m) => "Modifier("@ + modifier_name(m) + ")"@,
        _ => ""@,
    }
}

/// How a key is written for a person to read.
pub open spec fn shown_code(code: Code) -> Seq<char> {
    match code {
        Code::Char(c) => if c == ' ' { "Space"@ } else { lower_of(c) },
        Code::Enter => "Enter"@,
        Code::Tab => "Tab"@,
        Code::Esc => "Esc"@,
        Code::Backspace => "Backspace"@,
        Code::Delete => "Delete"@,
        Code::Insert => "Insert"@,
        Code::Left => "←"@,
        Code::Right => "→"@,
        Code::Up => "↑"@,
        Code::Down => "↓"@,
        Code::Home => "Home"@,
        Code::End => "End"@,
        Code::PageUp => "PgUp"@,
        Code::PageDown => "PgDn"@,
        Code::F(n) => "F"@ + decimal(n as nat),
        other => plain_name(other),
    }
}

/// How a key is written in a settings file.
pub open spec fn spelled_code(code: Code) -> Seq<char> {
    match code {
        Code::Char(c) => if c == ' ' { "space"@ } else { lower_of(c) },
        Code::Enter => "enter"@,
        Code::Tab => "tab"@,
        Code::Esc => "esc"@,
        Code::Backspace => "backspace"@,
        Code::Delete => "delete"@,
        Code::Insert => "insert"@,
        Code::Left => "left"@,
        Code::Right => "right"@,
        Code::Up => "up"@,
        Code::Down => "down"@,
        Code::Home => "home"@,
        Code::End => "end"@,
        Code::PageUp => "pageup"@,
        Code::PageDown => "pagedown"@,
        Code::F(n) => "f"@ + decimal(n as nat),
        other => lowercased(plain_name(other)),
    }
}

/// Whether shift is held down, or is in the letter.
pub open spec fn has_shift(k: Key) -> bool {
    k.mods.shift || match k.code {
        Code::Char(c) => is_upper(c),
        _ => false,
    }
}

/// A text where something holds, and nothing where it does not.
pub open spec fn when(yes: bool, s: Seq<char>) -> Seq<char> {
    if yes { s } else { Seq::empty() }
}

/// How a keystroke is written for a person to read.
pub open spec fn shown(k: Key) -> Seq<char> {
    when(k.mods.control, "Ctrl-"@) + when(k.mods.alt, "Alt-"@) + when(has_shift(k), "Shift-"@)
        + shown_code(k.code)
}

/// How a keystroke is written in a settings file.
pub open spec fn spelling(k: Key) -> Seq<char> {
    when(k.mods.control, "ctrl-"@) + when(k.mods.alt, "alt-"@) + when(has_shift(k), "shift-"@)
        + spelled_code(k.code)
}

/// What is held down, with what one more word names. None where it names
/// nothing.
pub open spec fn with_mod(mods: Mods, word: Seq<char>) -> Option<Mods> {
    let low = lowercased(word);
    if low == "ctrl"@ || low == "control"@ || low == "c"@ {
        Some(Mods { control: true, ..mods })
    } else if low == "alt"@ || low == "meta"@ || low == "opt"@ || low == "option"@ || low == "a"@
        || low == "m"@ {
        Some(Mods { alt: true, ..mods })
    } else if low == "shift"@ || low == "s"@ {
        Some(Mods { shift: true, ..mods })
    } else {
        None
    }
}

/// Nothing held down.
pub open spec fn no_mods() -> Mods {
    Mods { control: false, alt: false, shift: false }
}

/// What the first `n` words name as held down.
pub open spec fn mods_named(words: Seq<Seq<char>>, n: int) -> Option<Mods>
    decreases n,
{
    if n <= 0 {
        Some(no_mods())
    } else {
        match mods_named(words, n - 1) {
            Some(mods) => with_mod(mods, words[n - 1]),
            None => None,
        }
    }
}

/// The number of a function key, where a text in small letters names one.
pub open spec fn function_number(low: Seq<char>) -> Option<u8> {
    if low.len() > 0 && low[0] == 'f' {
        match read_number(low.skip(1), 255) {
            Some(n) => if 1 <= n <= 24 { Some(n as u8) } else { None },
            None => None,
        }
    } else {
        None
    }
}

/// The key that a word names, in large or small letters, or that it is.
pub open spec fn code_named(name: Seq<char>) -> Option<Code> {
    let low = lowercased(name);
    if low == "space"@ {
        Some(Code::Char(' '))
    } else if low == "enter"@ || low == "return"@ || low == "cr"@ {
        Some(Code::Enter)
    } else if low == "tab"@ {
        Some(Code::Tab)
    } else if low == "esc"@ || low == "escape"@ {
        Some(Code::Esc)
    } else if low == "backspace"@ || low == "bs"@ {
        Some(Code::Backspace)
    } else if low == "delete"@ || low == "del"@ {
        Some(Code::Delete)
    } else if low == "insert"@ || low == "ins"@ {
        Some(Code::Insert)
    } else if low == "left"@ {
        Some(Code::Left)
    } else if low == "right"@ {
        Some(Code::Right)
    } else if low == "up"@ {
        Some(Code::Up)
    } else if low == "down"@ {
        Some(Code::Down)
    } else if low == "home"@ {
        Some(Code::Home)
    } else if low == "end"@ {
        Some(Code::End)
    } else if low == "pageup"@ || low == "pgup"@ {
        Some(Code::PageUp)
    } else if low == "pagedown"@ || low == "pgdn"@ {
        Some(Code::PageDown)
    } else if low == "menu"@ || low == "apps"@ {
        Some(Code::Menu)
    } else {
        match function_number(low) {
            Some(n) => Some(Code::F(n)),
            None => if name.len() == 1 { Some(Code::Char(name[0])) } else { None },
        }
    }
}

/// The keystroke that a text writes: words for what is held down and the key,
/// with a dash between each two. The key may be a dash itself.
pub open spec fn keystroke(text: Seq<char>) -> Option<Key> {
    let t = trimmed(text);
    let pieces = cut(t, '-');
    let dash = pieces.last().len() == 0 && pieces.len() > 1;
    let name = if dash { seq!['-'] } else { pieces.last() };
    let words = if dash { pieces.len() - 2 } else { pieces.len() - 1 };
    if t.len() == 0 {
        None
    } else {
        match (mods_named(pieces, words), code_named(name)) {
            (Some(mods), Some(code)) => Some(settled(code, mods)),
            _ => None,
        }
    }
}

/// The character that a keystroke types, where it types one.
pub open spec fn typed(k: Key) -> Option<char> {
    match k.code {
        Code::Char(c) => if !k.mods.control && !k.mods.alt { Some(c) } else { None },
        _ => None,
    }
}

fn name_of_media(m: Media) -> (s: &'static str)
    ensures
        s@ == media_name(m),
{
    match m {
        Media::Play => "Play",
        Media::Pause => "Pause",
        Media::PlayPause => "PlayPause",
        Media::Reverse => "Reverse",
        Media::Stop => "Stop",
        Media::FastForward => "FastForward",
        Media::Rewind => "Rewind",
        Media::TrackNext => "TrackNext",
        Media::TrackPrevious => "TrackPrevious",
        Media::Record => "Record",
        Media::LowerVolume => "LowerVolume",
        Media::RaiseVolume => "RaiseVolume",
        Media::MuteVolume => "MuteVolume",
    }
}

fn name_of_modifier(m: Modifier) -> (s: &'static str)
    ensures
        s@ == modifier_name(m),
{
    match m {
        Modifier::LeftShift => "LeftShift",
        Modifier::LeftControl => "LeftControl",
        Modifier::LeftAlt => "LeftAlt",
        Modifier::LeftSuper => "LeftSuper",
        Modifier::LeftHyper => "LeftHyper",
        Modifier::LeftMeta => "LeftMeta",
        Modifier::RightShift => "RightShift",
        Modifier::RightControl => "RightControl",
        Modifier::RightAlt => "RightAlt",
        Modifier::RightSuper => "RightSuper",
        Modifier::RightHyper => "RightHyper",
        Modifier::RightMeta => "RightMeta",
        Modifier::IsoLevel3Shift => "IsoLevel3Shift",
        Modifier::IsoLevel5Shift => "IsoLevel5Shift",
    }
}

fn name_of(code: Code) -> (s: String)
    ensures
        s@ == plain_name(code),
{
    match code {
        Code::BackTab => "BackTab".to_owned(),
        Code::Null => "Null".to_owned(),
        Code::CapsLock => "CapsLock".to_owned(),
        Code::ScrollLock => "ScrollLock".to_owned(),
        Code::NumLock => "NumLock".to_owned(),
        Code::PrintScreen => "PrintScreen".to_owned(),
        Code::Pause => "Pause".to_owned(),
        Code::Menu => "Menu".to_owned(),
        Code::KeypadBegin => "KeypadBegin".to_owned(),
        Code::Media(m) => {
            let mut s = "Media(".to_owned();
            s.append(name_of_media(m));
            s.append(")");
            s
        },
        Code::Modifier(m) => {
            let mut s = "Modifier(".to_owned();
            s.append(name_of_modifier(m));
            s.append(")");
            s
        },
        _ => "".to_owned(),
    }
}

fn show_code(code: Code) -> (s: String)
    ensures
        s@ == shown_code(code),
{
    match code {
        Code::Char(c) => if c == ' ' {
            "Space".to_owned()
        } else {
            lowercase_char(c)
        },
        Code::Enter => "Enter".to_owned(),
        Code::Tab => "Tab".to_owned(),
        Code::Esc => "Esc".to_owned(),
        Code::Backspace => "Backspace".to_owned(),
        Code::Delete => "Delete".to_owned(),
        Code::Insert => "Insert".to_owned(),
        Code::Left => "←".to_owned(),
        Code::Right => "→".to_owned(),
        Code::Up => "↑".to_owned(),
        Code::Down => "↓".to_owned(),
        Code::Home => "Home".to_owned(),
        Code::End => "End".to_owned(),
        Code::PageUp => "PgUp".to_owned(),
        Code::PageDown => "PgDn".to_owned(),
        Code::F(n) => {
            let mut s = "F".to_owned();
            s.append(show_number(n as u64).as_str());
            s
        },
        other => name_of(other),
    }
}

fn spell_code(code: Code) -> (s: String)
    ensures
        s@ == spelled_code(code),
{
    match code {
        Code::Char(c) => if c == ' ' {
            "space".to_owned()
        } else {
            lowercase_char(c)
        },
        Code::Enter => "enter".to_owned(),
        Code::Tab => "tab".to_owned(),
        Code::Esc => "esc".to_owned(),
        Code::Backspace => "backspace".to_owned(),
        Code::Delete => "delete".to_owned(),
        Code::Insert => "insert".to_owned(),
        Code::Left => "left".to_owned(),
        Code::Right => "right".to_owned(),
        Code::Up => "up".to_owned(),
        Code::Down => "down".to_owned(),
        Code::Home => "home".to_owned(),
        Code::End => "end".to_owned(),
        Code::PageUp => "pageup".to_owned(),
        Code::PageDown => "pagedown".to_owned(),
        Code::F(n) => {
            let mut s = "f".to_owned();
            s.append(show_number(n as u64).as_str());
            s
        },
        other => lowercase(name_of(other).as_str()),
    }
}

fn add_mod(mods: Mods, word: &str) -> (r: Option<Mods>)
    ensures
        r == with_mod(mods, word@),
{
    let low = lowercase(word);
    let l = low.as_str();
    if same(l, "ctrl") || same(l, "control") || same(l, "c") {
        Some(Mods { control: true, ..mods })
    } else if same(l, "alt") || same(l, "meta") || same(l, "opt") || same(l, "option") || same(l, "a")
        || same(l, "m") {
        Some(Mods { alt: true, ..mods })
    } else if same(l, "shift") || same(l, "s") {
        Some(Mods { shift: true, ..mods })
    } else {
        None
    }
}

fn read_function(low: &str) -> (r: Option<u8>)
    ensures
        r == function_number(low@),
{
    let v = chars_of(low);
    if v.len() > 0 && v[0] == 'f' {
        let rest = piece(&v, 1, v.len());
        assert(rest@ =~= v@.skip(1));
        match parse_number(&rest, 255) {
            Some(n) => if 1 <= n && n <= 24 {
                Some(n as u8)
            } else {
                None
            },
            None => None,
        }
    } else {
        None
    }
}

fn read_code(name: &str) -> (r: Option<Code>)
    ensures
        r == code_named(name@),
{
    let low = lowercase(name);
    let l = low.as_str();
    if same(l, "space") {
        Some(Code::Char(' '))
    } else if same(l, "enter") || same(l, "return") || same(l, "cr") {
        Some(Code::Enter)
    } else if same(l, "tab") {
        Some(Code::Tab)
    } else if same(l, "esc") || same(l, "escape") {
        Some(Code::Esc)
    } else if same(l, "backspace") || same(l, "bs") {
        Some(Code::Backspace)
    } else if same(l, "delete") || same(l, "del") {
        Some(Code::Delete)
    } else if same(l, "insert") || same(l, "ins") {
        Some(Code::Insert)
    } else if same(l, "left") {
        Some(Code::Left)
    } else if same(l, "right") {
        Some(Code::Right)
    } else if same(l, "up") {
        Some(Code::Up)
    } else if same(l, "down") {
        Some(Code::Down)
    } else if same(l, "home") {
        Some(Code::Home)
    } else if same(l, "end") {
        Some(Code::End)
    } else if same(l, "pageup") || same(l, "pgup") {
        Some(Code::PageUp)
    } else if same(l, "pagedown") || same(l, "pgdn") {
        Some(Code::PageDown)
    } else if same(l, "menu") || same(l, "apps") {
        Some(Code::Menu)
    } else {
        match read_function(l) {
            Some(n) => Some(Code::F(n)),
            None => {
                let v = chars_of(name);
                if v.len() == 1 {
                    Some(Code::Char(v[0]))
                } else {
                    None
                }
            },
        }
    }
}

impl Key {
    /// A keystroke as it arrived from the terminal, in the one spelling.
    pub fn from_event(code: Code, mods: Mods) -> (k: Key)
        ensures
            k == settled(code, mods),
    {
        match code {
            Code::Char(c) => {
                let letter = if mods.shift {
                    let up = chars_of(uppercase_char(c).as_str());
                    if up.len() > 0 {
                        up[0]
                    } else {
                        c
                    }
                } else {
                    c
                };
                Key { code: Code::Char(letter), mods: Mods { shift: false, ..mods } }
            },
            Code::BackTab => Key { code: Code::Tab, mods: Mods { shift: true, ..mods } },
            other => Key { code: other, mods },
        }
    }

    /// A keystroke from the way it is written in a settings file: `ctrl-s`,
    /// `alt-shift-up`, `f12`, `ctrl-/`, `space`.
    pub fn parse(text: &str) -> (r: Option<Key>)
        ensures
            r == keystroke(text@),
    {
        let t = trim(&chars_of(text));
        if t.len() == 0 {
            return None;
        }
        let pieces = cut_at(&t, '-');
        let ghost ps = cut(t@, '-');
        proof {
            lemma_cut_some(t@, '-');
        }
        assert(ps.len() == pieces@.len());
        let last = pieces.len() - 1;
        assert(ps[last as int] == pieces@[last as int]@);
        let dash = pieces[last].len() == 0 && pieces.len() > 1;
        let words: usize = if dash {
            last - 1
        } else {
            last
        };
        let name: String = if dash {
            let one: Vec<char> = vec!['-'];
            assert(one@ =~= seq!['-']);
            text_of(&one)
        } else {
            text_of(&pieces[last])
        };
        let mut mods = Mods { control: false, alt: false, shift: false };
        let mut n: usize = 0;
        while n < words
            invariant
                n <= words < pieces@.len(),
                ps == deep(pieces@),
                ps == cut(trimmed(text@), '-'),
                words == if ps.last().len() == 0 && ps.len() > 1 {
                    ps.len() - 2
                } else {
                    ps.len() - 1
                },
                mods_named(ps, n as int) == Some(mods),
            decreases words - n,
        {
            assert(ps[n as int] == pieces@[n as int]@);
            match add_mod(mods, text_of(&pieces[n]).as_str()) {
                Some(more) => {
                    mods = more;
                },
                None => {
                    proof {
                        lemma_not_mods(ps, n + 1, words as int);
                    }
                    return None;
                },
            }
            n = n + 1;
        }
        match read_code(name.as_str()) {
            Some(code) => Some(Key::from_event(code, mods)),
            None => None,
        }
    }

    fn prefix(&self, control: &str, alt: &str, shift: &str) -> (s: String)
        ensures
            s@ == when(self.mods.control, control@) + when(self.mods.alt, alt@) + when(
                has_shift(*self),
                shift@,
            ),
    {
        let mut s: String = String::new();
        if self.mods.control {
            s.append(control);
        }
        assert(s@ =~= when(self.mods.control, control@));
        if self.mods.alt {
            s.append(alt);
        }
        assert(s@ =~= when(self.mods.control, control@) + when(self.mods.alt, alt@));
        let letter = match self.code {
            Code::Char(c) => c.is_uppercase(),
            _ => false,
        };
        if self.mods.shift || letter {
            s.append(shift);
        }
        assert(s@ =~= when(self.mods.control, control@) + when(self.mods.alt, alt@) + when(
            has_shift(*self),
            shift@,
        ));
        s
    }

    /// How to write this key for a person to read.
    pub fn show(&self) -> (s: String)
        ensures
            s@ == shown(*self),
    {
        let mut s = self.prefix("Ctrl-", "Alt-", "Shift-");
        s.append(show_code(self.code).as_str());
        s
    }

    /// How this keystroke is written in a settings file.
    pub fn spelled(&self) -> (s: String)
        ensures
            s@ == spelling(*self),
    {
        let mut s = self.prefix("ctrl-", "alt-", "shift-");
        s.append(spell_code(self.code).as_str());
        s
    }

    /// The character that this keystroke would type, if it would type one.
    pub fn as_typed(&self) -> (r: Option<char>)
        ensures
            r == typed(*self),
    {
        match self.code {
            Code::Char(c) => if !self.mods.control && !self.mods.alt {
                Some(c)
            } else {
                None
            },
            _ => None,
        }
    }
}

proof fn lemma_not_mods(words: Seq<Seq<char>>, n: int, m: int)
    requires
        n <= m,
        mods_named(words, n) is None,
    ensures
        mods_named(words, m) is None,
    decreases m - n,
{
    if n < m {
        lemma_not_mods(words, n, m - 1);
    }
}

// ---------------------------------------------------------------------------
// What holds of keys
// ---------------------------------------------------------------------------

/// A keystroke in the one spelling stays as it is.
pub proof fn law_settling_settles(code: Code, mods: Mods)
    ensures
        settled(settled(code, mods).code, settled(code, mods).mods) == settled(code, mods),
{
}

/// A terminal that sends a large letter and one that sends the small one with
/// shift held down mean one key, and so do one that sends a tab backwards and
/// one that sends a tab with shift.
pub proof fn law_two_ways_of_one_key(c: char, mods: Mods)
    ensures
        settled(Code::Char(c), Mods { shift: true, ..mods }) == settled(
            Code::Char(shifted(c)),
            Mods { shift: false, ..mods },
        ),
        settled(Code::BackTab, mods) == settled(Code::Tab, Mods { shift: true, ..mods }),
{
}

/// Whether a keystroke is in the one spelling, on a key that a settings file
/// can name. A character has to come back from its small letter.
pub open spec fn writable(k: Key) -> bool {
    match k.code {
        Code::Char(c) => !k.mods.shift && (c == ' ' || ({
            let d = lower_of(c);
            &&& d.len() == 1
            &&& !whitespace(d[0])
            &&& lowercased(d) == d
            &&& c == if is_upper(c) { shifted(d[0]) } else { d[0] }
        })),
        Code::F(n) => 1 <= n <= 24,
        Code::BackTab | Code::Null | Code::CapsLock | Code::ScrollLock | Code::NumLock => false,
        Code::PrintScreen | Code::Pause | Code::KeypadBegin => false,
        Code::Media(_) | Code::Modifier(_) => false,
        _ => true,
    }
}

/// Every key that types a character of ASCII can be written.
pub proof fn law_ascii_keys_are_writable(c: char, mods: Mods)
    requires
        0x20 <= (c as u32) <= 0x7e,
        !mods.shift,
    ensures
        writable(Key { code: Code::Char(c), mods }),
{
    let d = lower_of(c);
    if large(c) {
        assert(d[0] as u32 == (c as u32) + 32);
        assert(small(d[0]));
        assert(((d[0] as u32) - 32) as char == c);
    }
    assert(lowercased(d) =~= d);
}

proof fn lemma_low(s: Seq<char>)
    requires
        forall|i: int| 0 <= i < s.len() ==> ascii(#[trigger] s[i]) && !large(s[i]),
    ensures
        lowercased(s) == s,
{
    assert(all_ascii(s));
    assert(lowercased(s) =~= s);
}

/// Whether a text can stand between the dashes of a keystroke.
spec fn solid(s: Seq<char>) -> bool {
    &&& s.len() > 0
    &&& !whitespace(s[0])
    &&& !whitespace(s.last())
    &&& forall|i: int| 0 <= i < s.len() ==> s[i] != '-'
}

/// A key with a name of its own is named by it.
proof fn lemma_named(code: Code)
    requires
        writable(Key { code, mods: no_mods() }),
        !(code is Char) || code == Code::Char(' '),
        !(code is F),
    ensures
        code_named(spelled_code(code)) == Some(code),
        solid(spelled_code(code)),
{
    reveal_strlit("space");
    reveal_strlit("enter");
    reveal_strlit("return");
    reveal_strlit("cr");
    reveal_strlit("tab");
    reveal_strlit("esc");
    reveal_strlit("escape");
    reveal_strlit("backspace");
    reveal_strlit("bs");
    reveal_strlit("delete");
    reveal_strlit("del");
    reveal_strlit("insert");
    reveal_strlit("ins");
    reveal_strlit("left");
    reveal_strlit("right");
    reveal_strlit("up");
    reveal_strlit("down");
    reveal_strlit("home");
    reveal_strlit("end");
    reveal_strlit("pageup");
    reveal_strlit("pgup");
    reveal_strlit("pagedown");
    reveal_strlit("pgdn");
    reveal_strlit("menu");
    reveal_strlit("apps");
    reveal_strlit("Menu");
    assert("space"@.len() == 5);
    assert("enter"@.len() == 5);
    assert("return"@.len() == 6);
    assert("cr"@.len() == 2);
    assert("tab"@.len() == 3);
    assert("esc"@.len() == 3);
    assert("escape"@.len() == 6);
    assert("backspace"@.len() == 9);
    assert("bs"@.len() == 2);
    assert("delete"@.len() == 6);
    assert("del"@.len() == 3);
    assert("insert"@.len() == 6);
    assert("ins"@.len() == 3);
    assert("left"@.len() == 4);
    assert("right"@.len() == 5);
    assert("up"@.len() == 2);
    assert("down"@.len() == 4);
    assert("home"@.len() == 4);
    assert("end"@.len() == 3);
    assert("pageup"@.len() == 6);
    assert("pgup"@.len() == 4);
    assert("pagedown"@.len() == 8);
    assert("pgdn"@.len() == 4);
    assert("menu"@.len() == 4);
    assert("apps"@.len() == 4);
    assert("space"@[0] == 's' && "space"@[1] == 'p' && "space"@[2] == 'a' && "space"@[3] == 'c' && "space"@[4] == 'e');
    assert("enter"@[0] == 'e' && "enter"@[1] == 'n' && "enter"@[2] == 't' && "enter"@[3] == 'e' && "enter"@[4] == 'r');
    assert("return"@[0] == 'r' && "return"@[1] == 'e' && "return"@[2] == 't' && "return"@[3] == 'u' && "return"@[4] == 'r' && "return"@[5] == 'n');
    assert("cr"@[0] == 'c' && "cr"@[1] == 'r');
    assert("tab"@[0] == 't' && "tab"@[1] == 'a' && "tab"@[2] == 'b');
    assert("esc"@[0] == 'e' && "esc"@[1] == 's' && "esc"@[2] == 'c');
    assert("escape"@[0] == 'e' && "escape"@[1] == 's' && "escape"@[2] == 'c' && "escape"@[3] == 'a' && "escape"@[4] == 'p' && "escape"@[5] == 'e');
    assert("backspace"@[0] == 'b' && "backspace"@[1] == 'a' && "backspace"@[2] == 'c' && "backspace"@[3] == 'k' && "backspace"@[4] == 's' && "backspace"@[5] == 'p' && "backspace"@[6] == 'a' && "backspace"@[7] == 'c' && "backspace"@[8] == 'e');
    assert("bs"@[0] == 'b' && "bs"@[1] == 's');
    assert("delete"@[0] == 'd' && "delete"@[1] == 'e' && "delete"@[2] == 'l' && "delete"@[3] == 'e' && "delete"@[4] == 't' && "delete"@[5] == 'e');
    assert("del"@[0] == 'd' && "del"@[1] == 'e' && "del"@[2] == 'l');
    assert("insert"@[0] == 'i' && "insert"@[1] == 'n' && "insert"@[2] == 's' && "insert"@[3] == 'e' && "insert"@[4] == 'r' && "insert"@[5] == 't');
    assert("ins"@[0] == 'i' && "ins"@[1] == 'n' && "ins"@[2] == 's');
    assert("left"@[0] == 'l' && "left"@[1] == 'e' && "left"@[2] == 'f' && "left"@[3] == 't');
    assert("right"@[0] == 'r' && "right"@[1] == 'i' && "right"@[2] == 'g' && "right"@[3] == 'h' && "right"@[4] == 't');
    assert("up"@[0] == 'u' && "up"@[1] == 'p');
    assert("down"@[0] == 'd' && "down"@[1] == 'o' && "down"@[2] == 'w' && "down"@[3] == 'n');
    assert("home"@[0] == 'h' && "home"@[1] == 'o' && "home"@[2] == 'm' && "home"@[3] == 'e');
    assert("end"@[0] == 'e' && "end"@[1] == 'n' && "end"@[2] == 'd');
    assert("pageup"@[0] == 'p' && "pageup"@[1] == 'a' && "pageup"@[2] == 'g' && "pageup"@[3] == 'e' && "pageup"@[4] == 'u' && "pageup"@[5] == 'p');
    assert("pgup"@[0] == 'p' && "pgup"@[1] == 'g' && "pgup"@[2] == 'u' && "pgup"@[3] == 'p');
    assert("pagedown"@[0] == 'p' && "pagedown"@[1] == 'a' && "pagedown"@[2] == 'g' && "pagedown"@[3] == 'e' && "pagedown"@[4] == 'd' && "pagedown"@[5] == 'o' && "pagedown"@[6] == 'w' && "pagedown"@[7] == 'n');
    assert("pgdn"@[0] == 'p' && "pgdn"@[1] == 'g' && "pgdn"@[2] == 'd' && "pgdn"@[3] == 'n');
    assert("menu"@[0] == 'm' && "menu"@[1] == 'e' && "menu"@[2] == 'n' && "menu"@[3] == 'u');
    assert("apps"@[0] == 'a' && "apps"@[1] == 'p' && "apps"@[2] == 'p' && "apps"@[3] == 's');
    assert(lowercased("Menu"@) =~= "menu"@);
    let name = spelled_code(code);
    match code {
        Code::Char(_) => {
            assert(name == "space"@);
            lemma_low(name);
        },
        Code::Enter => {
            assert(name == "enter"@);
            lemma_low(name);
        },
        Code::Tab => {
            assert(name == "tab"@);
            lemma_low(name);
        },
        Code::Esc => {
            assert(name == "esc"@);
            lemma_low(name);
        },
        Code::Backspace => {
            assert(name == "backspace"@);
            lemma_low(name);
        },
        Code::Delete => {
            assert(name == "delete"@);
            lemma_low(name);
        },
        Code::Insert => {
            assert(name == "insert"@);
            lemma_low(name);
        },
        Code::Left => {
            assert(name == "left"@);
            lemma_low(name);
        },
        Code::Right => {
            assert(name == "right"@);
            lemma_low(name);
        },
        Code::Up => {
            assert(name == "up"@);
            lemma_low(name);
        },
        Code::Down => {
            assert(name == "down"@);
            lemma_low(name);
        },
        Code::Home => {
            assert(name == "home"@);
            lemma_low(name);
        },
        Code::End => {
            assert(name == "end"@);
            lemma_low(name);
        },
        Code::PageUp => {
            assert(name == "pageup"@);
            lemma_low(name);
        },
        Code::PageDown => {
            assert(name == "pagedown"@);
            lemma_low(name);
        },
        _ => {
            assert(name == "menu"@);
            lemma_low(name);
        },
    }
}

proof fn lemma_digits(n: nat)
    ensures
        decimal(n).len() > 0,
        forall|i: int| 0 <= i < decimal(n).len() ==> 0x30 <= (#[trigger] decimal(n)[i] as u32) <= 0x39,
    decreases n,
{
    if n >= 10 {
        lemma_digits(n / 10);
    }
}

/// A function key is named by its number.
proof fn lemma_function(n: u8)
    requires
        1 <= n <= 24,
    ensures
        code_named(spelled_code(Code::F(n))) == Some(Code::F(n)),
        solid(spelled_code(Code::F(n))),
{
    let name = spelled_code(Code::F(n));
    reveal_strlit("f");
    lemma_digits(n as nat);
    assert(name[0] == 'f');
    assert(name.skip(1) =~= decimal(n as nat));
    assert forall|i: int| 0 <= i < name.len() implies ascii(#[trigger] name[i]) && !large(name[i])
        && name[i] != '-' && !whitespace(name[i]) by {
        if i > 0 {
            assert(name[i] == decimal(n as nat)[i - 1]);
        }
    }
    lemma_low(name);
    law_a_number_reads_back(n as nat, 255);
    reveal_strlit("space");
    reveal_strlit("enter");
    reveal_strlit("return");
    reveal_strlit("cr");
    reveal_strlit("tab");
    reveal_strlit("esc");
    reveal_strlit("escape");
    reveal_strlit("backspace");
    reveal_strlit("bs");
    reveal_strlit("delete");
    reveal_strlit("del");
    reveal_strlit("insert");
    reveal_strlit("ins");
    reveal_strlit("left");
    reveal_strlit("right");
    reveal_strlit("up");
    reveal_strlit("down");
    reveal_strlit("home");
    reveal_strlit("end");
    reveal_strlit("pageup");
    reveal_strlit("pgup");
    reveal_strlit("pagedown");
    reveal_strlit("pgdn");
    reveal_strlit("menu");
    reveal_strlit("apps");
    assert("space"@[0] == 's');
    assert("enter"@[0] == 'e');
    assert("return"@[0] == 'r');
    assert("cr"@[0] == 'c');
    assert("tab"@[0] == 't');
    assert("esc"@[0] == 'e');
    assert("escape"@[0] == 'e');
    assert("backspace"@[0] == 'b');
    assert("bs"@[0] == 'b');
    assert("delete"@[0] == 'd');
    assert("del"@[0] == 'd');
    assert("insert"@[0] == 'i');
    assert("ins"@[0] == 'i');
    assert("left"@[0] == 'l');
    assert("right"@[0] == 'r');
    assert("up"@[0] == 'u');
    assert("down"@[0] == 'd');
    assert("home"@[0] == 'h');
    assert("end"@[0] == 'e');
    assert("pageup"@[0] == 'p');
    assert("pgup"@[0] == 'p');
    assert("pagedown"@[0] == 'p');
    assert("pgdn"@[0] == 'p');
    assert("menu"@[0] == 'm');
    assert("apps"@[0] == 'a');
}

/// A character that is its own small letter is named by itself.
proof fn lemma_character(d: char)
    requires
        lowercased(seq![d]) == seq![d],
    ensures
        code_named(seq![d]) == Some(Code::Char(d)),
{
    reveal_strlit("space");
    reveal_strlit("enter");
    reveal_strlit("return");
    reveal_strlit("cr");
    reveal_strlit("tab");
    reveal_strlit("esc");
    reveal_strlit("escape");
    reveal_strlit("backspace");
    reveal_strlit("bs");
    reveal_strlit("delete");
    reveal_strlit("del");
    reveal_strlit("insert");
    reveal_strlit("ins");
    reveal_strlit("left");
    reveal_strlit("right");
    reveal_strlit("up");
    reveal_strlit("down");
    reveal_strlit("home");
    reveal_strlit("end");
    reveal_strlit("pageup");
    reveal_strlit("pgup");
    reveal_strlit("pagedown");
    reveal_strlit("pgdn");
    reveal_strlit("menu");
    reveal_strlit("apps");
    assert("space"@.len() == 5);
    assert("enter"@.len() == 5);
    assert("return"@.len() == 6);
    assert("cr"@.len() == 2);
    assert("tab"@.len() == 3);
    assert("esc"@.len() == 3);
    assert("escape"@.len() == 6);
    assert("backspace"@.len() == 9);
    assert("bs"@.len() == 2);
    assert("delete"@.len() == 6);
    assert("del"@.len() == 3);
    assert("insert"@.len() == 6);
    assert("ins"@.len() == 3);
    assert("left"@.len() == 4);
    assert("right"@.len() == 5);
    assert("up"@.len() == 2);
    assert("down"@.len() == 4);
    assert("home"@.len() == 4);
    assert("end"@.len() == 3);
    assert("pageup"@.len() == 6);
    assert("pgup"@.len() == 4);
    assert("pagedown"@.len() == 8);
    assert("pgdn"@.len() == 4);
    assert("menu"@.len() == 4);
    assert("apps"@.len() == 4);
    assert(seq![d].skip(1) =~= Seq::<char>::empty());
    assert(function_number(seq![d]) is None);
}

proof fn lemma_cut_whole(s: Seq<char>, sep: char)
    requires
        forall|i: int| 0 <= i < s.len() ==> s[i] != sep,
    ensures
        cut(s, sep) == seq![s],
    decreases s.len(),
{
    if s.len() > 0 {
        lemma_cut_whole(s.drop_last(), sep);
        assert(s.drop_last().push(s.last()) =~= s);
        assert(cut(s, sep) =~= seq![s]);
    } else {
        assert(s =~= Seq::<char>::empty());
    }
}

proof fn lemma_cut_one_more(a: Seq<char>, b: Seq<char>, sep: char)
    requires
        forall|i: int| 0 <= i < b.len() ==> b[i] != sep,
    ensures
        cut(a.push(sep) + b, sep) == cut(a, sep).push(b),
    decreases b.len(),
{
    let s = a.push(sep) + b;
    if b.len() == 0 {
        assert(s =~= a.push(sep));
        assert(s.drop_last() =~= a);
        assert(b =~= Seq::<char>::empty());
    } else {
        lemma_cut_one_more(a, b.drop_last(), sep);
        assert(s.drop_last() =~= a.push(sep) + b.drop_last());
        assert(b.drop_last().push(b.last()) =~= b);
        assert(cut(s, sep) =~= cut(a, sep).push(b));
    }
}

/// The words for what is held down, one after the other.
spec fn mod_words(control: bool, alt: bool, shift: bool) -> Seq<Seq<char>> {
    (if control { seq!["ctrl"@] } else { Seq::empty() }) + (if alt { seq!["alt"@] } else {
        Seq::empty()
    }) + (if shift { seq!["shift"@] } else { Seq::empty() })
}

proof fn lemma_mod_words(control: bool, alt: bool, shift: bool)
    ensures
        ({
            let words = mod_words(control, alt, shift);
            mods_named(words, words.len() as int) == Some(Mods { control, alt, shift })
        }),
{
    reveal_strlit("ctrl");
    reveal_strlit("control");
    reveal_strlit("c");
    reveal_strlit("alt");
    reveal_strlit("meta");
    reveal_strlit("opt");
    reveal_strlit("option");
    reveal_strlit("a");
    reveal_strlit("m");
    reveal_strlit("shift");
    reveal_strlit("s");
    assert("ctrl"@.len() == 4);
    assert("control"@.len() == 7);
    assert("c"@.len() == 1);
    assert("alt"@.len() == 3);
    assert("meta"@.len() == 4);
    assert("opt"@.len() == 3);
    assert("option"@.len() == 6);
    assert("a"@.len() == 1);
    assert("m"@.len() == 1);
    assert("shift"@.len() == 5);
    assert("s"@.len() == 1);
    assert("ctrl"@[0] == 'c' && "ctrl"@[1] == 't' && "ctrl"@[2] == 'r' && "ctrl"@[3] == 'l');
    assert("control"@[0] == 'c' && "control"@[1] == 'o' && "control"@[2] == 'n' && "control"@[3] == 't' && "control"@[4] == 'r' && "control"@[5] == 'o' && "control"@[6] == 'l');
    assert("c"@[0] == 'c');
    assert("alt"@[0] == 'a' && "alt"@[1] == 'l' && "alt"@[2] == 't');
    assert("meta"@[0] == 'm' && "meta"@[1] == 'e' && "meta"@[2] == 't' && "meta"@[3] == 'a');
    assert("opt"@[0] == 'o' && "opt"@[1] == 'p' && "opt"@[2] == 't');
    assert("option"@[0] == 'o' && "option"@[1] == 'p' && "option"@[2] == 't' && "option"@[3] == 'i' && "option"@[4] == 'o' && "option"@[5] == 'n');
    assert("a"@[0] == 'a');
    assert("m"@[0] == 'm');
    assert("shift"@[0] == 's' && "shift"@[1] == 'h' && "shift"@[2] == 'i' && "shift"@[3] == 'f' && "shift"@[4] == 't');
    assert("s"@[0] == 's');
    lemma_low("ctrl"@);
    lemma_low("alt"@);
    lemma_low("shift"@);
    let words = mod_words(control, alt, shift);
    reveal_with_fuel(mods_named, 5);
    assert(with_mod(no_mods(), "ctrl"@) == Some(Mods { control: true, alt: false, shift: false }));
    if control {
        assert(words[0] == "ctrl"@);
        if alt {
            assert(words[1] == "alt"@);
            if shift {
                assert(words[2] == "shift"@);
            }
        } else if shift {
            assert(words[1] == "shift"@);
        }
    } else if alt {
        assert(words[0] == "alt"@);
        if shift {
            assert(words[1] == "shift"@);
        }
    } else if shift {
        assert(words[0] == "shift"@);
    }
}

proof fn lemma_mods_prefix(a: Seq<Seq<char>>, b: Seq<Seq<char>>, n: int)
    requires
        n <= a.len(),
        n <= b.len(),
        forall|i: int| 0 <= i < n ==> a[i] == b[i],
    ensures
        mods_named(a, n) == mods_named(b, n),
    decreases n,
{
    if n > 0 {
        lemma_mods_prefix(a, b, n - 1);
    }
}

/// The words of a keystroke, with a dash behind each.
spec fn dashed(control: bool, alt: bool, shift: bool) -> Seq<char> {
    when(control, "ctrl-"@) + when(alt, "alt-"@) + when(shift, "shift-"@)
}

proof fn lemma_dashed(control: bool, alt: bool, shift: bool, name: Seq<char>)
    requires
        forall|i: int| 0 <= i < name.len() ==> name[i] != '-',
    ensures
        cut(dashed(control, alt, shift) + name, '-') == mod_words(control, alt, shift).push(name),
{
    reveal_strlit("ctrl-");
    reveal_strlit("alt-");
    reveal_strlit("shift-");
    reveal_strlit("ctrl");
    reveal_strlit("alt");
    reveal_strlit("shift");
    assert("ctrl-"@ =~= "ctrl"@.push('-'));
    assert("alt-"@ =~= "alt"@.push('-'));
    assert("shift-"@ =~= "shift"@.push('-'));
    let front = dashed(control, alt, false);
    if shift {
        lemma_two_words(control, alt, "shift"@);
        lemma_cut_one_more(front + "shift"@, name, '-');
        assert(dashed(control, alt, shift) + name =~= (front + "shift"@).push('-') + name);
        assert(mod_words(control, alt, shift) =~= mod_words(control, alt, false).push("shift"@));
    } else {
        lemma_two_words(control, alt, name);
    }
}

proof fn lemma_two_words(control: bool, alt: bool, name: Seq<char>)
    requires
        forall|i: int| 0 <= i < name.len() ==> name[i] != '-',
    ensures
        cut(dashed(control, alt, false) + name, '-') == mod_words(control, alt, false).push(name),
{
    reveal_strlit("ctrl-");
    reveal_strlit("alt-");
    reveal_strlit("ctrl");
    reveal_strlit("alt");
    assert("ctrl-"@ =~= "ctrl"@.push('-'));
    assert("alt-"@ =~= "alt"@.push('-'));
    let text = dashed(control, alt, false) + name;
    if control && alt {
        lemma_cut_whole("ctrl"@, '-');
        lemma_cut_one_more("ctrl"@, "alt"@, '-');
        lemma_cut_one_more("ctrl"@.push('-') + "alt"@, name, '-');
        assert(text =~= ("ctrl"@.push('-') + "alt"@).push('-') + name);
        assert(cut(text, '-') =~= mod_words(control, alt, false).push(name));
    } else if control {
        lemma_cut_whole("ctrl"@, '-');
        lemma_cut_one_more("ctrl"@, name, '-');
        assert(text =~= "ctrl"@.push('-') + name);
        assert(cut(text, '-') =~= mod_words(control, alt, false).push(name));
    } else if alt {
        lemma_cut_whole("alt"@, '-');
        lemma_cut_one_more("alt"@, name, '-');
        assert(text =~= "alt"@.push('-') + name);
        assert(cut(text, '-') =~= mod_words(control, alt, false).push(name));
    } else {
        lemma_cut_whole(name, '-');
        assert(text =~= name);
        assert(cut(text, '-') =~= mod_words(control, alt, false).push(name));
    }
}

proof fn lemma_not_trimmed(s: Seq<char>)
    requires
        s.len() > 0,
        !whitespace(s[0]),
        !whitespace(s.last()),
    ensures
        trimmed(s) == s,
{
}

proof fn lemma_first_of_dashed(control: bool, alt: bool, shift: bool, name: Seq<char>)
    requires
        name.len() > 0,
        !whitespace(name[0]),
        !whitespace(name.last()),
    ensures
        ({
            let text = dashed(control, alt, shift) + name;
            text.len() > 0 && !whitespace(text[0]) && !whitespace(text.last())
        }),
{
    reveal_strlit("ctrl-");
    reveal_strlit("alt-");
    reveal_strlit("shift-");
    let text = dashed(control, alt, shift) + name;
    assert("ctrl-"@[0] == 'c' && "alt-"@[0] == 'a' && "shift-"@[0] == 's');
    if control {
        assert(text[0] == "ctrl-"@[0]);
    } else if alt {
        assert(text[0] == "alt-"@[0]);
    } else if shift {
        assert(text[0] == "shift-"@[0]);
    } else {
        assert(text[0] == name[0]);
    }
    assert(text.last() == name.last());
}

/// A key reads back from the way it is spelled.
pub proof fn law_a_key_reads_back(k: Key)
    requires
        writable(k),
    ensures
        keystroke(spelling(k)) == Some(k),
{
    let name = spelled_code(k.code);
    let shift = has_shift(k);
    let words = mod_words(k.mods.control, k.mods.alt, shift);
    let text = spelling(k);
    assert(text =~= dashed(k.mods.control, k.mods.alt, shift) + name);
    lemma_mod_words(k.mods.control, k.mods.alt, shift);
    match k.code {
        Code::Char(c) => {
            if c == ' ' {
                lemma_named(k.code);
            } else {
                assert(name =~= seq![lower_of(c)[0]]);
                lemma_character(lower_of(c)[0]);
            }
        },
        Code::F(n) => {
            lemma_function(n);
        },
        _ => {
            assert(writable(Key { code: k.code, mods: no_mods() }));
            lemma_named(k.code);
        },
    }
    lemma_first_of_dashed(k.mods.control, k.mods.alt, shift, name);
    lemma_not_trimmed(text);
    assert(code_named(name) == Some(
        match k.code {
            Code::Char(c) => if c == ' ' { k.code } else { Code::Char(lower_of(c)[0]) },
            _ => k.code,
        },
    ));
    if name == seq!['-'] {
        lemma_dashed(k.mods.control, k.mods.alt, shift, Seq::empty());
        let front = dashed(k.mods.control, k.mods.alt, shift) + Seq::<char>::empty();
        lemma_cut_one_more(front, Seq::empty(), '-');
        assert(text =~= front.push('-') + Seq::<char>::empty());
        let pieces = cut(text, '-');
        assert(pieces =~= words.push(Seq::empty()).push(Seq::empty()));
        lemma_mods_prefix(pieces, words, words.len() as int);
    } else {
        assert(forall|i: int| 0 <= i < name.len() ==> name[i] != '-') by {
            if let Code::Char(c) = k.code {
                if c != ' ' {
                    assert(name =~= seq![lower_of(c)[0]]);
                    if lower_of(c)[0] == '-' {
                        assert(name =~= seq!['-']);
                    }
                }
            }
        }
        lemma_dashed(k.mods.control, k.mods.alt, shift, name);
        let pieces = cut(text, '-');
        assert(pieces =~= words.push(name));
        lemma_mods_prefix(pieces, words, words.len() as int);
    }
}

} // verus!
