//! The keys that the editor comes with.
use vstd::prelude::*;

use crate::cmd::Cmd;

verus! {

/// How many commands come with keys.
pub const SHIPPED: u8 = 120;

/// A command and the keys it comes with: one, and up to two more. The first is
/// the one that is shown.
#[derive(Clone, Copy, Debug)]
pub struct Shipped {
    pub cmd: Cmd,
    pub first: &'static str,
    pub second: Option<&'static str>,
    pub third: Option<&'static str>,
}

/// A command and the keys it comes with.
pub ghost struct Row {
    pub cmd: Cmd,
    pub first: Seq<char>,
    pub second: Option<Seq<char>>,
    pub third: Option<Seq<char>>,
}

/// A text that may not be there.
pub open spec fn maybe_str(s: Option<&'static str>) -> Option<Seq<char>> {
    match s {
        Some(s) => Some(s@),
        None => None,
    }
}

impl View for Shipped {
    type V = Row;

    open spec fn view(&self) -> Row {
        Row {
            cmd: self.cmd,
            first: self.first@,
            second: maybe_str(self.second),
            third: maybe_str(self.third),
        }
    }
}

/// A row with one key.
pub open spec fn one(cmd: Cmd, first: Seq<char>) -> Row {
    Row { cmd, first, second: None, third: None }
}

/// A row with two keys.
pub open spec fn two(cmd: Cmd, first: Seq<char>, second: Seq<char>) -> Row {
    Row { cmd, first, second: Some(second), third: None }
}

/// A row with three keys.
pub open spec fn three(cmd: Cmd, first: Seq<char>, second: Seq<char>, third: Seq<char>) -> Row {
    Row { cmd, first, second: Some(second), third: Some(third) }
}

/// The rows, by number.
pub open spec fn row(n: u8) -> Row {
    match n {
        0 => one(Cmd::Quit, "ctrl-q"@),
        1 => one(Cmd::Save, "ctrl-s"@),
        2 => one(Cmd::SaveAs, "alt-s"@),
        3 => one(Cmd::Close, "ctrl-w"@),
        4 => one(Cmd::New, "ctrl-n"@),
        5 => two(Cmd::Open, "ctrl-p"@, "ctrl-o"@),
        6 => two(Cmd::OpenPath, "alt-e"@, "f4"@),
        7 => one(Cmd::Buffers, "ctrl-b"@),
        8 => one(Cmd::NextBuffer, "alt-."@),
        9 => one(Cmd::PrevBuffer, "alt-,"@),
        10 => one(Cmd::MoveTabLeft, "ctrl-shift-pageup"@),
        11 => one(Cmd::MoveTabRight, "ctrl-shift-pagedown"@),
        12 => two(Cmd::CommandPalette, "alt-x"@, "ctrl-shift-p"@),
        13 => one(Cmd::Help, "f1"@),
        14 => one(Cmd::MoveLeft, "left"@),
        15 => one(Cmd::MoveRight, "right"@),
        16 => one(Cmd::MoveUp, "up"@),
        17 => one(Cmd::MoveDown, "down"@),
        18 => two(Cmd::MoveWordLeft, "ctrl-left"@, "alt-left"@),
        19 => two(Cmd::MoveWordRight, "ctrl-right"@, "alt-right"@),
        20 => one(Cmd::MoveLineStart, "home"@),
        21 => one(Cmd::MoveLineEnd, "end"@),
        22 => one(Cmd::MovePageUp, "pageup"@),
        23 => one(Cmd::MovePageDown, "pagedown"@),
        24 => one(Cmd::MoveDocStart, "ctrl-home"@),
        25 => one(Cmd::MoveDocEnd, "ctrl-end"@),
        26 => one(Cmd::MoveParaUp, "ctrl-up"@),
        27 => one(Cmd::MoveParaDown, "ctrl-down"@),
        28 => one(Cmd::MatchBracket, "alt-b"@),
        29 => one(Cmd::GotoLine, "ctrl-g"@),
        30 => one(Cmd::JumpBack, "alt-["@),
        31 => one(Cmd::JumpForward, "alt-]"@),
        32 => one(Cmd::ToggleBookmark, "alt-shift-m"@),
        33 => one(Cmd::NextBookmark, "alt-shift-n"@),
        34 => one(Cmd::PrevBookmark, "alt-shift-b"@),
        35 => one(Cmd::CentreCursor, "alt-m"@),
        36 => one(Cmd::ExtendLeft, "shift-left"@),
        37 => one(Cmd::ExtendRight, "shift-right"@),
        38 => one(Cmd::ExtendUp, "shift-up"@),
        39 => one(Cmd::ExtendDown, "shift-down"@),
        40 => two(Cmd::ExtendWordLeft, "ctrl-shift-left"@, "alt-shift-left"@),
        41 => two(Cmd::ExtendWordRight, "ctrl-shift-right"@, "alt-shift-right"@),
        42 => one(Cmd::ExtendLineStart, "shift-home"@),
        43 => one(Cmd::ExtendLineEnd, "shift-end"@),
        44 => one(Cmd::ExtendPageUp, "shift-pageup"@),
        45 => one(Cmd::ExtendPageDown, "shift-pagedown"@),
        46 => one(Cmd::ExtendDocStart, "ctrl-shift-home"@),
        47 => one(Cmd::ExtendDocEnd, "ctrl-shift-end"@),
        48 => one(Cmd::SelectAll, "ctrl-a"@),
        49 => one(Cmd::SelectLine, "ctrl-l"@),
        50 => one(Cmd::ExpandSelection, "alt-="@),
        51 => two(Cmd::AddCursorAbove, "ctrl-shift-up"@, "ctrl-alt-up"@),
        52 => two(Cmd::AddCursorBelow, "ctrl-shift-down"@, "ctrl-alt-down"@),
        53 => one(Cmd::AddCursorNextMatch, "ctrl-d"@),
        54 => one(Cmd::SelectAllMatches, "ctrl-shift-l"@),
        55 => one(Cmd::CursorsToLineEnds, "alt-shift-i"@),
        56 => one(Cmd::CollapseCursors, "alt-shift-c"@),
        57 => one(Cmd::InsertNewline, "enter"@),
        58 => one(Cmd::DeleteBackward, "backspace"@),
        59 => one(Cmd::DeleteForward, "delete"@),
        60 => two(Cmd::DeleteWordBackward, "ctrl-backspace"@, "alt-backspace"@),
        61 => two(Cmd::DeleteWordForward, "ctrl-delete"@, "alt-delete"@),
        62 => one(Cmd::DeleteLine, "ctrl-shift-k"@),
        63 => two(Cmd::DuplicateLine, "alt-shift-down"@, "alt-shift-up"@),
        64 => one(Cmd::MoveLineUp, "alt-up"@),
        65 => one(Cmd::MoveLineDown, "alt-down"@),
        66 => one(Cmd::JoinLines, "alt-j"@),
        67 => one(Cmd::RecordMacro, "alt-shift-r"@),
        68 => one(Cmd::PlayMacro, "alt-shift-p"@),
        69 => one(Cmd::Indent, "tab"@),
        70 => one(Cmd::Unindent, "shift-tab"@),
        71 => two(Cmd::ToggleComment, "ctrl-/"@, "ctrl-_"@),
        72 => one(Cmd::Undo, "ctrl-z"@),
        73 => two(Cmd::Redo, "ctrl-y"@, "ctrl-shift-z"@),
        74 => one(Cmd::Copy, "ctrl-c"@),
        75 => one(Cmd::Cut, "ctrl-x"@),
        76 => one(Cmd::Paste, "ctrl-v"@),
        77 => one(Cmd::Find, "ctrl-f"@),
        78 => one(Cmd::FindNext, "f3"@),
        79 => one(Cmd::FindPrev, "shift-f3"@),
        80 => one(Cmd::FindWordUnderCursor, "alt-f"@),
        81 => one(Cmd::Replace, "ctrl-h"@),
        82 => three(Cmd::Grep, "alt-g"@, "ctrl-shift-f"@, "f7"@),
        83 => one(Cmd::ReplaceInProject, "alt-shift-g"@),
        84 => one(Cmd::NextChange, "ctrl-f9"@),
        85 => one(Cmd::PrevChange, "ctrl-shift-f9"@),
        86 => one(Cmd::Completion, "ctrl-space"@),
        87 => two(Cmd::GotoDefinition, "f12"@, "ctrl-enter"@),
        88 => one(Cmd::References, "shift-f12"@),
        89 => one(Cmd::Hover, "alt-k"@),
        90 => one(Cmd::Rename, "f2"@),
        91 => two(Cmd::CodeAction, "alt-enter"@, "ctrl-."@),
        92 => one(Cmd::FixIt, "alt-i"@),
        93 => one(Cmd::Format, "alt-shift-f"@),
        94 => one(Cmd::NextDiagnostic, "f8"@),
        95 => one(Cmd::PrevDiagnostic, "shift-f8"@),
        96 => one(Cmd::Diagnostics, "alt-d"@),
        97 => two(Cmd::Symbols, "alt-o"@, "ctrl-shift-o"@),
        98 => one(Cmd::SignatureHelp, "alt-p"@),
        99 => one(Cmd::Debug, "f5"@),
        100 => one(Cmd::DebugStop, "shift-f5"@),
        101 => one(Cmd::DebugStepOver, "f10"@),
        102 => one(Cmd::DebugStepInto, "f11"@),
        103 => one(Cmd::DebugStepOut, "shift-f11"@),
        104 => one(Cmd::ToggleBreakpoint, "f9"@),
        105 => one(Cmd::DebugPanel, "alt-5"@),
        106 => two(Cmd::Build, "ctrl-shift-b"@, "f6"@),
        107 => one(Cmd::Split, "alt-v"@),
        108 => one(Cmd::ClosePane, "alt-q"@),
        109 => one(Cmd::FocusNextPane, "alt-w"@),
        110 => one(Cmd::SwapSplitDirection, "alt-\\"@),
        111 => one(Cmd::DiffPanes, "alt-c"@),
        112 => one(Cmd::ThemePicker, "alt-t"@),
        113 => one(Cmd::ToggleLineNumbers, "alt-n"@),
        114 => one(Cmd::ToggleWrap, "alt-z"@),
        115 => one(Cmd::ToggleFold, "alt-h"@),
        116 => one(Cmd::FoldAll, "alt-shift-h"@),
        117 => one(Cmd::UnfoldAll, "alt-shift-u"@),
        118 => two(Cmd::ContextMenu, "shift-f10"@, "menu"@),
        _ => one(Cmd::Escape, "esc"@),
    }
}

fn say_one(cmd: Cmd, first: &'static str) -> (s: Shipped)
    ensures
        s@ == one(cmd, first@),
{
    Shipped { cmd, first, second: None, third: None }
}

fn say_two(cmd: Cmd, first: &'static str, second: &'static str) -> (s: Shipped)
    ensures
        s@ == two(cmd, first@, second@),
{
    Shipped { cmd, first, second: Some(second), third: None }
}

fn say_three(
    cmd: Cmd,
    first: &'static str,
    second: &'static str,
    third: &'static str,
) -> (s: Shipped)
    ensures
        s@ == three(cmd, first@, second@, third@),
{
    Shipped { cmd, first, second: Some(second), third: Some(third) }
}

/// One of the commands that come with keys, by number.
pub fn shipped(n: u8) -> (s: Shipped)
    ensures
        s@ == row(n),
{
    match n {
        0 => say_one(Cmd::Quit, "ctrl-q"),
        1 => say_one(Cmd::Save, "ctrl-s"),
        2 => say_one(Cmd::SaveAs, "alt-s"),
        3 => say_one(Cmd::Close, "ctrl-w"),
        4 => say_one(Cmd::New, "ctrl-n"),
        5 => say_two(Cmd::Open, "ctrl-p", "ctrl-o"),
        6 => say_two(Cmd::OpenPath, "alt-e", "f4"),
        7 => say_one(Cmd::Buffers, "ctrl-b"),
        8 => say_one(Cmd::NextBuffer, "alt-."),
        9 => say_one(Cmd::PrevBuffer, "alt-,"),
        10 => say_one(Cmd::MoveTabLeft, "ctrl-shift-pageup"),
        11 => say_one(Cmd::MoveTabRight, "ctrl-shift-pagedown"),
        12 => say_two(Cmd::CommandPalette, "alt-x", "ctrl-shift-p"),
        13 => say_one(Cmd::Help, "f1"),
        14 => say_one(Cmd::MoveLeft, "left"),
        15 => say_one(Cmd::MoveRight, "right"),
        16 => say_one(Cmd::MoveUp, "up"),
        17 => say_one(Cmd::MoveDown, "down"),
        18 => say_two(Cmd::MoveWordLeft, "ctrl-left", "alt-left"),
        19 => say_two(Cmd::MoveWordRight, "ctrl-right", "alt-right"),
        20 => say_one(Cmd::MoveLineStart, "home"),
        21 => say_one(Cmd::MoveLineEnd, "end"),
        22 => say_one(Cmd::MovePageUp, "pageup"),
        23 => say_one(Cmd::MovePageDown, "pagedown"),
        24 => say_one(Cmd::MoveDocStart, "ctrl-home"),
        25 => say_one(Cmd::MoveDocEnd, "ctrl-end"),
        26 => say_one(Cmd::MoveParaUp, "ctrl-up"),
        27 => say_one(Cmd::MoveParaDown, "ctrl-down"),
        28 => say_one(Cmd::MatchBracket, "alt-b"),
        29 => say_one(Cmd::GotoLine, "ctrl-g"),
        30 => say_one(Cmd::JumpBack, "alt-["),
        31 => say_one(Cmd::JumpForward, "alt-]"),
        32 => say_one(Cmd::ToggleBookmark, "alt-shift-m"),
        33 => say_one(Cmd::NextBookmark, "alt-shift-n"),
        34 => say_one(Cmd::PrevBookmark, "alt-shift-b"),
        35 => say_one(Cmd::CentreCursor, "alt-m"),
        36 => say_one(Cmd::ExtendLeft, "shift-left"),
        37 => say_one(Cmd::ExtendRight, "shift-right"),
        38 => say_one(Cmd::ExtendUp, "shift-up"),
        39 => say_one(Cmd::ExtendDown, "shift-down"),
        40 => say_two(Cmd::ExtendWordLeft, "ctrl-shift-left", "alt-shift-left"),
        41 => say_two(Cmd::ExtendWordRight, "ctrl-shift-right", "alt-shift-right"),
        42 => say_one(Cmd::ExtendLineStart, "shift-home"),
        43 => say_one(Cmd::ExtendLineEnd, "shift-end"),
        44 => say_one(Cmd::ExtendPageUp, "shift-pageup"),
        45 => say_one(Cmd::ExtendPageDown, "shift-pagedown"),
        46 => say_one(Cmd::ExtendDocStart, "ctrl-shift-home"),
        47 => say_one(Cmd::ExtendDocEnd, "ctrl-shift-end"),
        48 => say_one(Cmd::SelectAll, "ctrl-a"),
        49 => say_one(Cmd::SelectLine, "ctrl-l"),
        50 => say_one(Cmd::ExpandSelection, "alt-="),
        51 => say_two(Cmd::AddCursorAbove, "ctrl-shift-up", "ctrl-alt-up"),
        52 => say_two(Cmd::AddCursorBelow, "ctrl-shift-down", "ctrl-alt-down"),
        53 => say_one(Cmd::AddCursorNextMatch, "ctrl-d"),
        54 => say_one(Cmd::SelectAllMatches, "ctrl-shift-l"),
        55 => say_one(Cmd::CursorsToLineEnds, "alt-shift-i"),
        56 => say_one(Cmd::CollapseCursors, "alt-shift-c"),
        57 => say_one(Cmd::InsertNewline, "enter"),
        58 => say_one(Cmd::DeleteBackward, "backspace"),
        59 => say_one(Cmd::DeleteForward, "delete"),
        60 => say_two(Cmd::DeleteWordBackward, "ctrl-backspace", "alt-backspace"),
        61 => say_two(Cmd::DeleteWordForward, "ctrl-delete", "alt-delete"),
        62 => say_one(Cmd::DeleteLine, "ctrl-shift-k"),
        63 => say_two(Cmd::DuplicateLine, "alt-shift-down", "alt-shift-up"),
        64 => say_one(Cmd::MoveLineUp, "alt-up"),
        65 => say_one(Cmd::MoveLineDown, "alt-down"),
        66 => say_one(Cmd::JoinLines, "alt-j"),
        67 => say_one(Cmd::RecordMacro, "alt-shift-r"),
        68 => say_one(Cmd::PlayMacro, "alt-shift-p"),
        69 => say_one(Cmd::Indent, "tab"),
        70 => say_one(Cmd::Unindent, "shift-tab"),
        71 => say_two(Cmd::ToggleComment, "ctrl-/", "ctrl-_"),
        72 => say_one(Cmd::Undo, "ctrl-z"),
        73 => say_two(Cmd::Redo, "ctrl-y", "ctrl-shift-z"),
        74 => say_one(Cmd::Copy, "ctrl-c"),
        75 => say_one(Cmd::Cut, "ctrl-x"),
        76 => say_one(Cmd::Paste, "ctrl-v"),
        77 => say_one(Cmd::Find, "ctrl-f"),
        78 => say_one(Cmd::FindNext, "f3"),
        79 => say_one(Cmd::FindPrev, "shift-f3"),
        80 => say_one(Cmd::FindWordUnderCursor, "alt-f"),
        81 => say_one(Cmd::Replace, "ctrl-h"),
        82 => say_three(Cmd::Grep, "alt-g", "ctrl-shift-f", "f7"),
        83 => say_one(Cmd::ReplaceInProject, "alt-shift-g"),
        84 => say_one(Cmd::NextChange, "ctrl-f9"),
        85 => say_one(Cmd::PrevChange, "ctrl-shift-f9"),
        86 => say_one(Cmd::Completion, "ctrl-space"),
        87 => say_two(Cmd::GotoDefinition, "f12", "ctrl-enter"),
        88 => say_one(Cmd::References, "shift-f12"),
        89 => say_one(Cmd::Hover, "alt-k"),
        90 => say_one(Cmd::Rename, "f2"),
        91 => say_two(Cmd::CodeAction, "alt-enter", "ctrl-."),
        92 => say_one(Cmd::FixIt, "alt-i"),
        93 => say_one(Cmd::Format, "alt-shift-f"),
        94 => say_one(Cmd::NextDiagnostic, "f8"),
        95 => say_one(Cmd::PrevDiagnostic, "shift-f8"),
        96 => say_one(Cmd::Diagnostics, "alt-d"),
        97 => say_two(Cmd::Symbols, "alt-o", "ctrl-shift-o"),
        98 => say_one(Cmd::SignatureHelp, "alt-p"),
        99 => say_one(Cmd::Debug, "f5"),
        100 => say_one(Cmd::DebugStop, "shift-f5"),
        101 => say_one(Cmd::DebugStepOver, "f10"),
        102 => say_one(Cmd::DebugStepInto, "f11"),
        103 => say_one(Cmd::DebugStepOut, "shift-f11"),
        104 => say_one(Cmd::ToggleBreakpoint, "f9"),
        105 => say_one(Cmd::DebugPanel, "alt-5"),
        106 => say_two(Cmd::Build, "ctrl-shift-b", "f6"),
        107 => say_one(Cmd::Split, "alt-v"),
        108 => say_one(Cmd::ClosePane, "alt-q"),
        109 => say_one(Cmd::FocusNextPane, "alt-w"),
        110 => say_one(Cmd::SwapSplitDirection, "alt-\\"),
        111 => say_one(Cmd::DiffPanes, "alt-c"),
        112 => say_one(Cmd::ThemePicker, "alt-t"),
        113 => say_one(Cmd::ToggleLineNumbers, "alt-n"),
        114 => say_one(Cmd::ToggleWrap, "alt-z"),
        115 => say_one(Cmd::ToggleFold, "alt-h"),
        116 => say_one(Cmd::FoldAll, "alt-shift-h"),
        117 => say_one(Cmd::UnfoldAll, "alt-shift-u"),
        118 => say_two(Cmd::ContextMenu, "shift-f10", "menu"),
        _ => say_one(Cmd::Escape, "esc"),
    }
}

} // verus!
