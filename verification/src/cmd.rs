//! The commands that keys and menus name.
use vstd::prelude::*;

verus! {

/// A command of the editor, or one that a plugin added.
#[derive(Clone, Copy, PartialEq, Eq, Structural, Hash, Debug)]
pub enum Cmd {
    Quit,
    Save,
    SaveAs,
    Close,
    New,
    Open,
    OpenPath,
    Buffers,
    NextBuffer,
    PrevBuffer,
    MoveTabLeft,
    MoveTabRight,
    CommandPalette,
    Help,
    MoveLeft,
    MoveRight,
    MoveUp,
    MoveDown,
    MoveWordLeft,
    MoveWordRight,
    MoveLineStart,
    MoveLineEnd,
    MovePageUp,
    MovePageDown,
    MoveDocStart,
    MoveDocEnd,
    MoveParaUp,
    MoveParaDown,
    MatchBracket,
    GotoLine,
    JumpBack,
    JumpForward,
    ToggleBookmark,
    NextBookmark,
    PrevBookmark,
    CentreCursor,
    ExtendLeft,
    ExtendRight,
    ExtendUp,
    ExtendDown,
    ExtendWordLeft,
    ExtendWordRight,
    ExtendLineStart,
    ExtendLineEnd,
    ExtendPageUp,
    ExtendPageDown,
    ExtendDocStart,
    ExtendDocEnd,
    SelectAll,
    SelectLine,
    ExpandSelection,
    AddCursorAbove,
    AddCursorBelow,
    AddCursorNextMatch,
    SelectAllMatches,
    CursorsToLineEnds,
    CollapseCursors,
    InsertNewline,
    DeleteBackward,
    DeleteForward,
    DeleteWordBackward,
    DeleteWordForward,
    DeleteLine,
    DuplicateLine,
    MoveLineUp,
    MoveLineDown,
    JoinLines,
    RecordMacro,
    PlayMacro,
    Indent,
    Unindent,
    ToggleComment,
    Undo,
    Redo,
    Copy,
    Cut,
    Paste,
    Find,
    FindNext,
    FindPrev,
    FindWordUnderCursor,
    Replace,
    Grep,
    ReplaceInProject,
    NextChange,
    PrevChange,
    Completion,
    GotoDefinition,
    References,
    Hover,
    Rename,
    CodeAction,
    FixIt,
    Format,
    NextDiagnostic,
    PrevDiagnostic,
    Diagnostics,
    Symbols,
    SignatureHelp,
    Debug,
    DebugStop,
    DebugStepOver,
    DebugStepInto,
    DebugStepOut,
    ToggleBreakpoint,
    DebugPanel,
    Build,
    Split,
    ClosePane,
    FocusNextPane,
    SwapSplitDirection,
    DiffPanes,
    ThemePicker,
    ToggleLineNumbers,
    ToggleWrap,
    ToggleFold,
    FoldAll,
    UnfoldAll,
    ContextMenu,
    Escape,
    About,
    /// A command of a plugin, by its number.
    Plugin(u16),
}

} // verus!
