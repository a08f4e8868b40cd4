//! One document: its text, the changes made to it, and the way back.
use vstd::prelude::*;

use crate::change::{
    begins, changed, edited, fits, inverse, law_undo_puts_the_text_back, made, patches, stops, Change,
    Patch,
};
use crate::chars::{
    chars_of, dos, has_crlf, lemma_unix_of_dos, lemma_unix_of_unix, string_of, to_dos, unix,
    utf16_width,
};
use crate::indent::Indent;
use crate::json::Json;
use crate::lang::LangId;
use crate::order::{lemma_ranked, once_each, rank, ranked, strictly_ascending};
use crate::rope::{
    bytes_before, lemma_bytes_grow, line_at, line_count, replace, rope_text, slice,
    start_of_line, whole,
};
use crate::text::{
    end_of_line, least, lemma_line_bounds, lemma_line_of, lemma_line_starts_on_itself, line_end,
    line_of, line_start, Range, Selections,
};

verus! {

/// How long a pause in typing may be, in milliseconds, for what comes after
/// it to be undone together with what came before.
pub const MERGE_WINDOW: u64 = 500;

/// Which document, as everything outside holds onto one.
#[derive(Clone, Copy, PartialEq, Eq, Hash, Debug, PartialOrd, Ord, Structural)]
pub struct DocId(pub u32);

/// An edit that has happened, in every form something downstream needs it in:
/// byte offsets and rows for a parser, UTF-16 columns for a language server,
/// and character positions for the cursors.
#[derive(Debug)]
pub struct AppliedEdit {
    pub from: usize,
    pub to: usize,
    pub inserted: usize,
    pub text: String,
    pub start_byte: usize,
    pub old_end_byte: usize,
    pub new_end_byte: usize,
    pub start_point: (usize, usize),
    pub old_end_point: (usize, usize),
    pub new_end_point: (usize, usize),
    pub lsp_start: (usize, usize),
    pub lsp_old_end: (usize, usize),
}

/// Where a position goes when the characters from `from` to `to` become
/// `inserted` others.
pub open spec fn mapped(from: int, to: int, inserted: int, at: int) -> int {
    if at <= from {
        at
    } else if at >= to {
        at - (to - from) + inserted
    } else {
        from + inserted
    }
}

impl AppliedEdit {
    /// Where a position in the text before the edit is after it.
    pub fn map(&self, at: usize) -> (r: usize)
        requires
            self.from <= self.to,
            mapped(self.from as int, self.to as int, self.inserted as int, at as int) <= usize::MAX,
        ensures
            r == mapped(self.from as int, self.to as int, self.inserted as int, at as int),
    {
        if at <= self.from {
            at
        } else if at >= self.to {
            at - (self.to - self.from) + self.inserted
        } else {
            self.from + self.inserted
        }
    }

    /// The same edit, held separately.
    pub fn copy(&self) -> (e: Self)
        ensures
            e == *self,
    {
        AppliedEdit {
            from: self.from,
            to: self.to,
            inserted: self.inserted,
            text: self.text.clone(),
            start_byte: self.start_byte,
            old_end_byte: self.old_end_byte,
            new_end_byte: self.new_end_byte,
            start_point: self.start_point,
            old_end_point: self.old_end_point,
            new_end_point: self.new_end_point,
            lsp_start: self.lsp_start,
            lsp_old_end: self.lsp_old_end,
        }
    }
}

/// One set of changes, and what takes them back.
#[derive(Debug)]
pub struct Step {
    pub changes: Vec<Change>,
    pub inverse: Vec<Change>,
}

/// What one undo takes back: the steps, and where the cursors were on either
/// side of them.
#[derive(Debug)]
pub struct Revision {
    pub steps: Vec<Step>,
    pub before: Selections,
    pub after: Selections,
    /// When the last step was made, in milliseconds.
    pub at: u64,
    /// Whether what is typed next may still join it.
    pub open: bool,
}

/// A line, and the bytes on it before a position.
pub open spec fn byte_point(t: Seq<char>, at: int) -> (int, int) {
    let start = start_of_line(t, line_at(t, at));
    (line_at(t, at) as int, bytes_before(t, at) - bytes_before(t, start))
}

/// How many 16-bit units the characters between two positions take.
pub open spec fn units_between(t: Seq<char>, from: int, to: int) -> nat
    decreases to - from,
{
    if to <= from {
        0
    } else {
        units_between(t, from, to - 1) + utf16_width(t[to - 1])
    }
}

/// A line, and the 16-bit units on it before a position.
pub open spec fn lsp_point(t: Seq<char>, at: int) -> (int, int) {
    (line_at(t, at) as int, units_between(t, start_of_line(t, line_at(t, at)), at) as int)
}

pub open spec fn is_point(p: (usize, usize), q: (int, int)) -> bool {
    p.0 == q.0 && p.1 == q.1
}

/// Whether an edit says of a change what happened when it was made to a text.
pub open spec fn describes(e: AppliedEdit, t: Seq<char>, c: Patch) -> bool {
    let new_end = begins(t, c) + c.text.len();
    &&& e.from == begins(t, c)
    &&& e.to == stops(t, c)
    &&& e.inserted == c.text.len()
    &&& e.text@ == c.text
    &&& e.start_byte == bytes_before(t, begins(t, c))
    &&& e.old_end_byte == bytes_before(t, stops(t, c))
    &&& e.new_end_byte == bytes_before(edited(t, c), new_end)
    &&& is_point(e.start_point, byte_point(t, begins(t, c)))
    &&& is_point(e.old_end_point, byte_point(t, stops(t, c)))
    &&& is_point(e.new_end_point, byte_point(edited(t, c), new_end))
    &&& is_point(e.lsp_start, lsp_point(t, begins(t, c)))
    &&& is_point(e.lsp_old_end, lsp_point(t, stops(t, c)))
}

/// Whether edits are those that making some changes to a text gave, in the
/// order in which they were made.
pub open spec fn recounts(es: Seq<AppliedEdit>, t: Seq<char>, cs: Seq<Patch>) -> bool {
    &&& es.len() == cs.len()
    &&& forall|k: int|
        0 <= k < es.len() ==> describes(
            #[trigger] es[k],
            made(t, cs, k as nat),
            cs[cs.len() - 1 - k],
        )
}

/// A version number after `n` more edits.
pub open spec fn bumped(version: i32, n: nat) -> i32
    decreases n,
{
    if n == 0 {
        version
    } else {
        bumped(version, (n - 1) as nat).wrapping_add(1)
    }
}

// ---------------------------------------------------------------------------
// The history
// ---------------------------------------------------------------------------

/// A text with steps taken back, the last one first.
pub open spec fn unwound(t: Seq<char>, steps: Seq<Step>) -> Seq<char>
    decreases steps.len(),
{
    if steps.len() == 0 {
        t
    } else {
        unwound(changed(t, patches(steps.last().inverse@)), steps.drop_last())
    }
}

/// A text with steps made again, in order.
pub open spec fn rewound(t: Seq<char>, steps: Seq<Step>) -> Seq<char>
    decreases steps.len(),
{
    if steps.len() == 0 {
        t
    } else {
        changed(rewound(t, steps.drop_last()), patches(steps.last().changes@))
    }
}

/// A text with the last `m` of some steps taken back.
pub open spec fn taken_back(t: Seq<char>, steps: Seq<Step>, m: nat) -> Seq<char>
    decreases m,
{
    if m == 0 {
        t
    } else {
        changed(
            taken_back(t, steps, (m - 1) as nat),
            patches(steps[steps.len() - m].inverse@),
        )
    }
}

/// Whether edits are those that taking the last `m` of some steps back gave.
pub open spec fn recounts_unwinding(
    es: Seq<AppliedEdit>,
    t: Seq<char>,
    steps: Seq<Step>,
    m: nat,
) -> bool
    decreases m,
{
    if m == 0 {
        es.len() == 0
    } else {
        let cs = patches(steps[steps.len() - m].inverse@);
        let n = es.len() - cs.len();
        &&& n >= 0
        &&& recounts(es.skip(n), taken_back(t, steps, (m - 1) as nat), cs)
        &&& recounts_unwinding(es.take(n), t, steps, (m - 1) as nat)
    }
}

/// Whether edits are those that making steps again gave.
pub open spec fn recounts_rewinding(es: Seq<AppliedEdit>, t: Seq<char>, steps: Seq<Step>) -> bool
    decreases steps.len(),
{
    if steps.len() == 0 {
        es.len() == 0
    } else {
        let cs = patches(steps.last().changes@);
        let n = es.len() - cs.len();
        &&& n >= 0
        &&& recounts(es.skip(n), rewound(t, steps.drop_last()), cs)
        &&& recounts_rewinding(es.take(n), t, steps.drop_last())
    }
}

/// Whether steps that led to a text can be taken back and made again.
pub open spec fn led_to(t: Seq<char>, steps: Seq<Step>) -> bool
    decreases steps.len(),
{
    if steps.len() == 0 {
        true
    } else {
        let before = changed(t, patches(steps.last().inverse@));
        &&& changed(before, patches(steps.last().changes@)) == t
        &&& led_to(before, steps.drop_last())
    }
}

/// Whether a history is the one behind a text.
pub open spec fn behind(t: Seq<char>, done: Seq<Revision>) -> bool
    decreases done.len(),
{
    if done.len() == 0 {
        true
    } else {
        &&& led_to(t, done.last().steps@)
        &&& behind(unwound(t, done.last().steps@), done.drop_last())
    }
}

/// Whether what was undone can be made again from a text, and taken back
/// again after that.
pub open spec fn ahead(t: Seq<char>, undone: Seq<Revision>) -> bool
    decreases undone.len(),
{
    if undone.len() == 0 {
        true
    } else {
        let next = rewound(t, undone.last().steps@);
        &&& led_to(next, undone.last().steps@)
        &&& unwound(next, undone.last().steps@) == t
        &&& ahead(next, undone.drop_last())
    }
}

// ---------------------------------------------------------------------------
// The document
// ---------------------------------------------------------------------------

/// A problem that somebody has reported about a stretch of the text.
#[derive(Debug)]
pub struct Diagnostic {
    pub range: Range,
    pub severity: Severity,
    pub message: String,
    pub source: Option<String>,
    pub code: Option<String>,
    /// Whatever the server sent with it, to be handed back as it came.
    pub data: Option<Json>,
    pub told: Told,
}

/// Something a plugin would like to put in at a position.
#[derive(Debug)]
pub struct Hint {
    pub plugin: String,
    pub at: usize,
    pub text: String,
}

/// A buffer that something other than a person fills in: which stretches of
/// it are drawn in which role, and which of them do something.
#[derive(Debug)]
pub struct Panel {
    pub owner: Owner,
    pub id: String,
    pub spans: Vec<(Range, String)>,
    pub actions: Vec<(Range, String)>,
}

/// Who fills a panel in.
#[derive(Clone, PartialEq, Eq, Debug)]
pub enum Owner {
    Plugin(String),
    Debugger,
}

impl Owner {
    /// The plugin, where it is one.
    pub fn plugin(&self) -> (id: Option<&str>)
        ensures
            match self {
                Owner::Plugin(name) => id is Some && id->0@ == name@,
                Owner::Debugger => id is None,
            },
    {
        match self {
            Owner::Plugin(id) => Some(id.as_str()),
            Owner::Debugger => None,
        }
    }
}

/// Who reported a problem.
#[derive(Clone, Copy, PartialEq, Eq, Debug)]
pub enum Told {
    Server(usize),
    Tool(&'static str),
    Plugin(&'static str),
}

/// How bad a problem is, worst first.
#[derive(Clone, Copy, PartialEq, Eq, PartialOrd, Ord, Debug, Structural)]
pub enum Severity {
    Error,
    Warning,
    Info,
    Hint,
}

impl Severity {
    /// The severity that a language server's number means. One that nobody
    /// knows is a warning.
    pub fn from_lsp(n: u64) -> (s: Self)
        ensures
            s == (if n == 1 {
                Severity::Error
            } else if n == 3 {
                Severity::Info
            } else if n == 4 {
                Severity::Hint
            } else {
                Severity::Warning
            }),
    {
        match n {
            1 => Severity::Error,
            3 => Severity::Info,
            4 => Severity::Hint,
            _ => Severity::Warning,
        }
    }

    /// The number that a language server knows it by.
    pub fn to_lsp(&self) -> (n: u64)
        ensures
            n == match self {
                Severity::Error => 1u64,
                Severity::Warning => 2,
                Severity::Info => 3,
                Severity::Hint => 4,
            },
    {
        match self {
            Severity::Error => 1,
            Severity::Warning => 2,
            Severity::Info => 3,
            Severity::Hint => 4,
        }
    }

    pub fn label(&self) -> (s: &'static str)
        ensures
            s@ == match self {
                Severity::Error => "error"@,
                Severity::Warning => "warning"@,
                Severity::Info => "info"@,
                Severity::Hint => "hint"@,
            },
    {
        match self {
            Severity::Error => "error",
            Severity::Warning => "warning",
            Severity::Info => "info",
            Severity::Hint => "hint",
        }
    }

    pub fn mark(&self) -> (s: &'static str)
        ensures
            s@ == match self {
                Severity::Hint => "\u{00b7}"@,
                _ => "\u{25cf}"@,
            },
    {
        match self {
            Severity::Hint => "\u{00b7}",
            _ => "\u{25cf}",
        }
    }
}

/// What a file on disk looked like: when it was last written, in nanoseconds,
/// and how long it was.
#[derive(Clone, Copy, PartialEq, Eq, Debug, Structural)]
pub struct Stamp {
    pub modified: Option<u128>,
    pub len: u64,
}

/// How the file on disk stands to what was read from it.
#[derive(Clone, Copy, PartialEq, Eq, Debug, Structural)]
pub enum OnDisk {
    Same,
    Changed,
    Gone,
}

/// One document.
pub struct Document {
    pub id: DocId,
    pub rope: ropey::Rope,
    pub path: Option<String>,
    pub name: String,
    pub language: LangId,
    /// Whether the language was chosen by somebody, rather than worked out.
    pub language_chosen: bool,
    /// Whether the file's lines end the way they do on Windows.
    pub crlf: bool,
    pub had_final_newline: bool,
    pub indent: Indent,
    /// Goes up by one with every edit.
    pub version: i32,
    pub read_only: bool,
    pub origin: Option<String>,
    pub diagnostics: Vec<Diagnostic>,
    pub panel: Option<Panel>,
    /// Where the breakpoints are, as positions that move with the text.
    pub breakpoints: Vec<usize>,
    pub hint: Option<Hint>,
    /// Whether it is coloured, and why not where it should be.
    pub coloured: bool,
    pub colours_off: Option<&'static str>,
    /// When to try colouring it again, in milliseconds, and how often that
    /// has been tried.
    pub recolour: Option<u64>,
    pub recolour_tries: u8,
    /// The file as it was when the text was last in step with it.
    pub stamp: Option<Stamp>,
    pub on_disk: OnDisk,
    /// The file as it was at the last look.
    pub seen: Option<Stamp>,
    /// Whether it was the same at the last two looks.
    pub settled: bool,
    /// The file as it was when somebody was last told about it.
    pub told: Option<Stamp>,
    pub done: Vec<Revision>,
    pub undone: Vec<Revision>,
    /// How long the history was when the text was last saved. `None` where
    /// that point can no longer be reached.
    pub saved_at: Option<usize>,
    /// Edits that nothing has looked at yet.
    pub pending: Vec<AppliedEdit>,
}

/// No fewer bytes than 16-bit units.
proof fn lemma_units_fit(t: Seq<char>, from: int, to: int)
    requires
        0 <= from <= to,
    ensures
        units_between(t, from, to) + bytes_before(t, from) <= bytes_before(t, to),
    decreases to - from,
{
    if from < to {
        lemma_units_fit(t, from, to - 1);
    }
}

impl Document {
    /// The text.
    pub open spec fn content(&self) -> Seq<char> {
        rope_text(self.rope)
    }

    /// Whether the history is the one that led here.
    pub open spec fn faithful(&self) -> bool {
        behind(self.content(), self.done@) && ahead(self.content(), self.undone@)
    }

    /// Whether there is anything that has not been saved: the history is not
    /// as long as it was then.
    pub open spec fn unsaved(&self) -> bool {
        self.saved_at != Some(self.done@.len() as usize) || self.done@.len() > usize::MAX
    }

    /// A line, and the bytes on it before a position.
    fn point_at(&self, at: usize) -> (p: (usize, usize))
        requires
            at <= self.content().len(),
        ensures
            is_point(p, byte_point(self.content(), at as int)),
    {
        let line = self.rope.char_to_line(at);
        proof {
            lemma_line_of(self.content(), at as int);
            lemma_line_bounds(self.content(), line as nat);
        }
        let start = self.rope.line_to_char(line);
        proof {
            lemma_bytes_grow(self.content(), start as int, at as int);
        }
        let col = self.rope.char_to_byte(at) - self.rope.char_to_byte(start);
        (line, col)
    }

    /// A line and a column counted in characters.
    pub fn point_at_char(&self, at: usize) -> (p: (usize, usize))
        ensures
            ({
                let i = least(at as int, self.content().len() as int);
                &&& p.0 == line_at(self.content(), i)
                &&& p.1 == i - start_of_line(self.content(), line_at(self.content(), i))
            }),
    {
        let len = self.rope.len_chars();
        let at: usize = if at <= len { at } else { len };
        proof {
            lemma_line_of(self.content(), at as int);
        }
        let line = self.rope.char_to_line(at);
        (line, at - self.rope.line_to_char(line))
    }

    /// A line and a column counted in 16-bit units, which is what a language
    /// server counts in.
    pub fn lsp_point_at(&self, at: usize) -> (p: (usize, usize))
        ensures
            is_point(p, lsp_point(self.content(), least(at as int, self.content().len() as int))),
    {
        let ghost t = self.content();
        let len = self.rope.len_chars();
        let at: usize = if at <= len { at } else { len };
        proof {
            lemma_line_of(t, at as int);
            lemma_line_bounds(t, line_at(t, at as int));
        }
        let line = self.rope.char_to_line(at);
        let start = self.rope.line_to_char(line);
        let bytes = self.rope.char_to_byte(at);
        let mut col: usize = 0;
        let mut i: usize = start;
        while i < at
            invariant
                t == self.content(),
                start <= i <= at <= t.len(),
                col == units_between(t, start as int, i as int),
                bytes == bytes_before(t, at as int),
            decreases at - i,
        {
            proof {
                lemma_units_fit(t, start as int, i + 1);
                lemma_bytes_grow(t, i + 1, at as int);
            }
            col = col + self.rope.char(i).len_utf16();
            i = i + 1;
        }
        (line, col)
    }

    /// A position as a byte offset, and as the two kinds of point.
    fn place_of(&self, at: usize) -> (r: (usize, (usize, usize), (usize, usize)))
        requires
            at <= self.content().len(),
        ensures
            r.0 == bytes_before(self.content(), at as int),
            is_point(r.1, byte_point(self.content(), at as int)),
            is_point(r.2, lsp_point(self.content(), at as int)),
    {
        (self.rope.char_to_byte(at), self.point_at(at), self.lsp_point_at(at))
    }

    /// Make one change, and say what it was and what it took out.
    #[verifier::spinoff_prover]
    #[verifier::rlimit(60)]
    fn make(&mut self, change: &Change) -> (r: (AppliedEdit, String))
        ensures
            final(self).content() == edited(old(self).content(), change@),
            describes(r.0, old(self).content(), change@),
            r.1@ == old(self).content().subrange(
                begins(old(self).content(), change@),
                stops(old(self).content(), change@),
            ),
            final(self).content().len() <= usize::MAX,
            *final(self) == (Document { rope: final(self).rope, ..*old(self) }),
    {
        let ghost was = self.content();
        let ghost c = change@;
        let len = self.rope.len_chars();
        let from: usize = if change.from <= len { change.from } else { len };
        let to: usize = if change.to <= len { change.to } else { len };
        let to: usize = if from <= to { to } else { from };
        let removed = slice(&self.rope, from, to);
        let (start_byte, start_point, lsp_start) = self.place_of(from);
        let (old_end_byte, old_end_point, lsp_old_end) = self.place_of(to);
        replace(&mut self.rope, from, to, change.text.as_str());
        assert(self.content() == edited(was, c));
        let now = self.rope.len_chars();
        let inserted = now - (len - (to - from));
        let new_end = from + inserted;
        let (new_end_byte, new_end_point, _) = self.place_of(new_end);
        let edit = AppliedEdit {
            from,
            to,
            inserted,
            text: change.text.clone(),
            start_byte,
            old_end_byte,
            new_end_byte,
            start_point,
            old_end_point,
            new_end_point,
            lsp_start,
            lsp_old_end,
        };
        (edit, removed)
    }

    /// Change the rope, and work out everything anybody downstream will want
    /// to know about the change. The only place the text is written.
    ///
    /// The changes are made back to front, so that none has to be adjusted
    /// for the ones before it.
    #[verifier::rlimit(40)]
    pub fn run(&mut self, changes: &Vec<Change>) -> (r: (Vec<AppliedEdit>, Vec<Change>))
        ensures
            final(self).content() == changed(old(self).content(), patches(changes@)),
            recounts(r.0@, old(self).content(), patches(changes@)),
            patches(r.1@) == inverse(old(self).content(), patches(changes@)),
            final(self).pending@ == old(self).pending@ + r.0@,
            final(self).version == old(self).version.wrapping_add(1),
            *final(self) == (Document {
                rope: final(self).rope,
                version: final(self).version,
                pending: final(self).pending,
                ..*old(self)
            }),
    {
        let ghost t = self.content();
        let ghost cs = patches(changes@);
        let n = changes.len();
        let mut edits: Vec<AppliedEdit> = Vec::new();
        let mut taken: Vec<String> = Vec::new();
        let mut k: usize = 0;
        let _len = self.rope.len_chars();
        while k < n
            invariant
                k <= n,
                n == changes@.len(),
                cs == patches(changes@),
                cs.len() == n,
                t == old(self).content(),
                self.content() == made(t, cs, k as nat),
                *self == (Document { rope: self.rope, ..*old(self) }),
                edits@.len() == k,
                taken@.len() == k,
                forall|j: int|
                    0 <= j < k ==> describes(
                        #[trigger] edits@[j],
                        made(t, cs, j as nat),
                        cs[cs.len() - 1 - j],
                    ),
                forall|j: int|
                    0 <= j < k ==> (#[trigger] taken@[j])@ == made(t, cs, j as nat).subrange(
                        begins(made(t, cs, j as nat), cs[cs.len() - 1 - j]),
                        stops(made(t, cs, j as nat), cs[cs.len() - 1 - j]),
                    ),
                forall|j: nat| j <= k ==> (#[trigger] made(t, cs, j)).len() <= usize::MAX,
            decreases n - k,
        {
            let change = &changes[n - 1 - k];
            let ghost was = self.content();
            let ghost c = cs[n - 1 - k];
            assert(c == change@);
            let (edit, removed) = self.make(change);
            edits.push(edit);
            taken.push(removed);
            assert(cs[cs.len() - (k + 1)] == c);
            assert(made(t, cs, (k + 1) as nat) == edited(was, c));
            assert(describes(edits@[k as int], made(t, cs, k as nat), cs[cs.len() - 1 - k]));
            k = k + 1;
        }
        // What puts each one back belongs where the changes before it in the
        // text have left it.
        let ghost last = made(t, cs, n as nat);
        let mut back: Vec<Change> = Vec::new();
        let mut shift: i128 = 0;
        while k > 0
            invariant
                k <= n,
                n == changes@.len(),
                cs == patches(changes@),
                cs.len() == n,
                t == old(self).content(),
                last == made(t, cs, n as nat),
                self.content() == last,
                *self == (Document { rope: self.rope, ..*old(self) }),
                edits@.len() == n,
                taken@.len() == k,
                back@.len() == n - k,
                recounts(edits@, t, cs),
                forall|j: int|
                    0 <= j < k ==> (#[trigger] taken@[j])@ == made(t, cs, j as nat).subrange(
                        begins(made(t, cs, j as nat), cs[cs.len() - 1 - j]),
                        stops(made(t, cs, j as nat), cs[cs.len() - 1 - j]),
                    ),
                forall|j: nat| j <= n ==> (#[trigger] made(t, cs, j)).len() <= usize::MAX,
                shift == last.len() - made(t, cs, k as nat).len(),
                forall|i: int| 0 <= i < back@.len() ==> (#[trigger] back@[i])@ == inverse(t, cs)[i],
            decreases k,
        {
            let edit = &edits[k - 1];
            let ghost was = made(t, cs, (k - 1) as nat);
            let ghost c = cs[n - k];
            proof {
                assert(made(t, cs, k as nat) == edited(was, c));
                assert(was.len() <= usize::MAX);
                assert(made(t, cs, k as nat).len() <= usize::MAX);
                assert(last.len() <= usize::MAX);
                assert(describes(edits@[k - 1], was, c));
            }
            let from: i128 = edit.from as i128 + shift;
            let to: i128 = edit.from as i128 + edit.inserted as i128 + shift;
            let text = taken.pop().unwrap();
            back.push(Change { from: from as usize, to: to as usize, text });
            assert(back@[n - k]@ == inverse(t, cs)[n - k]);
            shift = shift + (edit.inserted as i128 - (edit.to - edit.from) as i128);
            k = k - 1;
        }
        self.version = self.version.wrapping_add(1);
        let ghost pending = self.pending@;
        let mut j: usize = 0;
        while j < edits.len()
            invariant
                j <= edits@.len(),
                self.pending@ == pending + edits@.take(j as int),
                *self == (Document {
                    rope: self.rope,
                    version: self.version,
                    pending: self.pending,
                    ..*old(self)
                }),
                self.content() == last,
                self.version == old(self).version.wrapping_add(1),
            decreases edits@.len() - j,
        {
            self.pending.push(edits[j].copy());
            assert(pending + edits@.take(j + 1) =~= (pending + edits@.take(j as int)).push(edits@[j as int]));
            j = j + 1;
        }
        assert(edits@.take(j as int) =~= edits@);
        assert(patches(back@) =~= inverse(t, cs));
        (edits, back)
    }

    /// Do a set of changes, or nothing where there are none.
    fn apply_inner(
        &mut self,
        changes: Vec<Change>,
        selections: &Selections,
        mergeable: bool,
        now: u64,
    ) -> (edits: Vec<AppliedEdit>)
        ensures
            applied(*old(self), *final(self), patches(changes@), *selections, mergeable, now, edits@),
    {
        if changes.len() == 0 {
            return Vec::new();
        }
        let joins = mergeable && match self.done.last() {
            Some(last) => last.open && now.saturating_sub(last.at) < MERGE_WINDOW,
            None => false,
        };
        let (edits, inverse) = self.run(&changes);
        let _len = self.rope.len_chars();
        // Anything that could be redone described a future that no longer
        // exists.
        self.undone.clear();
        let step = Step { changes, inverse };
        let ghost done = self.done@;
        if joins {
            let mut last = self.done.pop().unwrap();
            last.steps.push(step);
            last.at = now;
            self.done.push(last);
            assert(self.done@.drop_last() =~= done.drop_last());
            assert(self.done@.last().steps@.drop_last() =~= done.last().steps@);
        } else {
            let mut steps: Vec<Step> = Vec::new();
            steps.push(step);
            self.done.push(
                Revision {
                    steps,
                    before: selections.copy(),
                    after: selections.copy(),
                    at: now,
                    open: mergeable,
                },
            );
            assert(self.done@.drop_last() =~= done);
            let unreachable = match self.saved_at {
                Some(at) => at >= self.done.len(),
                None => false,
            };
            if unreachable {
                self.saved_at = None;
            }
        }
        edits
    }

    /// Do a set of changes as one undoable action.
    ///
    /// `changes` should be in order and should not overlap. They are made
    /// back to front so that no change has to be adjusted for the ones before
    /// it. `selections` is where the cursors were, so that undo can put them
    /// back, and `now` is the time in milliseconds.
    pub fn apply(&mut self, changes: Vec<Change>, selections: &Selections, now: u64) -> (edits:
        Vec<AppliedEdit>)
        ensures
            applied(*old(self), *final(self), patches(changes@), *selections, true, now, edits@),
    {
        self.apply_inner(changes, selections, true, now)
    }

    /// The same, but standing alone in the history: the next thing typed
    /// starts a new revision rather than joining this one.
    pub fn apply_atomic(&mut self, changes: Vec<Change>, selections: &Selections, now: u64) -> (edits:
        Vec<AppliedEdit>)
        ensures
            changes@.len() == 0 ==> closed(*old(self), *final(self)) && edits@.len() == 0,
            changes@.len() > 0 ==> applied(
                *old(self),
                *final(self),
                patches(changes@),
                *selections,
                false,
                now,
                edits@,
            ),
    {
        let ghost was = *self;
        let edits = self.apply_inner(changes, selections, false, now);
        let ghost is = *self;
        self.close_revision();
        proof {
            if changes@.len() > 0 {
                assert(self.done@ =~= is.done@) by {
                    assert(self.done@.last() == is.done@.last());
                    assert forall|i: int| 0 <= i < is.done@.len() implies self.done@[i] == is.done@[i] by {
                        if i < is.done@.len() - 1 {
                            assert(self.done@.drop_last()[i] == is.done@.drop_last()[i]);
                        }
                    }
                }
            }
        }
        edits
    }

    /// Where the cursors ended up, for redo to put back.
    pub fn record_selections(&mut self, after: &Selections)
        ensures
            recorded(*old(self), *final(self), *after),
    {
        if self.done.len() > 0 {
            let ghost done = self.done@;
            let mut last = self.done.pop().unwrap();
            last.after = after.copy();
            self.done.push(last);
            assert(self.done@.drop_last() =~= done.drop_last());
        }
    }

    /// Let nothing more join the last revision.
    pub fn close_revision(&mut self)
        ensures
            closed(*old(self), *final(self)),
    {
        if self.done.len() > 0 {
            let ghost done = self.done@;
            let mut last = self.done.pop().unwrap();
            last.open = false;
            self.done.push(last);
            assert(self.done@.drop_last() =~= done.drop_last());
        }
    }

    pub fn can_undo(&self) -> (yes: bool)
        ensures
            yes == (self.done@.len() > 0),
    {
        self.done.len() > 0
    }

    pub fn can_redo(&self) -> (yes: bool)
        ensures
            yes == (self.undone@.len() > 0),
    {
        self.undone.len() > 0
    }

    /// Take the last revision back. The cursors go back to where they were
    /// before it.
    pub fn undo(&mut self) -> (r: Option<(Vec<AppliedEdit>, Selections)>)
        ensures
            old(self).done@.len() == 0 ==> r is None && *final(self) == *old(self),
            old(self).done@.len() > 0 ==> {
                let revision = old(self).done@.last();
                &&& r is Some
                &&& final(self).content() == unwound(old(self).content(), revision.steps@)
                &&& recounts_unwinding(
                    (r->0).0@,
                    old(self).content(),
                    revision.steps@,
                    revision.steps@.len(),
                )
                &&& same_selections((r->0).1, revision.before)
                &&& final(self).pending@ == old(self).pending@ + (r->0).0@
                &&& final(self).version == bumped(old(self).version, revision.steps@.len())
                &&& final(self).done@ == old(self).done@.drop_last()
                &&& final(self).undone@ == old(self).undone@.push(
                    Revision { open: false, ..revision },
                )
                &&& *final(self) == (Document {
                    rope: final(self).rope,
                    version: final(self).version,
                    pending: final(self).pending,
                    done: final(self).done,
                    undone: final(self).undone,
                    ..*old(self)
                })
            },
    {
        if self.done.len() == 0 {
            return None;
        }
        let mut revision = self.done.pop().unwrap();
        let ghost steps = revision.steps@;
        let ghost t = self.content();
        let mut edits: Vec<AppliedEdit> = Vec::new();
        let n = revision.steps.len();
        let mut m: usize = 0;
        assert(self.pending@ =~= old(self).pending@ + edits@);
        while m < n
            invariant
                m <= n,
                n == steps.len(),
                steps == revision.steps@,
                t == old(self).content(),
                self.content() == taken_back(t, steps, m as nat),
                recounts_unwinding(edits@, t, steps, m as nat),
                self.pending@ == old(self).pending@ + edits@,
                self.version == bumped(old(self).version, m as nat),
                self.done@ == old(self).done@.drop_last(),
                *self == (Document {
                    rope: self.rope,
                    version: self.version,
                    pending: self.pending,
                    done: self.done,
                    ..*old(self)
                }),
            decreases n - m,
        {
            let ghost was = edits@;
            let (mut more, _) = self.run(&revision.steps[n - 1 - m].inverse);
            let ghost extra = more@;
            edits.append(&mut more);
            proof {
                let cs = patches(steps[n - 1 - m].inverse@);
                assert(edits@ =~= was + extra);
                assert(edits@.skip(was.len() as int) =~= extra);
                assert(edits@.take(was.len() as int) =~= was);
                assert(steps[steps.len() - (m + 1)] == steps[n - 1 - m]);
                assert(old(self).pending@ + was + extra =~= old(self).pending@ + edits@);
            }
            m = m + 1;
        }
        proof {
            lemma_unwound(t, steps, n as nat);
            assert(steps.take(0) =~= Seq::<Step>::empty());
        }
        revision.open = false;
        let before = revision.before.copy();
        self.undone.push(revision);
        Some((edits, before))
    }

    /// Make the revision that was last taken back again. The cursors go to
    /// where it left them.
    pub fn redo(&mut self) -> (r: Option<(Vec<AppliedEdit>, Selections)>)
        ensures
            old(self).undone@.len() == 0 ==> r is None && *final(self) == *old(self),
            old(self).undone@.len() > 0 ==> {
                let revision = old(self).undone@.last();
                &&& r is Some
                &&& final(self).content() == rewound(old(self).content(), revision.steps@)
                &&& recounts_rewinding((r->0).0@, old(self).content(), revision.steps@)
                &&& same_selections((r->0).1, revision.after)
                &&& final(self).pending@ == old(self).pending@ + (r->0).0@
                &&& final(self).version == bumped(old(self).version, revision.steps@.len())
                &&& final(self).undone@ == old(self).undone@.drop_last()
                &&& final(self).done@ == old(self).done@.push(revision)
                &&& *final(self) == (Document {
                    rope: final(self).rope,
                    version: final(self).version,
                    pending: final(self).pending,
                    done: final(self).done,
                    undone: final(self).undone,
                    ..*old(self)
                })
            },
    {
        if self.undone.len() == 0 {
            return None;
        }
        let revision = self.undone.pop().unwrap();
        let ghost steps = revision.steps@;
        let ghost t = self.content();
        let mut edits: Vec<AppliedEdit> = Vec::new();
        let n = revision.steps.len();
        let mut m: usize = 0;
        assert(self.pending@ =~= old(self).pending@ + edits@);
        assert(steps.take(0) =~= Seq::<Step>::empty());
        while m < n
            invariant
                m <= n,
                n == steps.len(),
                steps == revision.steps@,
                t == old(self).content(),
                self.content() == rewound(t, steps.take(m as int)),
                recounts_rewinding(edits@, t, steps.take(m as int)),
                self.pending@ == old(self).pending@ + edits@,
                self.version == bumped(old(self).version, m as nat),
                self.undone@ == old(self).undone@.drop_last(),
                *self == (Document {
                    rope: self.rope,
                    version: self.version,
                    pending: self.pending,
                    undone: self.undone,
                    ..*old(self)
                }),
            decreases n - m,
        {
            let ghost was = edits@;
            let (mut more, _) = self.run(&revision.steps[m].changes);
            let ghost extra = more@;
            edits.append(&mut more);
            proof {
                assert(edits@ =~= was + extra);
                assert(edits@.skip(was.len() as int) =~= extra);
                assert(edits@.take(was.len() as int) =~= was);
                assert(steps.take(m + 1).drop_last() =~= steps.take(m as int));
                assert(old(self).pending@ + was + extra =~= old(self).pending@ + edits@);
            }
            m = m + 1;
        }
        assert(steps.take(n as int) =~= steps);
        let after = revision.after.copy();
        self.done.push(revision);
        Some((edits, after))
    }

    /// Whether there is anything that has not been saved.
    pub fn is_modified(&self) -> (yes: bool)
        ensures
            yes == self.unsaved(),
    {
        match self.saved_at {
            Some(at) => at != self.done.len(),
            None => true,
        }
    }

    /// Take the edits nothing has looked at yet.
    pub fn take_pending(&mut self) -> (edits: Vec<AppliedEdit>)
        ensures
            edits@ == old(self).pending@,
            final(self).pending@.len() == 0,
            *final(self) == (Document { pending: final(self).pending, ..*old(self) }),
    {
        let mut edits: Vec<AppliedEdit> = Vec::new();
        std::mem::swap(&mut edits, &mut self.pending);
        edits
    }

    pub fn len_chars(&self) -> (n: usize)
        ensures
            n == self.content().len(),
    {
        self.rope.len_chars()
    }

    pub fn len_lines(&self) -> (n: usize)
        ensures
            n == line_count(self.content()),
    {
        self.rope.len_lines()
    }

    pub fn text(&self) -> (s: String)
        ensures
            s@ == self.content(),
    {
        whole(&self.rope)
    }

    /// The characters of a range, as far as there are any.
    pub fn slice(&self, range: Range) -> (s: String)
        ensures
            s@ == selected(self.content(), range),
    {
        let len = self.rope.len_chars();
        let from = range.start();
        let to = range.end();
        slice(
            &self.rope,
            if from <= len { from } else { len },
            if to <= len { to } else { len },
        )
    }

    /// The position of a line and a column counted in characters, no further
    /// on than the end of the line, on the last line where there are fewer.
    pub fn char_at_point(&self, line: usize, column: usize) -> (at: usize)
        ensures
            ({
                let t = self.content();
                let l = least(line as int, line_count(t) - 1) as nat;
                at == least(start_of_line(t, l) + column, end_of_line(t, l))
            }),
    {
        let last = self.rope.len_lines() - 1;
        let line: usize = if line <= last { line } else { last };
        let start = line_start(&self.rope, line);
        let end = line_end(&self.rope, line);
        let at = start.saturating_add(column);
        if at <= end { at } else { end }
    }

    /// The position of a line and a column counted in 16-bit units.
    pub fn char_at_lsp_point(&self, line: usize, utf16_col: usize) -> (at: usize)
        ensures
            ({
                let t = self.content();
                let l = least(line as int, line_count(t) - 1) as nat;
                at == units_reach(
                    t,
                    start_of_line(t, l),
                    end_of_line(t, l),
                    0,
                    utf16_col as int,
                )
            }),
            at <= self.content().len(),
    {
        let ghost t = self.content();
        let last = self.rope.len_lines() - 1;
        let line: usize = if line <= last { line } else { last };
        proof {
            lemma_line_bounds(t, line as nat);
        }
        let start = line_start(&self.rope, line);
        let end = line_end(&self.rope, line);
        let bytes = self.rope.char_to_byte(end);
        let mut at: usize = start;
        let mut col: usize = 0;
        while at < end && col < utf16_col
            invariant
                t == self.content(),
                start <= at <= end <= t.len(),
                col == units_between(t, start as int, at as int),
                bytes == bytes_before(t, end as int),
                units_reach(t, start as int, end as int, 0, utf16_col as int) == units_reach(
                    t,
                    at as int,
                    end as int,
                    col as int,
                    utf16_col as int,
                ),
            decreases end - at,
        {
            proof {
                lemma_units_fit(t, start as int, at + 1);
                lemma_bytes_grow(t, at + 1, end as int);
            }
            col = col + self.rope.char(at).len_utf16();
            at = at + 1;
        }
        at
    }

    // ---- Breakpoints ----

    /// The line that a breakpoint is on.
    pub open spec fn line_of_breakpoint(&self, at: usize) -> nat {
        line_at(self.content(), least(at as int, self.content().len() as int))
    }

    /// Whether a line has a breakpoint on it.
    pub open spec fn stops_on(&self, line: usize) -> bool {
        exists|i: int|
            0 <= i < self.breakpoints@.len() && self.line_of_breakpoint(#[trigger] self.breakpoints@[i])
                == line
    }

    /// Which lines have a breakpoint on them, in order and without repeats.
    pub fn breakpoint_lines(&self) -> (lines: Vec<usize>)
        ensures
            strictly_ascending(lines@),
            forall|line: usize| lines@.contains(line) <==> self.stops_on(line),
    {
        let mut all: Vec<usize> = Vec::new();
        let mut i: usize = 0;
        while i < self.breakpoints.len()
            invariant
                i <= self.breakpoints@.len(),
                all@.len() == i,
                forall|j: int|
                    0 <= j < i ==> (#[trigger] all@[j]) == self.line_of_breakpoint(
                        self.breakpoints@[j],
                    ),
            decreases self.breakpoints@.len() - i,
        {
            all.push(line_of(&self.rope, self.breakpoints[i]));
            i = i + 1;
        }
        let ordered = rank(&all);
        proof {
            lemma_ranked(all@);
        }
        let lines = once_each(&ordered);
        proof {
            broadcast use vstd::seq_lib::group_to_multiset_ensures;

            assert forall|line: usize| lines@.contains(line) <==> self.stops_on(line) by {
                assert(ordered@.contains(line) <==> all@.contains(line)) by {
                    assert(ordered@.to_multiset().count(line) == all@.to_multiset().count(line));
                }
                if all@.contains(line) {
                    let k = choose|k: int| 0 <= k < all@.len() && all@[k] == line;
                    assert(self.line_of_breakpoint(self.breakpoints@[k]) == line);
                }
                if self.stops_on(line) {
                    let k = choose|k: int|
                        0 <= k < self.breakpoints@.len() && self.line_of_breakpoint(
                            #[trigger] self.breakpoints@[k],
                        ) == line;
                    assert(all@[k] == line);
                }
            }
        }
        lines
    }

    pub fn has_breakpoint(&self, line: usize) -> (yes: bool)
        ensures
            yes == self.stops_on(line),
    {
        let mut i: usize = 0;
        while i < self.breakpoints.len()
            invariant
                i <= self.breakpoints@.len(),
                forall|j: int|
                    0 <= j < i ==> self.line_of_breakpoint(#[trigger] self.breakpoints@[j]) != line,
            decreases self.breakpoints@.len() - i,
        {
            if line_of(&self.rope, self.breakpoints[i]) == line {
                return true;
            }
            i = i + 1;
        }
        false
    }

    /// Put a breakpoint on a line, or take off what is there. Says whether
    /// one is there now.
    ///
    /// It is held by the position where the line begins, so that it moves
    /// with the text.
    pub fn toggle_breakpoint(&mut self, line: usize) -> (on: bool)
        ensures
            on == (line < line_count(old(self).content()) && !old(self).stops_on(line)),
            final(self).breakpoints@ == toggled_breakpoints(*old(self), line),
            *final(self) == (Document { breakpoints: final(self).breakpoints, ..*old(self) }),
    {
        if line >= self.rope.len_lines() {
            return false;
        }
        if self.has_breakpoint(line) {
            let ghost elsewhere = |at: usize| old(self).line_of_breakpoint(at) != line;
            let mut kept: Vec<usize> = Vec::new();
            let mut i: usize = 0;
            while i < self.breakpoints.len()
                invariant
                    i <= self.breakpoints@.len(),
                    *self == *old(self),
                    elsewhere == (|at: usize| old(self).line_of_breakpoint(at) != line),
                    kept@ == self.breakpoints@.take(i as int).filter(elsewhere),
                decreases self.breakpoints@.len() - i,
            {
                let at = self.breakpoints[i];
                proof {
                    reveal(Seq::filter);
                    assert(self.breakpoints@.take(i + 1).drop_last() =~= self.breakpoints@.take(
                        i as int,
                    ));
                }
                if line_of(&self.rope, at) != line {
                    kept.push(at);
                }
                i = i + 1;
            }
            assert(self.breakpoints@.take(i as int) =~= self.breakpoints@);
            self.breakpoints = kept;
            return false;
        }
        let mut more: Vec<usize> = Vec::new();
        let mut i: usize = 0;
        while i < self.breakpoints.len()
            invariant
                i <= self.breakpoints@.len(),
                *self == *old(self),
                more@ == self.breakpoints@.take(i as int),
            decreases self.breakpoints@.len() - i,
        {
            more.push(self.breakpoints[i]);
            i = i + 1;
        }
        assert(more@ =~= self.breakpoints@);
        more.push(line_start(&self.rope, line));
        self.breakpoints = rank(&more);
        true
    }

    // ---- The file on disk ----

    /// The text as it is written to disk: with a last line ending where one
    /// is wanted and there is none, and with the line endings the file had.
    pub fn text_to_save(&self, final_newline: bool) -> (s: String)
        ensures
            s@ == saved_text(self.content(), final_newline, self.crlf),
    {
        let mut chars = chars_of(whole(&self.rope).as_str());
        if final_newline && chars.len() > 0 && chars[chars.len() - 1] != '\n' {
            chars.push('\n');
        }
        if self.crlf {
            to_dos(&chars)
        } else {
            let n = chars.len();
            let s = string_of(&chars, 0, n);
            assert(s@ =~= chars@);
            s
        }
    }

    /// Say that what is in the document is what is on disk, without anything
    /// having been written. `now` is what the file looks like, for a document
    /// that has one.
    pub fn mark_saved(&mut self, now: Option<Stamp>)
        ensures
            ({
                let stamp = if old(self).path is Some { now } else { old(self).stamp };
                let mid = Document { done: final(self).done, ..*old(self) };
                &&& closed(*old(self), mid)
                &&& *final(self) == (Document {
                    saved_at: Some(old(self).done@.len() as usize),
                    stamp,
                    seen: stamp,
                    told: stamp,
                    settled: true,
                    on_disk: OnDisk::Same,
                    ..mid
                })
            }),
            !final(self).unsaved(),
    {
        self.close_revision();
        self.saved_at = Some(self.done.len());
        self.accept_disk(now);
    }

    /// Forget every revision. What is there now counts as saved.
    pub fn forget_history(&mut self)
        ensures
            final(self).done@.len() == 0,
            final(self).undone@.len() == 0,
            *final(self) == (Document {
                done: final(self).done,
                undone: final(self).undone,
                saved_at: Some(0),
                ..*old(self)
            }),
            !final(self).unsaved(),
    {
        self.done.clear();
        self.undone.clear();
        self.saved_at = Some(0);
    }

    /// Compare the file on disk, which looks like `now`, with what was read
    /// from it. It has settled when two looks in a row saw the same.
    pub fn check_disk(&mut self, now: Option<Stamp>) -> (is: OnDisk)
        ensures
            is == if old(self).path is None { OnDisk::Same } else { stands(old(self).stamp, now) },
            *final(self) == if old(self).path is None {
                *old(self)
            } else {
                Document {
                    on_disk: stands(old(self).stamp, now),
                    settled: old(self).seen == now,
                    seen: now,
                    ..*old(self)
                }
            },
    {
        if self.path.is_none() {
            return OnDisk::Same;
        }
        self.on_disk = match (self.stamp, now) {
            (None, None) => OnDisk::Same,
            (None, Some(_)) => OnDisk::Changed,
            (Some(_), None) => OnDisk::Gone,
            (Some(was), Some(is)) => if was == is { OnDisk::Same } else { OnDisk::Changed },
        };
        self.settled = same_stamp(self.seen, now);
        self.seen = now;
        self.on_disk
    }

    pub fn has_settled(&self) -> (yes: bool)
        ensures
            yes == self.settled,
    {
        self.settled
    }

    /// Whether the file has changed since somebody was last told about it.
    pub fn is_news(&self) -> (yes: bool)
        ensures
            yes == (self.told != self.seen),
    {
        !same_stamp(self.told, self.seen)
    }

    pub fn noted(&mut self)
        ensures
            *final(self) == (Document { told: old(self).seen, ..*old(self) }),
    {
        self.told = self.seen;
    }

    /// Take the file on disk, which looks like `now`, as the one that the
    /// document is in step with.
    pub fn accept_disk(&mut self, now: Option<Stamp>)
        ensures
            ({
                let stamp = if old(self).path is Some { now } else { old(self).stamp };
                *final(self) == (Document {
                    stamp,
                    seen: stamp,
                    told: stamp,
                    settled: true,
                    on_disk: OnDisk::Same,
                    ..*old(self)
                })
            }),
    {
        if self.path.is_some() {
            self.stamp = now;
        }
        self.seen = self.stamp;
        self.told = self.stamp;
        self.settled = true;
        self.on_disk = OnDisk::Same;
    }

    /// The text was filled in from a file that looked like `stamp`.
    pub fn took_from_disk(&mut self, stamp: Stamp)
        ensures
            ({
                let mid = Document { done: final(self).done, ..*old(self) };
                &&& closed(*old(self), mid)
                &&& *final(self) == (Document {
                    saved_at: Some(old(self).done@.len() as usize),
                    stamp: Some(stamp),
                    seen: Some(stamp),
                    told: Some(stamp),
                    settled: true,
                    on_disk: OnDisk::Same,
                    ..mid
                })
            }),
            !final(self).unsaved(),
    {
        self.close_revision();
        self.saved_at = Some(self.done.len());
        self.stamp = Some(stamp);
        self.seen = Some(stamp);
        self.told = Some(stamp);
        self.settled = true;
        self.on_disk = OnDisk::Same;
    }

    // ---- Colours ----

    /// Whether the text is more than is ever coloured.
    pub open spec fn too_large(&self) -> bool {
        bytes_before(self.content(), self.content().len() as int) > COLOUR_LIMIT
    }

    /// What an attempt at colouring comes to. `has_grammar` is whether the
    /// language has anything to colour with, `parsed` whether it got through
    /// the text, and `patient` whether it was given as long as it liked.
    pub open spec fn after_parse(
        self,
        patient: bool,
        has_grammar: bool,
        parsed: bool,
        now: u64,
    ) -> Document {
        let coloured = !self.too_large() && has_grammar && parsed;
        Document {
            coloured,
            colours_off: if coloured || !has_grammar {
                None
            } else if self.too_large() {
                Some("this file is very large")
            } else if patient {
                Some("this file parses too slowly")
            } else {
                Some("colouring this file again")
            },
            recolour: if self.too_large() {
                None
            } else if has_grammar && !parsed && !patient {
                Some(least(now + RECOLOUR_AFTER, u64::MAX as int) as u64)
            } else {
                self.recolour
            },
            ..self
        }
    }

    fn parse_now(&mut self, patient: bool, has_grammar: bool, parsed: bool, now: u64)
        ensures
            *final(self) == old(self).after_parse(patient, has_grammar, parsed, now),
    {
        if self.rope.len_bytes() > COLOUR_LIMIT {
            self.coloured = false;
            self.recolour = None;
            self.colours_off = if has_grammar { Some("this file is very large") } else { None };
            return;
        }
        self.coloured = has_grammar && parsed;
        self.colours_off = if has_grammar && !parsed {
            Some(
                if patient {
                    "this file parses too slowly"
                } else {
                    "colouring this file again"
                },
            )
        } else {
            None
        };
        if has_grammar && !parsed && !patient {
            self.recolour = Some(now.saturating_add(RECOLOUR_AFTER));
        }
    }

    /// Colour the text from the start.
    pub fn reparse(&mut self, has_grammar: bool, parsed: bool, now: u64)
        ensures
            *final(self) == (Document { recolour: None, recolour_tries: 0, ..*old(self) }).after_parse(
                false,
                has_grammar,
                parsed,
                now,
            ),
    {
        self.recolour = None;
        self.recolour_tries = 0;
        self.parse_now(false, has_grammar, parsed, now);
    }

    /// Whether it is time to try colouring it again.
    pub fn wants_recolour(&self, now: u64) -> (yes: bool)
        ensures
            yes == (self.recolour is Some && self.recolour->0 <= now),
    {
        match self.recolour {
            Some(due) => due <= now,
            None => false,
        }
    }

    /// Try colouring it again. After a few goes that is left alone.
    pub fn recolour(&mut self, has_grammar: bool, parsed: bool, now: u64)
        ensures
            ({
                let mid = (Document { recolour: None, ..*old(self) }).after_parse(
                    true,
                    has_grammar,
                    parsed,
                    now,
                );
                let tries = least(mid.recolour_tries + 1, u8::MAX as int) as u8;
                *final(self) == if mid.coloured {
                    Document { recolour_tries: 0, ..mid }
                } else if tries < RECOLOUR_TRIES {
                    Document {
                        recolour_tries: tries,
                        colours_off: Some("colouring this file again"),
                        recolour: Some(
                            least(now + RECOLOUR_AFTER * tries, u64::MAX as int) as u64,
                        ),
                        ..mid
                    }
                } else {
                    Document { recolour_tries: tries, ..mid }
                }
            }),
    {
        self.recolour = None;
        self.parse_now(true, has_grammar, parsed, now);
        if self.coloured {
            self.recolour_tries = 0;
            return;
        }
        self.recolour_tries = self.recolour_tries.saturating_add(1);
        if self.recolour_tries < RECOLOUR_TRIES {
            self.colours_off = Some("colouring this file again");
            self.recolour = Some(
                now.saturating_add(RECOLOUR_AFTER * (self.recolour_tries as u64)),
            );
        }
    }

    /// The colours could not be brought up to date with an edit.
    pub fn fell_behind(&mut self, now: u64)
        ensures
            *final(self) == if old(self).coloured {
                Document {
                    coloured: false,
                    colours_off: Some("colouring this file again"),
                    recolour: Some(least(now + RECOLOUR_AFTER, u64::MAX as int) as u64),
                    ..*old(self)
                }
            } else {
                *old(self)
            },
    {
        if self.coloured {
            self.coloured = false;
            self.colours_off = Some("colouring this file again");
            self.recolour = Some(now.saturating_add(RECOLOUR_AFTER));
        }
    }

    /// Fill the document with a text, outside the history.
    pub fn set_text(&mut self, text: &str, has_grammar: bool, parsed: bool, now: u64)
        ensures
            final(self).content() == text@,
            *final(self) == (Document {
                rope: final(self).rope,
                version: old(self).version.wrapping_add(1),
                recolour: None,
                recolour_tries: 0,
                ..*old(self)
            }).after_parse(false, has_grammar, parsed, now),
    {
        self.rope = ropey::Rope::from_str(text);
        self.version = self.version.wrapping_add(1);
        self.reparse(has_grammar, parsed, now);
    }

    /// A person has said what language it is.
    pub fn set_language(&mut self, language: LangId, has_grammar: bool, parsed: bool, now: u64)
        ensures
            *final(self) == (Document {
                language,
                language_chosen: true,
                recolour: None,
                recolour_tries: 0,
                ..*old(self)
            }).after_parse(false, has_grammar, parsed, now),
    {
        self.language = language;
        self.language_chosen = true;
        self.reparse(has_grammar, parsed, now);
    }

    /// A document with nothing in it and no file behind it.
    pub fn scratch(id: DocId, name: String, indent: Indent) -> (d: Self)
        ensures
            d.content().len() == 0,
            d.id == id,
            d.name == name,
            d.indent == indent,
            d.path is None && d.origin is None && d.panel is None && d.hint is None,
            d.language == LangId(0) && !d.language_chosen,
            !d.crlf && d.had_final_newline && !d.read_only,
            d.version == 0,
            d.diagnostics@.len() == 0 && d.breakpoints@.len() == 0 && d.pending@.len() == 0,
            !d.coloured && d.colours_off is None && d.recolour is None && d.recolour_tries == 0,
            d.stamp is None && d.seen is None && d.told is None && d.settled,
            d.on_disk == OnDisk::Same,
            d.done@.len() == 0 && d.undone@.len() == 0 && d.saved_at == Some(0usize),
            d.faithful() && sealed(d) && !d.unsaved(),
    {
        Document {
            id,
            rope: ropey::Rope::new(),
            path: None,
            name,
            language: LangId(0),
            language_chosen: false,
            crlf: false,
            had_final_newline: true,
            indent,
            version: 0,
            read_only: false,
            origin: None,
            diagnostics: Vec::new(),
            panel: None,
            breakpoints: Vec::new(),
            hint: None,
            coloured: false,
            colours_off: None,
            recolour: None,
            recolour_tries: 0,
            stamp: None,
            on_disk: OnDisk::Same,
            seen: None,
            settled: true,
            told: None,
            done: Vec::new(),
            undone: Vec::new(),
            saved_at: Some(0),
            pending: Vec::new(),
        }
    }
}

/// How much text, in bytes, is ever coloured.
pub const COLOUR_LIMIT: usize = 4194304;

/// How long to leave it, in milliseconds, before colouring a text again.
pub const RECOLOUR_AFTER: u64 = 750;

/// How often colouring a text again is tried.
pub const RECOLOUR_TRIES: u8 = 4;

/// What a range selects of a text.
pub open spec fn selected(t: Seq<char>, range: Range) -> Seq<char> {
    t.subrange(least(range.lo(), t.len() as int), least(range.hi(), t.len() as int))
}

/// The breakpoints of a document once the one on a line has been put there, or
/// taken away where there was one. A line that is not there gets none.
pub open spec fn toggled_breakpoints(d: Document, line: usize) -> Seq<usize> {
    if line >= line_count(d.content()) {
        d.breakpoints@
    } else if d.stops_on(line) {
        d.breakpoints@.filter(|at: usize| d.line_of_breakpoint(at) != line)
    } else {
        ranked(d.breakpoints@.push(start_of_line(d.content(), line as nat) as usize))
    }
}

/// The first position from `i` up to `end` by which `goal` 16-bit units have
/// gone by.
pub open spec fn units_reach(t: Seq<char>, i: int, end: int, col: int, goal: int) -> int
    decreases end - i,
{
    if i < end && col < goal {
        units_reach(t, i + 1, end, col + utf16_width(t[i]), goal)
    } else {
        i
    }
}

/// A text with a last line ending, where one is wanted.
pub open spec fn finished(t: Seq<char>, final_newline: bool) -> Seq<char> {
    if final_newline && t.len() > 0 && t.last() != '\n' {
        t.push('\n')
    } else {
        t
    }
}

/// A text as it is written to disk.
pub open spec fn saved_text(t: Seq<char>, final_newline: bool, crlf: bool) -> Seq<char> {
    if crlf {
        dos(finished(t, final_newline))
    } else {
        finished(t, final_newline)
    }
}

/// A text as it is taken from disk.
pub open spec fn opened_text(t: Seq<char>) -> Seq<char> {
    if has_crlf(t) {
        unix(t)
    } else {
        t
    }
}

/// How a file that looks like `now` stands to what was read when it looked
/// like `was`.
pub open spec fn stands(was: Option<Stamp>, now: Option<Stamp>) -> OnDisk {
    match (was, now) {
        (None, None) => OnDisk::Same,
        (None, Some(_)) => OnDisk::Changed,
        (Some(_), None) => OnDisk::Gone,
        (Some(a), Some(b)) => if a == b { OnDisk::Same } else { OnDisk::Changed },
    }
}

fn same_stamp(a: Option<Stamp>, b: Option<Stamp>) -> (yes: bool)
    ensures
        yes == (a == b),
{
    match (a, b) {
        (None, None) => true,
        (Some(a), Some(b)) => a == b,
        _ => false,
    }
}

/// What is saved is what is read back: a text written to disk and taken from
/// it again is the text, with the last line ending that was asked for. Where
/// it is not written the way Windows does, that leaves out a text that holds
/// such an ending all the same.
pub proof fn law_a_saved_text_reads_back(t: Seq<char>, final_newline: bool, crlf: bool)
    requires
        crlf || !has_crlf(finished(t, final_newline)),
    ensures
        opened_text(saved_text(t, final_newline, crlf)) == finished(t, final_newline),
{
    let f = finished(t, final_newline);
    lemma_unix_of_dos(f);
    if crlf && !has_crlf(dos(f)) {
        lemma_unix_of_unix(dos(f));
    }
}

/// A position told to a language server comes back as the same position.
pub proof fn law_a_position_survives_the_language_server(t: Seq<char>, at: int)
    requires
        0 <= at <= t.len(),
        at <= end_of_line(t, line_at(t, at)),
    ensures
        units_reach(
            t,
            start_of_line(t, line_at(t, at)),
            end_of_line(t, line_at(t, at)),
            0,
            lsp_point(t, at).1,
        ) == at,
{
    lemma_line_of(t, at);
    let start = start_of_line(t, line_at(t, at));
    lemma_line_bounds(t, line_at(t, at));
    lemma_units_reach(t, start, start, at, end_of_line(t, line_at(t, at)));
}

proof fn lemma_units_grow(t: Seq<char>, from: int, i: int, j: int)
    requires
        from <= i <= j,
    ensures
        units_between(t, from, i) + (j - i) <= units_between(t, from, j),
    decreases j - i,
{
    if i < j {
        lemma_units_grow(t, from, i, j - 1);
    }
}

proof fn lemma_units_reach(t: Seq<char>, start: int, i: int, at: int, end: int)
    requires
        0 <= start <= i <= at <= end <= t.len(),
    ensures
        units_reach(
            t,
            i,
            end,
            units_between(t, start, i) as int,
            units_between(t, start, at) as int,
        ) == at,
    decreases at - i,
{
    lemma_units_grow(t, start, i, at);
    if i < at {
        lemma_units_reach(t, start, i + 1, at, end);
    }
}

/// A file that is still being written has not settled, and one that two
/// looks in a row see the same has.
pub proof fn law_two_looks_alike_are_settled(
    was: Document,
    mid: Document,
    is: Document,
    one: Option<Stamp>,
    two: Option<Stamp>,
)
    requires
        was.path is Some,
        mid == (Document {
            on_disk: stands(was.stamp, one),
            settled: was.seen == one,
            seen: one,
            ..was
        }),
        is == (Document {
            on_disk: stands(mid.stamp, two),
            settled: mid.seen == two,
            seen: two,
            ..mid
        }),
    ensures
        is.settled <==> one == two,
        is.on_disk == stands(was.stamp, two),
{
}

/// Whether two hold the same cursors.
pub open spec fn same_selections(a: Selections, b: Selections) -> bool {
    a.ranges@ == b.ranges@ && a.primary == b.primary
}

/// Whether a change made now becomes part of the last revision: it was made
/// a moment ago and is still open.
pub open spec fn joins(was: Document, mergeable: bool, now: u64) -> bool {
    &&& mergeable
    &&& was.done@.len() > 0
    &&& was.done@.last().open
    &&& now - was.done@.last().at < MERGE_WINDOW
}

/// Whether a step holds some changes and what takes them back.
pub open spec fn holds(s: Step, t: Seq<char>, cs: Seq<Patch>) -> bool {
    patches(s.changes@) == cs && patches(s.inverse@) == inverse(t, cs)
}

/// What doing a set of changes does to a document.
pub open spec fn applied(
    was: Document,
    is: Document,
    cs: Seq<Patch>,
    selections: Selections,
    mergeable: bool,
    now: u64,
    edits: Seq<AppliedEdit>,
) -> bool {
    let a = was.done@.last();
    let b = is.done@.last();
    if cs.len() == 0 {
        is == was && edits.len() == 0
    } else {
        &&& is.content() == changed(was.content(), cs)
        &&& is.content().len() <= usize::MAX
        &&& recounts(edits, was.content(), cs)
        &&& is.pending@ == was.pending@ + edits
        &&& is.version == was.version.wrapping_add(1)
        &&& is.undone@.len() == 0
        &&& is == (Document {
            rope: is.rope,
            version: is.version,
            pending: is.pending,
            done: is.done,
            undone: is.undone,
            saved_at: is.saved_at,
            ..was
        })
        &&& joins(was, mergeable, now) ==> {
            &&& is.done@.len() == was.done@.len()
            &&& is.done@.drop_last() == was.done@.drop_last()
            &&& b.steps@.len() == a.steps@.len() + 1
            &&& b.steps@.drop_last() == a.steps@
            &&& holds(b.steps@.last(), was.content(), cs)
            &&& b == (Revision { steps: b.steps, at: now, ..a })
            &&& is.saved_at == was.saved_at
        }
        &&& !joins(was, mergeable, now) ==> {
            &&& is.done@.len() == was.done@.len() + 1
            &&& is.done@.drop_last() == was.done@
            &&& b.steps@.len() == 1
            &&& holds(b.steps@[0], was.content(), cs)
            &&& same_selections(b.before, selections)
            &&& same_selections(b.after, selections)
            &&& b.at == now
            &&& b.open == mergeable
            &&& is.saved_at == if was.saved_at is Some && was.saved_at->0 >= is.done@.len() {
                None
            } else {
                was.saved_at
            }
        }
    }
}

/// What closing the last revision does to a document.
pub open spec fn closed(was: Document, is: Document) -> bool {
    if was.done@.len() == 0 {
        is == was
    } else {
        &&& is.done@.len() == was.done@.len()
        &&& is.done@.drop_last() == was.done@.drop_last()
        &&& is.done@.last() == (Revision { open: false, ..was.done@.last() })
        &&& is == (Document { done: is.done, ..was })
    }
}

/// What recording the cursors does to a document.
pub open spec fn recorded(was: Document, is: Document, after: Selections) -> bool {
    if was.done@.len() == 0 {
        is == was
    } else {
        &&& is.done@.len() == was.done@.len()
        &&& is.done@.drop_last() == was.done@.drop_last()
        &&& is.done@.last() == (Revision { after: is.done@.last().after, ..was.done@.last() })
        &&& same_selections(is.done@.last().after, after)
        &&& is == (Document { done: is.done, ..was })
    }
}

/// Taking steps back one at a time is taking them back.
proof fn lemma_unwound(t: Seq<char>, steps: Seq<Step>, m: nat)
    requires
        m <= steps.len(),
    ensures
        unwound(t, steps) == unwound(taken_back(t, steps, m), steps.take(steps.len() - m)),
    decreases m,
{
    if m == 0 {
        assert(steps.take(steps.len() as int) =~= steps);
    } else {
        lemma_unwound(t, steps, (m - 1) as nat);
        let less = steps.take(steps.len() - (m - 1));
        assert(less.last() == steps[steps.len() - m]);
        assert(less.drop_last() =~= steps.take(steps.len() - m));
    }
}

// ---------------------------------------------------------------------------
// Laws of the history
// ---------------------------------------------------------------------------

/// Steps that led to a text lead to it again from where taking them back
/// ends.
proof fn lemma_rewound(t: Seq<char>, steps: Seq<Step>)
    requires
        led_to(t, steps),
    ensures
        rewound(unwound(t, steps), steps) == t,
    decreases steps.len(),
{
    if steps.len() > 0 {
        lemma_rewound(changed(t, patches(steps.last().inverse@)), steps.drop_last());
    }
}

/// An edit keeps the history true: after changes that are in order and
/// within the text, every undo still leads back to the text that was there.
pub proof fn law_an_edit_keeps_the_history_true(
    was: Document,
    is: Document,
    cs: Seq<Patch>,
    selections: Selections,
    mergeable: bool,
    now: u64,
    edits: Seq<AppliedEdit>,
)
    requires
        was.faithful(),
        fits(cs, was.content().len() as int),
        applied(was, is, cs, selections, mergeable, now, edits),
    ensures
        is.faithful(),
        cs.len() > 0 && !joins(was, mergeable, now) ==> unwound(
            is.content(),
            is.done@.last().steps@,
        ) == was.content(),
        cs.len() > 0 && joins(was, mergeable, now) ==> unwound(
            is.content(),
            is.done@.last().steps@,
        ) == unwound(was.content(), was.done@.last().steps@),
{
    if cs.len() > 0 {
        let t = was.content();
        law_undo_puts_the_text_back(t, cs);
        let steps = is.done@.last().steps@;
        let back = changed(is.content(), patches(steps.last().inverse@));
        assert(back == t);
        if !joins(was, mergeable, now) {
            assert(steps.last() == steps[0]);
            assert(steps.drop_last() =~= Seq::<Step>::empty());
            assert(unwound(back, steps.drop_last()) == t);
            assert(led_to(back, steps.drop_last()));
        }
        assert(unwound(is.content(), steps) == unwound(t, steps.drop_last()));
        assert(led_to(is.content(), steps));
        assert(behind(is.content(), is.done@));
    }
}

/// Undo keeps the history true, and redo after it brings the same text back.
pub proof fn law_redo_brings_back_what_undo_took(
    t: Seq<char>,
    done: Seq<Revision>,
    undone: Seq<Revision>,
    taken: Revision,
)
    requires
        done.len() > 0,
        behind(t, done),
        ahead(t, undone),
        taken.steps@ == done.last().steps@,
    ensures
        rewound(unwound(t, done.last().steps@), taken.steps@) == t,
        behind(unwound(t, done.last().steps@), done.drop_last()),
        ahead(unwound(t, done.last().steps@), undone.push(taken)),
{
    lemma_rewound(t, done.last().steps@);
    assert(undone.push(taken).drop_last() =~= undone);
}

/// Redo keeps the history true, and undo after it brings the same text back.
pub proof fn law_undo_takes_back_what_redo_brought(
    t: Seq<char>,
    done: Seq<Revision>,
    undone: Seq<Revision>,
)
    requires
        undone.len() > 0,
        behind(t, done),
        ahead(t, undone),
    ensures
        unwound(rewound(t, undone.last().steps@), undone.last().steps@) == t,
        behind(rewound(t, undone.last().steps@), done.push(undone.last())),
        ahead(rewound(t, undone.last().steps@), undone.drop_last()),
{
    assert(done.push(undone.last()).drop_last() =~= done);
}

/// Whether nothing that was saved can still be added to.
pub open spec fn sealed(d: Document) -> bool {
    &&& d.saved_at is Some && 0 < d.saved_at->0 <= d.done@.len() ==> !d.done@[d.saved_at->0 - 1].open
    &&& forall|i: int| 0 <= i < d.undone@.len() ==> !(#[trigger] d.undone@[i]).open
}

/// An edit always leaves something to save, and undoing it leaves what there
/// was to save before.
pub proof fn law_an_edit_is_something_to_save(
    was: Document,
    is: Document,
    cs: Seq<Patch>,
    selections: Selections,
    mergeable: bool,
    now: u64,
    edits: Seq<AppliedEdit>,
)
    requires
        sealed(was),
        applied(was, is, cs, selections, mergeable, now, edits),
        cs.len() > 0,
    ensures
        sealed(is),
        is.unsaved(),
        !joins(was, mergeable, now) && was.saved_at == Some(was.done@.len() as usize)
            && was.done@.len() < usize::MAX ==> is.saved_at == Some(is.done@.drop_last().len() as usize),
{
    if joins(was, mergeable, now) {
        if is.saved_at is Some && 0 < is.saved_at->0 < is.done@.len() {
            let i = is.saved_at->0 - 1;
            assert(is.done@.drop_last()[i] == was.done@.drop_last()[i]);
        }
    } else if is.saved_at is Some && 0 < is.saved_at->0 <= was.done@.len() {
        let i = is.saved_at->0 - 1;
        assert(is.done@.drop_last()[i] == was.done@[i]);
    }
}

/// A position walked through every edit of a set stays within the text. The
/// end of the text goes to the end of the text, unless something was put in
/// at the very end: that lands after it.
pub proof fn law_positions_stay_in_the_text(
    es: Seq<AppliedEdit>,
    t: Seq<char>,
    cs: Seq<Patch>,
    at: int,
    k: nat,
)
    requires
        recounts(es, t, cs),
        k <= es.len(),
        0 <= at <= t.len(),
    ensures
        0 <= walked(es, at, k) <= made(t, cs, k).len(),
        at == t.len() && (forall|j: int|
            0 <= j < k ==> (#[trigger] es[j]).from < made(t, cs, j as nat).len()) ==> walked(es, at, k)
            == made(t, cs, k).len(),
    decreases k,
{
    if k > 0 {
        law_positions_stay_in_the_text(es, t, cs, at, (k - 1) as nat);
        let was = made(t, cs, (k - 1) as nat);
        assert(describes(es[k - 1], was, cs[cs.len() - k]));
    }
}

/// A position walked through the first `k` edits.
pub open spec fn walked(es: Seq<AppliedEdit>, at: int, k: nat) -> int
    decreases k,
{
    if k == 0 {
        at
    } else {
        let e = es[k - 1];
        mapped(e.from as int, e.to as int, e.inserted as int, walked(es, at, (k - 1) as nat))
    }
}

/// Toggling a breakpoint changes whether its line has one, and no other line.
pub proof fn law_a_breakpoint_goes_on_and_comes_off(was: Document, is: Document, line: usize)
    requires
        line < line_count(was.content()),
        was.content().len() <= usize::MAX,
        is == (Document { breakpoints: is.breakpoints, ..was }),
        is.breakpoints@ == toggled_breakpoints(was, line),
    ensures
        is.stops_on(line) == !was.stops_on(line),
        forall|other: usize| other != line ==> #[trigger] is.stops_on(other) == was.stops_on(other),
{
    broadcast use vstd::seq_lib::group_to_multiset_ensures;

    let old_ones = was.breakpoints@;
    let new_ones = is.breakpoints@;
    assert(is.content() == was.content());
    let away = |at: usize| was.line_of_breakpoint(at) != line;
    let start = start_of_line(was.content(), line as nat) as usize;
    if was.stops_on(line) {
        assert(new_ones == old_ones.filter(away));
    } else {
        let more = old_ones.push(start);
        crate::order::lemma_ranked(more);
        lemma_line_starts_on_itself(was.content(), line as nat);
        assert(more.contains(start)) by {
            assert(more[old_ones.len() as int] == start);
        }
        assert(more.to_multiset().count(start) > 0);
        assert(new_ones.to_multiset().count(start) > 0);
        assert(new_ones.contains(start));
    }
    assert forall|at: usize| new_ones.contains(at) implies old_ones.contains(at) || (
    !was.stops_on(line) && at == start) by {
        if was.stops_on(line) {
            lemma_filtered(old_ones, away, at);
        } else {
            let more = old_ones.push(start);
            assert(new_ones.to_multiset().count(at) > 0);
            assert(more.to_multiset().count(at) > 0);
            let k = choose|k: int| 0 <= k < more.len() && more[k] == at;
            if k < old_ones.len() {
                assert(old_ones[k] == at);
            }
        }
    }
    assert forall|at: usize| old_ones.contains(at) && (was.stops_on(line) ==> away(at)) implies
        new_ones.contains(at) by {
        if was.stops_on(line) {
            lemma_filtered(old_ones, away, at);
        } else {
            let more = old_ones.push(start);
            let k = choose|k: int| 0 <= k < old_ones.len() && old_ones[k] == at;
            assert(more[k] == at);
            assert(more.contains(at));
            assert(more.to_multiset().count(at) > 0);
            assert(new_ones.to_multiset().count(at) > 0);
        }
    }
    assert forall|other: usize| #[trigger] is.stops_on(other) == (if other == line {
        !was.stops_on(line)
    } else {
        was.stops_on(other)
    }) by {
        if is.stops_on(other) {
            let i = choose|i: int|
                0 <= i < new_ones.len() && is.line_of_breakpoint(#[trigger] new_ones[i]) == other;
            let at = new_ones[i];
            assert(new_ones.contains(at));
            if was.stops_on(line) {
                lemma_filtered(old_ones, away, at);
            }
            if old_ones.contains(at) {
                let k = choose|k: int| 0 <= k < old_ones.len() && old_ones[k] == at;
                assert(was.line_of_breakpoint(old_ones[k]) == other);
            }
        }
        if was.stops_on(other) && other != line {
            let i = choose|i: int|
                0 <= i < old_ones.len() && was.line_of_breakpoint(#[trigger] old_ones[i]) == other;
            let at = old_ones[i];
            assert(old_ones.contains(at));
            assert(new_ones.contains(at));
            let k = choose|k: int| 0 <= k < new_ones.len() && new_ones[k] == at;
            assert(is.line_of_breakpoint(new_ones[k]) == other);
        }
        if other == line && !was.stops_on(line) {
            let k = choose|k: int| 0 <= k < new_ones.len() && new_ones[k] == start;
            assert(is.line_of_breakpoint(new_ones[k]) == line);
        }
    }
}

proof fn lemma_filtered(s: Seq<usize>, keep: spec_fn(usize) -> bool, x: usize)
    ensures
        s.filter(keep).contains(x) <==> s.contains(x) && keep(x),
    decreases s.len(),
{
    reveal(Seq::filter);
    if s.len() > 0 {
        let less = s.drop_last();
        lemma_filtered(less, keep, x);
        let kept = s.filter(keep);
        if s.contains(x) {
            let k = choose|k: int| 0 <= k < s.len() && s[k] == x;
            if k < less.len() {
                assert(less[k] == x);
            }
        }
        if less.contains(x) {
            let k = choose|k: int| 0 <= k < less.len() && less[k] == x;
            assert(s[k] == x);
        }
        if keep(s.last()) {
            assert(kept == less.filter(keep).push(s.last()));
            assert(kept[kept.len() - 1] == s.last());
            if less.filter(keep).contains(x) {
                let k = choose|k: int| 0 <= k < less.filter(keep).len() && less.filter(keep)[k] == x;
                assert(kept[k] == x);
            }
            if kept.contains(x) {
                let k = choose|k: int| 0 <= k < kept.len() && kept[k] == x;
                if k < less.filter(keep).len() {
                    assert(less.filter(keep)[k] == x);
                } else {
                    assert(s[s.len() - 1] == x);
                }
            }
        }
    }
}

/// A position that is carried through an edit stays at the character that it was at:
/// one before what is replaced stays where it is, and one behind it goes along with
/// the text.
pub proof fn law_a_position_stays_at_its_character(t: Seq<char>, c: Patch, at: int)
    requires
        0 <= c.from <= c.to <= t.len(),
        0 <= at < t.len(),
        at < c.from || c.to <= at,
        !(at == c.from && c.from == c.to),
    ensures
        ({
            let to = mapped(c.from, c.to, c.text.len() as int, at);
            let u = crate::change::edited(t, c);
            &&& 0 <= to < u.len()
            &&& u[to] == t[at]
        }),
{
}

/// A text that is saved the way Windows does it has a carriage return before every line
/// feed, and any other has what it has. One that is to end in a line feed does, unless
/// it is empty.
pub proof fn law_a_saved_text_ends_its_lines_as_asked(
    t: Seq<char>,
    final_newline: bool,
    crlf: bool,
    i: int,
)
    ensures
        ({
            let s = saved_text(t, final_newline, crlf);
            &&& crlf && 0 <= i < s.len() && s[i] == '\n' ==> i > 0 && s[i - 1] == '\r'
            &&& final_newline && t.len() > 0 ==> s.len() > 0 && s.last() == '\n'
            &&& !crlf ==> s == t || final_newline && s == t.push('\n')
            &&& !crlf && !final_newline ==> s == t
        }),
{
    lemma_dos(finished(t, final_newline), i);
}

proof fn lemma_dos(t: Seq<char>, i: int)
    ensures
        0 <= i < dos(t).len() && dos(t)[i] == '\n' ==> i > 0 && dos(t)[i - 1] == '\r',
        t.len() > 0 ==> dos(t).len() > 0 && dos(t).last() == t.last(),
    decreases t.len(),
{
    if t.len() > 0 {
        lemma_dos(t.drop_last(), i);
    }
}

} // verus!
