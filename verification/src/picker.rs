//! The list that opens over everything: rows, a box to narrow them with, and a
//! way to choose.
use vstd::prelude::*;

use nucleo_matcher::pattern::{CaseMatching, Normalization, Pattern};
use nucleo_matcher::{Config, Matcher, Utf32Str};

use crate::chars::{chars_of, whitespace};
use crate::cmd::Cmd;
use crate::doc::{DocId, Severity};
use crate::json::Json;
use crate::lang::LangId;
use crate::lsp::ServerId;
use crate::menu::{around, Area};
use crate::rank::{apart, better, put_in_order};
use crate::strings::{piece, text_of, trim, trimmed};

verus! {

// ---------------------------------------------------------------------------
// Rows
// ---------------------------------------------------------------------------

/// What choosing a row does.
#[derive(Debug)]
pub enum Choice {
    /// Run a command, as though its key had been pressed.
    Command(Cmd),
    /// Open a file.
    Path(String),
    /// Switch to a buffer that is already open.
    Buffer(DocId),
    /// Somewhere in the file one is in.
    Here(usize),
    /// Somewhere in some file.
    There { path: String, line: usize, column: usize },
    Theme(String),
    Language(LangId),
    /// Something that a language server offered to do about the code.
    Action(ServerId, Json),
    /// A setting, changed in place.
    Setting(&'static str),
}

/// One row.
#[derive(Debug)]
pub struct Row {
    /// What is matched against and shown first.
    pub label: String,
    /// The quieter half: a path, a type, a description.
    pub detail: Option<String>,
    /// A short word on the left, in colour.
    pub tag: Option<String>,
    /// The key that also does this.
    pub key: Option<String>,
    /// Colours a row by what it is.
    pub severity: Option<Severity>,
    pub choice: Choice,
}

impl Row {
    /// A row with nothing but a label.
    pub fn new(label: &str, choice: Choice) -> (r: Row)
        ensures
            r.label@ == label@,
            r.detail is None,
            r.tag is None,
            r.key is None,
            r.severity is None,
            r.choice == choice,
    {
        Row {
            label: label.to_owned(),
            detail: None,
            tag: None,
            key: None,
            severity: None,
            choice,
        }
    }

    /// The row with a detail.
    pub fn detail(self, detail: &str) -> (r: Row)
        ensures
            r.detail is Some,
            r.detail->0@ == detail@,
            r == (Row { detail: r.detail, ..self }),
    {
        Row { detail: Some(detail.to_owned()), ..self }
    }

    /// The row with a word on the left.
    pub fn tag(self, tag: &str) -> (r: Row)
        ensures
            r.tag is Some,
            r.tag->0@ == tag@,
            r == (Row { tag: r.tag, ..self }),
    {
        Row { tag: Some(tag.to_owned()), ..self }
    }

    /// The row with a key.
    pub fn key(self, key: Option<String>) -> (r: Row)
        ensures
            r == (Row { key, ..self }),
    {
        Row { key, ..self }
    }

    /// The row with a severity.
    pub fn severity(self, severity: Severity) -> (r: Row)
        ensures
            r == (Row { severity: Some(severity), ..self }),
    {
        Row { severity: Some(severity), ..self }
    }
}

/// What kind of list it is.
#[derive(Clone, Copy, PartialEq, Eq, Structural, Debug)]
pub enum Kind {
    Files,
    Commands,
    Buffers,
    Symbols,
    /// Symbols across the project, worked out afresh for every query.
    WorkspaceSymbols,
    Diagnostics,
    Themes,
    Languages,
    Actions,
    References,
    /// Lines that match a search across the project, worked out afresh too.
    Grep,
    Settings,
}

impl Kind {
    /// What to call it at the top of the box.
    pub fn title(&self) -> (s: &'static str)
        ensures
            s@ == match self {
                Kind::Files => "Open file"@,
                Kind::Commands => "Commands"@,
                Kind::Buffers => "Buffers"@,
                Kind::Symbols => "Symbols in this file"@,
                Kind::WorkspaceSymbols => "Symbols in the project"@,
                Kind::Diagnostics => "Problems"@,
                Kind::Themes => "Colours"@,
                Kind::Languages => "Language"@,
                Kind::Actions => "What can be done here"@,
                Kind::References => "Used here"@,
                Kind::Grep => "Search the project"@,
                Kind::Settings => "Settings"@,
            },
    {
        match self {
            Kind::Files => "Open file",
            Kind::Commands => "Commands",
            Kind::Buffers => "Buffers",
            Kind::Symbols => "Symbols in this file",
            Kind::WorkspaceSymbols => "Symbols in the project",
            Kind::Diagnostics => "Problems",
            Kind::Themes => "Colours",
            Kind::Languages => "Language",
            Kind::Actions => "What can be done here",
            Kind::References => "Used here",
            Kind::Grep => "Search the project",
            Kind::Settings => "Settings",
        }
    }

    /// The line under the box. Empty where nothing needs saying.
    pub fn hint(&self) -> (s: &'static str)
        ensures
            s@ == match self {
                Kind::Files => "> commands   @ symbols   # project symbols   : line"@,
                Kind::Themes => "Moving through the list tries each one on"@,
                Kind::Settings => "Enter changes the setting and keeps it"@,
                _ => ""@,
            },
    {
        match self {
            Kind::Files => "> commands   @ symbols   # project symbols   : line",
            Kind::Themes => "Moving through the list tries each one on",
            Kind::Settings => "Enter changes the setting and keeps it",
            _ => "",
        }
    }
}

// ---------------------------------------------------------------------------
// Narrowing
// ---------------------------------------------------------------------------

/// The longest text that is matched against, in characters.
pub const LONGEST: usize = 0xffff_ffff;

/// The longest query, in characters.
pub const LONGEST_QUERY: usize = 2048;

/// How `nucleo_matcher` matches a query against a text: how good the match is,
/// and the places of the letters that matched.
pub uninterp spec fn fuzzy(query: Seq<char>, text: Seq<char>) -> Option<(u32, Seq<u32>)>;

/// A match, where there is one.
pub open spec fn hit(r: Option<(u32, Vec<u32>)>) -> Option<(u32, Seq<u32>)> {
    match r {
        Some((score, places)) => Some((score, places@)),
        None => None,
    }
}

/// `Pattern::parse` and `Pattern::indices` with a matcher for paths, ignoring
/// case and accents where the query has none. Whether a text matches, how good
/// the match is and which letters matched depend on the query and the text
/// alone. A text longer than `LONGEST` makes the matcher panic. The score of a
/// word is added up in sixteen bits, at most 26 for each of its characters and
/// ten more for the first, so that a word of a query longer than
/// `LONGEST_QUERY` could score more than there is room for.
#[verifier::external_body]
fn fuzzy_match(query: &str, text: &str) -> (r: Option<(u32, Vec<u32>)>)
    requires
        query@.len() <= LONGEST_QUERY,
        text@.len() <= LONGEST,
    ensures
        hit(r) == fuzzy(query@, text@),
{
    let pattern = Pattern::parse(query, CaseMatching::Smart, Normalization::Smart);
    let mut matcher = Matcher::new(Config::DEFAULT.match_paths());
    let mut buf = Vec::new();
    let mut places = Vec::new();
    let score = pattern.indices(Utf32Str::new(text, &mut buf), &mut matcher, &mut places)?;
    Some((score, places))
}

/// What a row is matched by: the label and the detail together, so that typing
/// the name of a directory finds the files in it.
pub open spec fn haystack(row: Row) -> Seq<char> {
    match row.detail {
        Some(detail) => row.label@ + " "@ + detail@,
        None => row.label@,
    }
}

/// What rows are matched by.
pub fn haystack_of(row: &Row) -> (s: String)
    ensures
        s@ == haystack(*row),
{
    let mut s = row.label.clone();
    if let Some(detail) = &row.detail {
        s.append(" ");
        s.append(detail.as_str());
    }
    s
}

/// How every row matches a query.
pub open spec fn all_hits(query: Seq<char>, rows: Seq<Row>) -> Seq<Option<(u32, Seq<u32>)>> {
    rows.map_values(|r: Row| fuzzy(query, haystack(r)))
}

/// Matches.
pub open spec fn hits(v: Seq<Option<(u32, Vec<u32>)>>) -> Seq<Option<(u32, Seq<u32>)>> {
    v.map_values(|r: Option<(u32, Vec<u32>)>| hit(r))
}

/// The places below `n` that matched, in order, each once.
pub open spec fn lit(places: Seq<u32>, n: int) -> Seq<u32>
    decreases n,
{
    if n <= 0 {
        Seq::empty()
    } else if places.contains((n - 1) as u32) {
        lit(places, n - 1).push((n - 1) as u32)
    } else {
        lit(places, n - 1)
    }
}

/// What is shown.
pub open spec fn shown_of(v: Seq<(usize, Vec<u32>)>) -> Seq<(usize, Seq<u32>)> {
    v.map_values(|p: (usize, Vec<u32>)| (p.0, p.1@))
}

/// How good the match of a row is, and where it stands.
pub open spec fn standing(hs: Seq<Option<(u32, Seq<u32>)>>, at: usize) -> (u32, usize) {
    ((hs[at as int]->0).0, at)
}

/// Whether what is shown is every row that matches, best first, and each with
/// the letters of its label that matched. Where two match as well, they stay in
/// the order in which they were given.
pub open spec fn best_first(
    shown: Seq<(usize, Seq<u32>)>,
    rows: Seq<Row>,
    hs: Seq<Option<(u32, Seq<u32>)>>,
) -> bool {
    &&& forall|i: int|
        0 <= i < shown.len() ==> {
            let at = (#[trigger] shown[i]).0;
            &&& at < rows.len()
            &&& hs[at as int] is Some
            &&& shown[i].1 == lit((hs[at as int]->0).1, rows[at as int].label@.len() as int)
        }
    &&& forall|k: int|
        0 <= k < rows.len() && (#[trigger] hs[k]) is Some ==> exists|i: int|
            0 <= i < shown.len() && (#[trigger] shown[i]).0 == k
    &&& forall|i: int, j: int|
        0 <= i < j < shown.len() ==> better(
            standing(hs, (#[trigger] shown[i]).0),
            standing(hs, (#[trigger] shown[j]).0),
        )
}

/// Every row, in the order in which they were given, with nothing lit.
pub open spec fn as_given(n: int) -> Seq<(usize, Seq<u32>)> {
    Seq::new(n as nat, |i: int| (i as usize, Seq::<u32>::empty()))
}

/// Whether what is shown is what a query narrows the rows to.
pub open spec fn narrowed(
    shown: Seq<(usize, Seq<u32>)>,
    rows: Seq<Row>,
    query: Seq<char>,
) -> bool {
    let q = trimmed(query);
    if q.len() == 0 {
        shown == as_given(rows.len() as int)
    } else {
        best_first(shown, rows, all_hits(q, rows))
    }
}

/// Whether rows can be matched against.
pub open spec fn matchable(rows: Seq<Row>) -> bool {
    forall|i: int| 0 <= i < rows.len() ==> haystack(#[trigger] rows[i]).len() <= LONGEST
}

fn has_place(places: &Vec<u32>, p: u32) -> (yes: bool)
    ensures
        yes == places@.contains(p),
{
    let mut i: usize = 0;
    while i < places.len()
        invariant
            i <= places@.len(),
            forall|k: int| 0 <= k < i ==> #[trigger] places@[k] != p,
        decreases places@.len() - i,
    {
        if places[i] == p {
            return true;
        }
        i = i + 1;
    }
    false
}

/// The places that matched in a label of some length, in order and each once.
pub fn light(places: &Vec<u32>, len: usize) -> (v: Vec<u32>)
    requires
        len <= LONGEST,
    ensures
        v@ == lit(places@, len as int),
{
    let mut v: Vec<u32> = Vec::new();
    let mut n: usize = 0;
    while n < len
        invariant
            n <= len <= LONGEST,
            v@ == lit(places@, n as int),
        decreases len - n,
    {
        let p = n as u32;
        if has_place(places, p) {
            v.push(p);
        }
        n = n + 1;
        assert((n - 1) as u32 == p);
    }
    v
}

/// The rows that matched, best first, each with the letters of its label that
/// did.
pub fn narrow(rows: &Vec<Row>, found: &Vec<Option<(u32, Vec<u32>)>>) -> (shown: Vec<
    (usize, Vec<u32>),
>)
    requires
        found@.len() == rows@.len(),
        matchable(rows@),
    ensures
        best_first(shown_of(shown@), rows@, hits(found@)),
{
    let ghost hs = hits(found@);
    let mut scored: Vec<(u32, usize)> = Vec::new();
    let mut n: usize = 0;
    while n < found.len()
        invariant
            n <= found@.len(),
            hs == hits(found@),
            apart(scored@),
            forall|i: int|
                0 <= i < scored@.len() ==> {
                    let at = (#[trigger] scored@[i]).1;
                    at < n && hs[at as int] is Some && scored@[i] == standing(hs, at)
                },
            forall|k: int|
                0 <= k < n && (#[trigger] hs[k]) is Some ==> scored@.contains(
                    standing(hs, k as usize),
                ),
        decreases found@.len() - n,
    {
        assert(hs[n as int] == hit(found@[n as int]));
        let ghost was = scored@;
        if let Some(m) = &found[n] {
            scored.push((m.0, n));
            assert(scored@[was.len() as int] == standing(hs, n));
        }
        proof {
            assert forall|x: (u32, usize)| was.contains(x) implies scored@.contains(x) by {
                let k = choose|k: int| 0 <= k < was.len() && was[k] == x;
                assert(scored@[k] == x);
            }
        }
        n = n + 1;
    }
    let order = put_in_order(&scored);
    let mut shown: Vec<(usize, Vec<u32>)> = Vec::new();
    let mut i: usize = 0;
    proof {
        assert forall|k: int| 0 <= k < order@.len() implies {
            let at = (#[trigger] order@[k]).1;
            at < rows@.len() && hs[at as int] is Some && order@[k] == standing(hs, at)
        } by {
            assert(order@.contains(order@[k]));
            let m = choose|m: int| 0 <= m < scored@.len() && scored@[m] == order@[k];
        }
    }
    while i < order.len()
        invariant
            i <= order@.len(),
            found@.len() == rows@.len(),
            matchable(rows@),
            hs == hits(found@),
            forall|k: int|
                0 <= k < order@.len() ==> {
                    let at = (#[trigger] order@[k]).1;
                    at < rows@.len() && hs[at as int] is Some && order@[k] == standing(hs, at)
                },
            shown@.len() == i,
            forall|k: int|
                0 <= k < i ==> {
                    let at = order@[k].1;
                    &&& (#[trigger] shown@[k]).0 == at
                    &&& shown@[k].1@ == lit(
                        (hs[at as int]->0).1,
                        rows@[at as int].label@.len() as int,
                    )
                },
        decreases order@.len() - i,
    {
        let at = order[i].1;
        let label = chars_of(rows[at].label.as_str());
        assert(haystack(rows@[at as int]).len() >= label@.len());
        assert(hs[at as int] == hit(found@[at as int]));
        let places: Vec<u32> = match &found[at] {
            Some(m) => light(&m.1, label.len()),
            None => Vec::new(),
        };
        shown.push((at, places));
        i = i + 1;
    }
    proof {
        let s = shown_of(shown@);
        assert forall|k: int| 0 <= k < rows@.len() && (#[trigger] hs[k]) is Some implies exists|j: int|
            0 <= j < s.len() && (#[trigger] s[j]).0 == k by {
            let x = standing(hs, k as usize);
            assert(order@.contains(x));
            let j = choose|j: int| 0 <= j < order@.len() && order@[j] == x;
            assert(s[j].0 == shown@[j].0);
        }
        assert forall|a: int, b: int| 0 <= a < b < s.len() implies better(
            standing(hs, (#[trigger] s[a]).0),
            standing(hs, (#[trigger] s[b]).0),
        ) by {
            assert(s[a].0 == shown@[a].0 && s[b].0 == shown@[b].0);
            assert(better(order@[a], order@[b]));
        }
        assert forall|k: int| 0 <= k < s.len() implies {
            let at = (#[trigger] s[k]).0;
            &&& at < rows@.len()
            &&& hs[at as int] is Some
            &&& s[k].1 == lit((hs[at as int]->0).1, rows@[at as int].label@.len() as int)
        } by {
            assert(s[k] == (shown@[k].0, shown@[k].1@));
            assert(order@[k].1 == shown@[k].0);
        }
    }
    shown
}

/// How every row matches a query.
fn match_all(query: &str, rows: &Vec<Row>) -> (found: Vec<Option<(u32, Vec<u32>)>>)
    requires
        query@.len() <= LONGEST_QUERY,
        matchable(rows@),
    ensures
        hits(found@) == all_hits(query@, rows@),
{
    let ghost want = all_hits(query@, rows@);
    let mut found: Vec<Option<(u32, Vec<u32>)>> = Vec::new();
    let mut n: usize = 0;
    assert(hits(found@) =~= want.take(0));
    while n < rows.len()
        invariant
            n <= rows@.len(),
            query@.len() <= LONGEST_QUERY,
            matchable(rows@),
            want == all_hits(query@, rows@),
            hits(found@) == want.take(n as int),
        decreases rows@.len() - n,
    {
        let text = haystack_of(&rows[n]);
        let one = fuzzy_match(query, text.as_str());
        let ghost had = found@;
        let ghost is = hit(one);
        found.push(one);
        assert(hits(found@) =~= hits(had).push(is));
        assert(want.take(n + 1) =~= want.take(n as int).push(want[n as int]));
        n = n + 1;
    }
    assert(want.take(n as int) =~= want);
    found
}

// ---------------------------------------------------------------------------
// The list
// ---------------------------------------------------------------------------

/// The list, the box, and where one is in it.
#[derive(Debug)]
pub struct Picker {
    pub kind: Kind,
    pub query: String,
    /// Where the caret is in the query, in characters.
    pub caret: usize,
    /// Everything, in the order in which it was given.
    pub rows: Vec<Row>,
    /// Which rows are showing, best match first, with the letters that matched.
    pub shown: Vec<(usize, Vec<u32>)>,
    pub cursor: usize,
    /// The first row that is drawn.
    pub top: usize,
    /// Where the list was last drawn, so that a click can find a row.
    pub area: Area,
    /// What to put back if one changes one's mind.
    pub restore: Option<String>,
}

/// The first row to be drawn, for the cursor to be in view.
pub open spec fn following(top: int, cursor: int, height: int) -> int {
    if cursor < top {
        cursor
    } else if cursor >= top + height {
        cursor + 1 - height
    } else {
        top
    }
}

/// The last of `n` rows at the furthest, and the first where there is none.
pub open spec fn at_most_last(at: int, n: int) -> int {
    if n == 0 {
        0
    } else if at < n {
        at
    } else {
        n - 1
    }
}

/// Where the word before a place begins, blanks behind it counted in.
pub open spec fn word_start(s: Seq<char>, at: int, seen: bool) -> int
    decreases at,
{
    if at <= 0 {
        0
    } else if whitespace(s[at - 1]) {
        if seen { at } else { word_start(s, at - 1, false) }
    } else {
        word_start(s, at - 1, true)
    }
}

impl Picker {
    /// How many rows the box has room for.
    pub open spec fn room(self) -> int {
        if self.area.height == 0 { 1 } else { self.area.height as int }
    }

    /// Whether the caret is in the query, and what is shown is what the query
    /// narrows the rows to.
    pub open spec fn wf(self) -> bool {
        &&& self.caret <= self.query@.len() <= LONGEST_QUERY
        &&& matchable(self.rows@)
        &&& narrowed(shown_of(self.shown@), self.rows@, self.query@)
    }

    /// Whether a list was narrowed anew: its cursor stays, or goes to the last
    /// row, and it is drawn from the top, or so that the cursor is in view.
    pub open spec fn anew(self, was: Picker) -> bool {
        &&& self.wf()
        &&& self.kind == was.kind
        &&& self.area == was.area
        &&& self.restore == was.restore
        &&& self.cursor == at_most_last(was.cursor as int, self.shown@.len() as int)
        &&& self.top == following(0, self.cursor as int, self.room())
    }

    /// A list of rows with nothing typed.
    pub fn new(kind: Kind, rows: Vec<Row>) -> (p: Picker)
        requires
            matchable(rows@),
        ensures
            p.wf(),
            p.kind == kind,
            p.query@.len() == 0,
            p.rows == rows,
            p.cursor == 0,
            p.top == 0,
            p.area == (Area { x: 0, y: 0, width: 0, height: 0 }),
            p.restore is None,
    {
        let mut p = Picker {
            kind,
            query: String::new(),
            caret: 0,
            rows,
            shown: Vec::new(),
            cursor: 0,
            top: 0,
            area: Area { x: 0, y: 0, width: 0, height: 0 },
            restore: None,
        };
        assert(p.query@.len() == 0);
        p.refilter();
        p
    }

    /// Replace the rows, keeping the query.
    pub fn set_rows(&mut self, rows: Vec<Row>)
        requires
            old(self).wf(),
            matchable(rows@),
        ensures
            final(self).anew(*old(self)),
            final(self).rows == rows,
            final(self).query == old(self).query,
            final(self).caret == old(self).caret,
    {
        self.rows = rows;
        self.refilter();
    }

    /// Whether nothing is shown.
    pub fn is_empty(&self) -> (yes: bool)
        ensures
            yes == (self.shown@.len() == 0),
    {
        self.shown.len() == 0
    }

    /// How many rows are shown.
    pub fn len(&self) -> (n: usize)
        ensures
            n == self.shown@.len(),
    {
        self.shown.len()
    }

    /// How many rows there are.
    pub fn total(&self) -> (n: usize)
        ensures
            n == self.rows@.len(),
    {
        self.rows.len()
    }

    proof fn lemma_within(self, i: int)
        requires
            self.wf(),
            self.rows@.len() <= usize::MAX,
            0 <= i < self.shown@.len(),
        ensures
            self.shown@[i].0 < self.rows@.len(),
    {
        let s = shown_of(self.shown@);
        assert(s[i] == (self.shown@[i].0, self.shown@[i].1@));
        assert(narrowed(s, self.rows@, self.query@));
        if trimmed(self.query@).len() == 0 {
            let n = self.rows@.len() as int;
            assert(s == as_given(n));
            assert(s.len() == n);
            assert(as_given(n)[i] == (i as usize, Seq::<u32>::empty()));
        }
    }

    /// The rows on show, in order, with the places of the letters that matched.
    pub fn visible(&self) -> (v: Vec<(&Row, &Vec<u32>)>)
        requires
            self.wf(),
        ensures
            v@.len() == self.shown@.len(),
            forall|i: int|
                0 <= i < v@.len() ==> *(#[trigger] v@[i]).0 == self.rows@[self.shown@[i].0 as int]
                    && *v@[i].1 == self.shown@[i].1,
    {
        let mut v: Vec<(&Row, &Vec<u32>)> = Vec::new();
        let mut i: usize = 0;
        let total = self.rows.len();
        while i < self.shown.len()
            invariant
                i <= self.shown@.len(),
                total == self.rows@.len(),
                self.wf(),
                v@.len() == i,
                forall|k: int|
                    0 <= k < i ==> *(#[trigger] v@[k]).0 == self.rows@[self.shown@[k].0 as int]
                        && *v@[k].1 == self.shown@[k].1,
            decreases self.shown@.len() - i,
        {
            proof {
                self.lemma_within(i as int);
            }
            v.push((&self.rows[self.shown[i].0], &self.shown[i].1));
            i = i + 1;
        }
        v
    }

    /// A row on show.
    pub fn row(&self, index: usize) -> (r: Option<&Row>)
        requires
            self.wf(),
        ensures
            match r {
                Some(row) => index < self.shown@.len() && *row
                    == self.rows@[self.shown@[index as int].0 as int],
                None => index >= self.shown@.len(),
            },
    {
        let total = self.rows.len();
        if index < self.shown.len() {
            assert(self.rows@.len() == total);
            proof {
                self.lemma_within(index as int);
            }
            Some(&self.rows[self.shown[index].0])
        } else {
            None
        }
    }

    /// The row that the cursor is on.
    pub fn selected(&self) -> (r: Option<&Row>)
        requires
            self.wf(),
        ensures
            match r {
                Some(row) => self.cursor < self.shown@.len() && *row
                    == self.rows@[self.shown@[self.cursor as int].0 as int],
                None => self.cursor >= self.shown@.len(),
            },
    {
        self.row(self.cursor)
    }

    /// Put a character into the query where the caret is.
    pub fn type_char(&mut self, c: char)
        requires
            old(self).wf(),
            old(self).query@.len() < LONGEST_QUERY,
        ensures
            final(self).anew(*old(self)),
            final(self).rows == old(self).rows,
            final(self).query@ == old(self).query@.insert(old(self).caret as int, c),
            final(self).caret == old(self).caret + 1,
    {
        let mut v = chars_of(self.query.as_str());
        v.insert(self.caret, c);
        self.query = text_of(&v);
        self.caret = self.caret + 1;
        self.refilter();
    }

    /// Take back the character before the caret.
    pub fn backspace(&mut self)
        requires
            old(self).wf(),
        ensures
            if old(self).caret == 0 {
                *final(self) == *old(self)
            } else {
                &&& final(self).anew(*old(self))
                &&& final(self).rows == old(self).rows
                &&& final(self).query@ == old(self).query@.remove(old(self).caret - 1)
                &&& final(self).caret == old(self).caret - 1
            },
    {
        if self.caret == 0 {
            return;
        }
        let mut v = chars_of(self.query.as_str());
        v.remove(self.caret - 1);
        self.query = text_of(&v);
        self.caret = self.caret - 1;
        self.refilter();
    }

    /// Take away the character behind the caret.
    pub fn delete(&mut self)
        requires
            old(self).wf(),
        ensures
            if old(self).caret == old(self).query@.len() {
                *final(self) == *old(self)
            } else {
                &&& final(self).anew(*old(self))
                &&& final(self).rows == old(self).rows
                &&& final(self).query@ == old(self).query@.remove(old(self).caret as int)
                &&& final(self).caret == old(self).caret
            },
    {
        let mut v = chars_of(self.query.as_str());
        if self.caret < v.len() {
            v.remove(self.caret);
            self.query = text_of(&v);
            self.refilter();
        }
    }

    /// Take back the word before the caret.
    pub fn delete_word(&mut self)
        requires
            old(self).wf(),
        ensures
            final(self).anew(*old(self)),
            final(self).rows == old(self).rows,
            ({
                let q = old(self).query@;
                let from = word_start(q, old(self).caret as int, false);
                &&& final(self).query@ == q.take(from) + q.skip(old(self).caret as int)
                &&& final(self).caret == from
            }),
    {
        let v = chars_of(self.query.as_str());
        let ghost q = v@;
        let caret = self.caret;
        let mut at = caret;
        while at > 0 && v[at - 1].is_whitespace()
            invariant
                at <= caret <= v@.len(),
                q == v@,
                word_start(q, caret as int, false) == word_start(q, at as int, false),
            decreases at,
        {
            at = at - 1;
        }
        assert(word_start(q, at as int, false) == word_start(q, at as int, true)) by {
            if at > 0 {
                assert(!whitespace(q[at - 1]));
            }
        }
        while at > 0 && !v[at - 1].is_whitespace()
            invariant
                at <= caret <= v@.len(),
                q == v@,
                word_start(q, caret as int, false) == word_start(q, at as int, true),
            decreases at,
        {
            at = at - 1;
        }
        let mut kept = piece(&v, 0, at);
        let rest = piece(&v, caret, v.len());
        crate::strings::extend(&mut kept, &rest);
        assert(kept@ =~= q.take(at as int) + q.skip(caret as int));
        self.query = text_of(&kept);
        self.caret = at;
        self.refilter();
    }

    /// Take back everything that was typed.
    pub fn clear(&mut self)
        requires
            old(self).wf(),
        ensures
            final(self).anew(*old(self)),
            final(self).rows == old(self).rows,
            final(self).query@.len() == 0,
            final(self).caret == 0,
    {
        self.query = String::new();
        self.caret = 0;
        assert(self.query@.len() == 0);
        self.refilter();
    }

    /// Move the caret, but not out of the query.
    pub fn move_caret(&mut self, by: isize)
        requires
            old(self).wf(),
        ensures
            *final(self) == (Picker {
                caret: ({
                    let to = old(self).caret + by;
                    let len = old(self).query@.len() as int;
                    if to < 0 {
                        0
                    } else if to > len {
                        len as usize
                    } else {
                        to as usize
                    }
                }),
                ..*old(self)
            }),
            final(self).wf(),
    {
        let v = chars_of(self.query.as_str());
        let len = v.len();
        let to: i128 = self.caret as i128 + by as i128;
        self.caret = if to < 0 {
            0
        } else if to > len as i128 {
            len
        } else {
            to as usize
        };
    }

    /// Move through the list, round its ends.
    pub fn step(&mut self, by: isize)
        requires
            old(self).wf(),
        ensures
            final(self).wf(),
            ({
                let n = old(self).shown@.len() as int;
                if n == 0 {
                    *final(self) == (Picker { cursor: 0, ..*old(self) })
                } else {
                    let to = (old(self).cursor + by) % n;
                    *final(self) == (Picker {
                        cursor: to as usize,
                        top: following(old(self).top as int, to, old(self).room()) as usize,
                        ..*old(self)
                    })
                }
            }),
    {
        let len = self.shown.len();
        if len == 0 {
            self.cursor = 0;
            return;
        }
        self.cursor = around(self.cursor as i128 + by as i128, len as i128) as usize;
        self.follow();
    }

    /// Go to a row, or to the last one.
    pub fn select(&mut self, at: usize)
        requires
            old(self).wf(),
        ensures
            final(self).wf(),
            ({
                let to = at_most_last(at as int, old(self).shown@.len() as int);
                *final(self) == (Picker {
                    cursor: to as usize,
                    top: following(old(self).top as int, to, old(self).room()) as usize,
                    ..*old(self)
                })
            }),
    {
        self.cursor = clamp_last(at, self.shown.len());
        self.follow();
    }

    /// How many rows the box has room for.
    pub fn height(&self) -> (n: usize)
        ensures
            n == self.room(),
    {
        if self.area.height == 0 {
            1
        } else {
            self.area.height as usize
        }
    }

    /// Settle the scroll against the height that the box turned out to have.
    pub fn fit(&mut self, height: usize)
        requires
            old(self).wf(),
        ensures
            final(self).wf(),
            ({
                let n = old(self).shown@.len() as int;
                let last = if n > height { n - height } else { 0 };
                let top = if old(self).top < last { old(self).top as int } else { last };
                let sized = Picker {
                    area: Area { height: height as u16, ..old(self).area },
                    ..*old(self)
                };
                *final(self) == (Picker {
                    top: following(top, old(self).cursor as int, sized.room()) as usize,
                    ..sized
                })
            }),
    {
        self.area = Area { height: #[verifier::truncate]
            (height as u16), ..self.area };
        let last: usize = if self.shown.len() > height {
            self.shown.len() - height
        } else {
            0
        };
        if self.top > last {
            self.top = last;
        }
        self.follow();
    }

    fn follow(&mut self)
        ensures
            *final(self) == (Picker {
                top: following(
                    old(self).top as int,
                    old(self).cursor as int,
                    old(self).room(),
                ) as usize,
                ..*old(self)
            }),
            final(self).top == following(
                old(self).top as int,
                old(self).cursor as int,
                old(self).room(),
            ),
    {
        let height = self.height();
        if self.cursor < self.top {
            self.top = self.cursor;
        } else if self.cursor - self.top >= height {
            self.top = self.cursor - height + 1;
        }
    }

    /// Narrow the list to what the query matches, best first.
    fn refilter(&mut self)
        requires
            old(self).caret <= old(self).query@.len() <= LONGEST_QUERY,
            matchable(old(self).rows@),
        ensures
            final(self).anew(*old(self)),
            final(self).rows == old(self).rows,
            final(self).query == old(self).query,
            final(self).caret == old(self).caret,
    {
        let q = trim(&chars_of(self.query.as_str()));
        proof {
            crate::strings::lemma_trimmed(self.query@);
        }
        if q.len() == 0 {
            self.shown = every(self.rows.len());
        } else {
            let query = text_of(&q);
            let found = match_all(query.as_str(), &self.rows);
            assert(hits(found@).len() == found@.len());
            self.shown = narrow(&self.rows, &found);
        }
        self.cursor = clamp_last(self.cursor, self.shown.len());
        self.top = 0;
        self.follow();
    }
}

fn clamp_last(at: usize, n: usize) -> (r: usize)
    ensures
        r == at_most_last(at as int, n as int),
{
    if n == 0 {
        0
    } else if at < n {
        at
    } else {
        n - 1
    }
}

fn every(n: usize) -> (v: Vec<(usize, Vec<u32>)>)
    ensures
        shown_of(v@) == as_given(n as int),
{
    let mut v: Vec<(usize, Vec<u32>)> = Vec::new();
    let mut i: usize = 0;
    assert(shown_of(v@) =~= as_given(0));
    while i < n
        invariant
            i <= n,
            shown_of(v@) == as_given(i as int),
        decreases n - i,
    {
        let ghost had = v@;
        let none: Vec<u32> = Vec::new();
        v.push((i, none));
        assert(shown_of(v@) =~= shown_of(had).push((i, Seq::<u32>::empty())));
        assert(as_given(i + 1) =~= as_given(i as int).push((i, Seq::<u32>::empty())));
        i = i + 1;
    }
    v
}

/// Rows that match a query as well as each other are shown in the order in which
/// they were given, and a row that matches better is shown before one that
/// matches less well.
pub proof fn law_better_matches_come_first(
    shown: Seq<(usize, Seq<u32>)>,
    rows: Seq<Row>,
    hs: Seq<Option<(u32, Seq<u32>)>>,
    i: int,
    j: int,
)
    requires
        best_first(shown, rows, hs),
        0 <= i < j < shown.len(),
    ensures
        standing(hs, shown[i].0).0 >= standing(hs, shown[j].0).0,
        standing(hs, shown[i].0).0 == standing(hs, shown[j].0).0 ==> shown[i].0 < shown[j].0,
{
    assert(better(standing(hs, shown[i].0), standing(hs, shown[j].0)));
}

/// There is one way to show what matched.
pub proof fn law_one_way_to_show(
    a: Seq<(usize, Seq<u32>)>,
    b: Seq<(usize, Seq<u32>)>,
    rows: Seq<Row>,
    hs: Seq<Option<(u32, Seq<u32>)>>,
)
    requires
        best_first(a, rows, hs),
        best_first(b, rows, hs),
        hs.len() == rows.len(),
    ensures
        a == b,
    decreases a.len(),
{
    lemma_same_shown(a, b, rows, hs, a.len() as int);
    if a.len() < b.len() {
        let k = b[a.len() as int].0;
        let m = choose|m: int| 0 <= m < a.len() && (#[trigger] a[m]).0 == k;
        assert(a[m] == b[m]);
        assert(better(standing(hs, b[m].0), standing(hs, b[a.len() as int].0)));
    }
    assert(a =~= b);
}

proof fn lemma_same_shown(
    a: Seq<(usize, Seq<u32>)>,
    b: Seq<(usize, Seq<u32>)>,
    rows: Seq<Row>,
    hs: Seq<Option<(u32, Seq<u32>)>>,
    n: int,
)
    requires
        best_first(a, rows, hs),
        best_first(b, rows, hs),
        hs.len() == rows.len(),
        0 <= n <= a.len(),
    ensures
        n <= b.len(),
        forall|k: int| 0 <= k < n ==> #[trigger] a[k] == b[k],
    decreases n,
{
    if n > 0 {
        lemma_same_shown(a, b, rows, hs, n - 1);
        let x = a[n - 1].0;
        assert(hs[x as int] is Some);
        let j = choose|j: int| 0 <= j < b.len() && (#[trigger] b[j]).0 == x;
        if j < n - 1 {
            assert(a[j] == b[j]);
            assert(better(standing(hs, a[j].0), standing(hs, a[n - 1].0)));
        }
        assert(n <= b.len());
        let y = b[n - 1].0;
        assert(hs[y as int] is Some);
        let i = choose|i: int| 0 <= i < a.len() && (#[trigger] a[i]).0 == y;
        if i < n - 1 {
            assert(a[i] == b[i]);
            assert(better(standing(hs, b[i].0), standing(hs, b[n - 1].0)));
        }
        if j > n - 1 {
            assert(better(standing(hs, b[n - 1].0), standing(hs, b[j].0)));
            if i > n - 1 {
                assert(better(standing(hs, a[n - 1].0), standing(hs, a[i].0)));
            }
        }
        assert(a[n - 1].0 == b[n - 1].0);
        assert(a[n - 1] == b[n - 1]);
    }
}

/// The cursor is in view once the list has followed it.
pub proof fn law_the_cursor_stays_in_view(top: int, cursor: int, height: int)
    requires
        0 <= cursor,
        0 <= top,
        0 < height,
    ensures
        following(top, cursor, height) <= cursor < following(top, cursor, height) + height,
        0 <= following(top, cursor, height),
{
}

/// The letters that are lit are letters of the label that matched, in order.
pub proof fn law_only_letters_that_matched_are_lit(places: Seq<u32>, n: int, i: int)
    requires
        0 <= n <= LONGEST,
        0 <= i < lit(places, n).len(),
    ensures
        lit(places, n)[i] < n,
        places.contains(lit(places, n)[i]),
        i > 0 ==> lit(places, n)[i - 1] < lit(places, n)[i],
    decreases n,
{
    let less = lit(places, n - 1);
    if n > 0 {
        if i < less.len() {
            law_only_letters_that_matched_are_lit(places, n - 1, i);
        } else if i > 0 {
            law_only_letters_that_matched_are_lit(places, n - 1, i - 1);
        }
    }
}

} // verus!
