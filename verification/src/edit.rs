//! The commands that change text at every cursor.
//!
//! A set of changes arrives in order and without overlaps, so that a document
//! can make them back to front. Everything here works from the cursors, which
//! are already both, and what would collide all the same is trimmed.
use vstd::prelude::*;

use crate::change::{edited, fits, patches, Change, Patch};
use crate::chars::{chars_of, string_of, whitespace};
use crate::doc::{applied, closed, recorded, AppliedEdit, Document};
use crate::indent::Indent;
use crate::pane::{selects, Pane};
use crate::rope::{line_at, rope_text, start_of_line};
use crate::text::{
    char_at, class, class_of, column_of, end_of_line, first_non_blank, indent_of, least,
    lemma_line_of, line_end, line_of, line_start, most, tab_stop, text_of_line, visual_column,
    word_after, word_before, word_end, word_start, Class, Range, Selections,
};

verus! {

// ---------------------------------------------------------------------------
// Planning
// ---------------------------------------------------------------------------

/// Where the last of some changes that is kept ends.
pub open spec fn plan_end(cs: Seq<Patch>) -> int
    decreases cs.len(),
{
    if cs.len() == 0 {
        0
    } else if dropped(cs.last(), plan_end(cs.drop_last())) {
        plan_end(cs.drop_last())
    } else {
        cs.last().to
    }
}

/// Whether a change that may not reach back before `end` has nothing left to
/// do.
pub open spec fn dropped(c: Patch, end: int) -> bool {
    let from = most(c.from, end);
    c.to < from || (c.to == from && c.text.len() == 0)
}

/// Changes with each trimmed back to where the one before it ended, and those
/// left with nothing to do taken out.
pub open spec fn planned(cs: Seq<Patch>) -> Seq<Patch>
    decreases cs.len(),
{
    if cs.len() == 0 {
        cs
    } else {
        let end = plan_end(cs.drop_last());
        if dropped(cs.last(), end) {
            planned(cs.drop_last())
        } else {
            planned(cs.drop_last()).push(Patch { from: most(cs.last().from, end), ..cs.last() })
        }
    }
}

/// What is planned is in order and does not overlap, and lies within a text
/// that every change ended within.
pub proof fn law_what_is_planned_fits(cs: Seq<Patch>, len: int)
    requires
        forall|i: int| 0 <= i < cs.len() ==> (#[trigger] cs[i]).to <= len,
    ensures
        fits(planned(cs), len),
        planned(cs).len() > 0 ==> planned(cs).last().to == plan_end(cs),
        0 <= plan_end(cs),
    decreases cs.len(),
{
    if cs.len() > 0 {
        let less = cs.drop_last();
        assert forall|i: int| 0 <= i < less.len() implies (#[trigger] less[i]).to <= len by {
            assert(less[i] == cs[i]);
        }
        law_what_is_planned_fits(less, len);
        let p = planned(less);
        assert(cs.last() == cs[cs.len() - 1]);
        if !dropped(cs.last(), plan_end(less)) {
            assert forall|i: int| 0 <= i < p.len() implies (#[trigger] p[i]).to <= plan_end(less) by {
                if i < p.len() - 1 {
                    assert(p[i].to <= p[p.len() - 1].from);
                }
            }
        }
    }
}

/// Changes that fit, and of which each does something, are planned as they are.
pub proof fn law_what_fits_is_planned_as_it_is(cs: Seq<Patch>, len: int)
    requires
        fits(cs, len),
        forall|i: int|
            0 <= i < cs.len() ==> (#[trigger] cs[i]).from < cs[i].to || cs[i].text.len() > 0,
    ensures
        planned(cs) == cs,
        plan_end(cs) == if cs.len() == 0 { 0 } else { cs.last().to },
    decreases cs.len(),
{
    if cs.len() > 0 {
        let less = cs.drop_last();
        let n = cs.len() - 1;
        assert forall|i: int| 0 <= i < less.len() implies 0 <= (#[trigger] less[i]).from
            <= less[i].to <= len && (less[i].from < less[i].to || less[i].text.len() > 0) by {
            assert(less[i] == cs[i]);
        }
        assert forall|i: int, j: int| 0 <= i < j < less.len() implies (#[trigger] less[i]).to <= (
        #[trigger] less[j]).from by {
            assert(less[i] == cs[i] && less[j] == cs[j]);
        }
        law_what_fits_is_planned_as_it_is(less, len);
        assert(cs[n] == cs.last());
        if n > 0 {
            assert(cs[n - 1].to <= cs[n].from);
            assert(less.last() == cs[n - 1]);
        }
        assert(!dropped(cs.last(), plan_end(less)));
        assert(less.push(cs.last()) =~= cs);
    }
}

/// Trim changes so that none reaches into the one before it.
pub fn plan(changes: Vec<Change>) -> (r: Vec<Change>)
    ensures
        patches(r@) == planned(patches(changes@)),
{
    let mut out: Vec<Change> = Vec::new();
    let mut end: usize = 0;
    let mut n: usize = 0;
    let ghost cs = patches(changes@);
    assert(cs.take(0) =~= Seq::<Patch>::empty());
    assert(patches(out@) =~= planned(cs.take(0)));
    while n < changes.len()
        invariant
            n <= changes@.len(),
            cs == patches(changes@),
            patches(out@) == planned(cs.take(n as int)),
            end == plan_end(cs.take(n as int)),
        decreases changes@.len() - n,
    {
        let c = &changes[n];
        proof {
            assert(cs.take(n + 1).drop_last() =~= cs.take(n as int));
            assert(cs.take(n + 1).last() == c@);
        }
        let from: usize = if c.from < end { end } else { c.from };
        let ghost was = out@;
        if !(c.to < from || (c.to == from && c.text.as_str().is_empty())) {
            let kept = Change { from, to: c.to, text: c.text.clone() };
            out.push(kept);
            end = c.to;
            assert(patches(out@) =~= patches(was).push(kept@));
        }
        n = n + 1;
    }
    assert(cs.take(n as int) =~= cs);
    out
}

// ---------------------------------------------------------------------------
// One change at every cursor
// ---------------------------------------------------------------------------

/// What a command makes of one cursor: what to put in place of what, and
/// where in the new text the cursor goes.
pub struct Made {
    pub from: usize,
    pub to: usize,
    pub text: String,
    pub cursor: usize,
}

/// The same, as a contract speaks of it.
pub ghost struct Deed {
    pub from: int,
    pub to: int,
    pub text: Seq<char>,
    pub cursor: int,
}

impl View for Made {
    type V = Deed;

    open spec fn view(&self) -> Deed {
        Deed {
            from: self.from as int,
            to: self.to as int,
            text: self.text@,
            cursor: self.cursor as int,
        }
    }
}

/// What commands make of the cursors, one by one.
pub open spec fn deeds(ms: Seq<Option<Made>>) -> Seq<Option<Deed>> {
    ms.map_values(
        |m: Option<Made>|
            match m {
                Some(m) => Some(m@),
                None => None,
            },
    )
}

/// A replacement after which the cursor is at the end of the new text.
pub open spec fn deed(from: int, to: int, text: Seq<char>) -> Option<Deed> {
    Some(Deed { from, to, text, cursor: text.len() as int })
}

fn made(from: usize, to: usize, text: String) -> (m: Option<Made>)
    ensures
        m is Some && m->0@ == deed(from as int, to as int, text@)->0,
        m->0.from == from && m->0.to == to,
{
    let cursor = chars_of(text.as_str()).len();
    Some(Made { from, to, text, cursor })
}

/// The changes that are asked for, cursor by cursor.
pub open spec fn asked(ds: Seq<Option<Deed>>) -> Seq<Patch>
    decreases ds.len(),
{
    if ds.len() == 0 {
        Seq::empty()
    } else {
        match ds.last() {
            Some(d) => asked(ds.drop_last()).push(Patch { from: d.from, to: d.to, text: d.text }),
            None => asked(ds.drop_last()),
        }
    }
}

/// How far the first `k` changes move what comes after them.
pub open spec fn drift(ds: Seq<Option<Deed>>, k: nat) -> int
    decreases k,
{
    if k == 0 {
        0
    } else {
        drift(ds, (k - 1) as nat) + match ds[k - 1] {
            Some(d) => d.text.len() - (d.to - d.from),
            None => 0,
        }
    }
}

/// Where the cursors go: to the place in its new text for one that something
/// was done at, and along with the text for the others.
pub open spec fn landed(rs: Seq<Range>, ds: Seq<Option<Deed>>, len: int) -> Seq<Range> {
    Seq::new(
        rs.len(),
        |i: int|
            match ds[i] {
                Some(d) => {
                    let at = least(len, most(0, d.from + drift(ds, i as nat)) + d.cursor) as usize;
                    Range { anchor: at, head: at }
                },
                None => Range {
                    anchor: least(len, most(0, rs[i].anchor + drift(ds, i as nat))) as usize,
                    head: least(len, most(0, rs[i].head + drift(ds, i as nat))) as usize,
                },
            },
    )
}

/// Whether every cursor is within a text of that length.
pub open spec fn within(s: Selections, len: int) -> bool {
    forall|i: int|
        0 <= i < s.ranges@.len() ==> (#[trigger] s.ranges@[i]).anchor <= len && s.ranges@[i].head
            <= len
}

/// What is asked of an editing command: that the cursors are in order, and
/// within the text.
pub open spec fn ready(doc: Document, pane: Pane) -> bool {
    pane.sel.wf() && within(pane.sel, doc.content().len() as int)
}

/// What making one change at every cursor does to a document and a pane.
pub open spec fn did_each(
    was: Document,
    is: Document,
    before: Pane,
    after: Pane,
    atomic: bool,
    ds: Seq<Option<Deed>>,
    now: u64,
    edits: Seq<AppliedEdit>,
) -> bool {
    let cs = planned(asked(ds));
    if cs.len() == 0 {
        is == was && after == before && edits.len() == 0
    } else {
        &&& exists|mid: Document|
            {
                &&& applied(was, mid, cs, before.sel, !atomic, now, edits)
                &&& #[trigger] recorded(mid, is, after.sel)
            }
        &&& selects(
            after.sel,
            landed(before.sel.ranges@, ds, is.content().len() as int),
            before.sel.primary as int,
        )
        &&& after.goal is None
    }
}

/// Where one cursor goes that is moved along by `gain` and back by `loss`.
fn moved(at: usize, gain: u128, loss: u128, on: usize, len: usize) -> (r: usize)
    requires
        gain <= u128::MAX - 0x1_ffff_ffff_ffff_fffe,
    ensures
        r == least(len as int, most(0, at + (gain - loss)) + on),
{
    let there: u128 = at as u128 + gain;
    let start: u128 = if there >= loss { there - loss } else { 0 };
    let end: u128 = start + on as u128;
    if end <= len as u128 { end as usize } else { len }
}

/// Make one change per cursor and put the cursors where the new text leaves
/// them.
#[verifier::rlimit(30)]
fn each(doc: &mut Document, pane: &mut Pane, atomic: bool, ms: &Vec<Option<Made>>, now: u64) -> (edits:
    Vec<AppliedEdit>)
    requires
        old(pane).sel.wf(),
        ms@.len() == old(pane).sel.ranges@.len(),
        forall|i: int| 0 <= i < ms@.len() ==> match #[trigger] ms@[i] {
            Some(m) => m.from <= m.to,
            None => true,
        },
    ensures
        did_each(
            *old(doc),
            *final(doc),
            *old(pane),
            *final(pane),
            atomic,
            deeds(ms@),
            now,
            edits@,
        ),
{
    let ghost ds = deeds(ms@);
    let mut changes: Vec<Change> = Vec::new();
    let mut n: usize = 0;
    assert(patches(changes@) =~= asked(ds.take(0)));
    while n < ms.len()
        invariant
            n <= ms@.len(),
            ds == deeds(ms@),
            patches(changes@) == asked(ds.take(n as int)),
        decreases ms@.len() - n,
    {
        proof {
            assert(ds.take(n + 1).drop_last() =~= ds.take(n as int));
            assert(ds.take(n + 1).last() == ds[n as int]);
        }
        let ghost was = changes@;
        match &ms[n] {
            Some(m) => {
                let c = Change { from: m.from, to: m.to, text: m.text.clone() };
                changes.push(c);
                assert(patches(changes@) =~= patches(was).push(c@));
            },
            None => {},
        }
        n = n + 1;
    }
    assert(ds.take(n as int) =~= ds);
    let changes = plan(changes);
    if changes.len() == 0 {
        assert(patches(changes@).len() == 0);
        return Vec::new();
    }
    assert(patches(changes@).len() == changes@.len());
    let edits = if atomic {
        doc.apply_atomic(changes, &pane.sel, now)
    } else {
        doc.apply(changes, &pane.sel, now)
    };
    let ghost mid = *doc;
    let len = doc.rope.len_chars();
    let mut gain: u128 = 0;
    let mut loss: u128 = 0;
    let mut after: Vec<Range> = Vec::new();
    let mut n: usize = 0;
    while n < ms.len()
        invariant
            n <= ms@.len(),
            ms@.len() == pane.sel.ranges@.len(),
            ds == deeds(ms@),
            gain - loss == drift(ds, n as nat),
            gain <= n * 0xffff_ffff_ffff_ffff,
            loss <= n * 0xffff_ffff_ffff_ffff,
            *pane == *old(pane),
            forall|i: int| 0 <= i < ms@.len() ==> match #[trigger] ms@[i] {
                Some(m) => m.from <= m.to,
                None => true,
            },
            after@ == landed(pane.sel.ranges@, ds, len as int).take(n as int),
        decreases ms@.len() - n,
    {
        let r = pane.sel.ranges[n];
        assert(ds[n as int] == match ms@[n as int] {
            Some(m) => Some(m@),
            None => None,
        });
        assert(n * 0xffff_ffff_ffff_ffff <= 0xffff_ffff_ffff_fffe * 0xffff_ffff_ffff_ffff);
        match &ms[n] {
            Some(m) => {
                let inserted = chars_of(m.text.as_str()).len();
                after.push(Range::point(moved(m.from, gain, loss, m.cursor, len)));
                gain = gain + inserted as u128;
                loss = loss + (m.to - m.from) as u128;
            },
            None => {
                after.push(
                    Range {
                        anchor: moved(r.anchor, gain, loss, 0, len),
                        head: moved(r.head, gain, loss, 0, len),
                    },
                );
            },
        }
        n = n + 1;
        assert(after@ =~= landed(pane.sel.ranges@, ds, len as int).take(n as int));
    }
    assert(after@ =~= landed(pane.sel.ranges@, ds, len as int));
    pane.sel = Selections::many(&after, pane.sel.primary);
    doc.record_selections(&pane.sel);
    pane.goal = None;
    proof {
        assert(applied(*old(doc), mid, planned(asked(ds)), old(pane).sel, !atomic, now, edits@));
        assert(recorded(mid, *doc, pane.sel));
    }
    edits
}

// ---------------------------------------------------------------------------
// The commands
// ---------------------------------------------------------------------------

/// The marks that open and close themselves.
pub open spec fn quotes() -> Seq<(char, char)> {
    seq![('"', '"'), ('\'', '\''), ('`', '`')]
}

/// The pairs that close themselves: a language's brackets, and quotes.
pub open spec fn pairs(brackets: Seq<(char, char)>) -> Seq<(char, char)> {
    brackets + quotes()
}

fn all_pairs(brackets: &Vec<(char, char)>) -> (v: Vec<(char, char)>)
    ensures
        v@ == pairs(brackets@),
{
    let mut v: Vec<(char, char)> = Vec::new();
    let mut n: usize = 0;
    while n < brackets.len()
        invariant
            n <= brackets@.len(),
            v@ == brackets@.take(n as int),
        decreases brackets@.len() - n,
    {
        v.push(brackets[n]);
        n = n + 1;
    }
    v.push(('"', '"'));
    v.push(('\'', '\''));
    v.push(('`', '`'));
    assert(v@ =~= pairs(brackets@));
    v
}

/// What closes a character that opens something: the first that does.
pub open spec fn closer(ps: Seq<(char, char)>, c: char) -> Option<char>
    decreases ps.len(),
{
    if ps.len() == 0 {
        None
    } else if ps[0].0 == c {
        Some(ps[0].1)
    } else {
        closer(ps.skip(1), c)
    }
}

pub open spec fn opens(ps: Seq<(char, char)>, c: char) -> bool {
    exists|i: int| 0 <= i < ps.len() && (#[trigger] ps[i]).0 == c
}

pub open spec fn closes(ps: Seq<(char, char)>, c: char) -> bool {
    exists|i: int| 0 <= i < ps.len() && (#[trigger] ps[i]).1 == c
}

fn closer_of(ps: &Vec<(char, char)>, c: char) -> (r: Option<char>)
    ensures
        r == closer(ps@, c),
{
    let mut n: usize = 0;
    assert(ps@.skip(0) =~= ps@);
    while n < ps.len()
        invariant
            n <= ps@.len(),
            closer(ps@, c) == closer(ps@.skip(n as int), c),
        decreases ps@.len() - n,
    {
        assert(ps@.skip(n as int).skip(1) =~= ps@.skip(n + 1));
        if ps[n].0 == c {
            return Some(ps[n].1);
        }
        n = n + 1;
    }
    None
}

fn is_opener(ps: &Vec<(char, char)>, c: char) -> (yes: bool)
    ensures
        yes == opens(ps@, c),
{
    let mut n: usize = 0;
    while n < ps.len()
        invariant
            n <= ps@.len(),
            forall|i: int| 0 <= i < n ==> (#[trigger] ps@[i]).0 != c,
        decreases ps@.len() - n,
    {
        if ps[n].0 == c {
            return true;
        }
        n = n + 1;
    }
    false
}

fn is_closer(ps: &Vec<(char, char)>, c: char) -> (yes: bool)
    ensures
        yes == closes(ps@, c),
{
    let mut n: usize = 0;
    while n < ps.len()
        invariant
            n <= ps@.len(),
            forall|i: int| 0 <= i < n ==> (#[trigger] ps@[i]).1 != c,
        decreases ps@.len() - n,
    {
        if ps[n].1 == c {
            return true;
        }
        n = n + 1;
    }
    false
}

pub open spec fn is_pair(ps: Seq<(char, char)>, a: char, b: char) -> bool {
    exists|i: int| 0 <= i < ps.len() && #[trigger] ps[i] == (a, b)
}

fn are_pair(ps: &Vec<(char, char)>, a: char, b: char) -> (yes: bool)
    ensures
        yes == is_pair(ps@, a, b),
{
    let mut n: usize = 0;
    while n < ps.len()
        invariant
            n <= ps@.len(),
            forall|i: int| 0 <= i < n ==> #[trigger] ps@[i] != (a, b),
        decreases ps@.len() - n,
    {
        if ps[n].0 == a && ps[n].1 == b {
            assert(ps@[n as int] == (a, b));
            return true;
        }
        n = n + 1;
    }
    false
}

/// A command, as it is carried out at each cursor.
pub enum Command {
    /// Put a text in place of what is selected.
    Insert(String),
    /// Type a character, with what closes it where that is welcome.
    Type { c: char, pairs: Vec<(char, char)> },
    /// Begin a line, indented as far as this one, or one level further after
    /// something that opens.
    Newline { unit: String, brackets: Vec<(char, char)> },
    /// Take back a character, a pair, or a level of indentation.
    Backspace { width: usize, pairs: Vec<(char, char)> },
    Delete,
    BackspaceWord,
    DeleteWord,
    ToLineStart,
    ToLineEnd,
    /// Fill up to the next stop.
    Tab { tabs: bool, width: usize, tab_width: usize },
}

/// A command, as a contract speaks of one.
pub ghost enum Act {
    Insert(Seq<char>),
    Type { c: char, pairs: Seq<(char, char)> },
    Newline { unit: Seq<char>, brackets: Seq<(char, char)> },
    Backspace { width: int, pairs: Seq<(char, char)> },
    Delete,
    BackspaceWord,
    DeleteWord,
    ToLineStart,
    ToLineEnd,
    Tab { tabs: bool, width: int, tab_width: usize },
}

impl View for Command {
    type V = Act;

    open spec fn view(&self) -> Act {
        match self {
            Command::Insert(text) => Act::Insert(text@),
            Command::Type { c, pairs } => Act::Type { c: *c, pairs: pairs@ },
            Command::Newline { unit, brackets } => Act::Newline {
                unit: unit@,
                brackets: brackets@,
            },
            Command::Backspace { width, pairs } => Act::Backspace {
                width: *width as int,
                pairs: pairs@,
            },
            Command::Delete => Act::Delete,
            Command::BackspaceWord => Act::BackspaceWord,
            Command::DeleteWord => Act::DeleteWord,
            Command::ToLineStart => Act::ToLineStart,
            Command::ToLineEnd => Act::ToLineEnd,
            Command::Tab { tabs, width, tab_width } => Act::Tab {
                tabs: *tabs,
                width: *width as int,
                tab_width: *tab_width,
            },
        }
    }
}

pub open spec fn spaces(n: nat) -> Seq<char> {
    Seq::new(n, |i: int| ' ')
}

/// The deletion of what is selected.
pub open spec fn cut(r: Range) -> Option<Deed> {
    deed(r.lo(), r.hi(), Seq::empty())
}

pub open spec fn cut_between(from: int, to: int) -> Option<Deed> {
    if from < to {
        deed(from, to, Seq::empty())
    } else {
        None
    }
}

/// Whether a character typed before `next` is given what closes it.
pub open spec fn welcome(ps: Seq<(char, char)>, t: Seq<char>, at: int) -> bool {
    at >= t.len() || whitespace(t[at]) || closes(ps, t[at]) || t[at] == ','
}

/// Whether a quote is typed straight after a word.
pub open spec fn inside_word(t: Seq<char>, at: int, c: char) -> bool {
    opens(quotes(), c) && at > 0 && class(t[at - 1]) == Class::Word
}

/// Whether every character from `from` up to `to` is a space.
pub open spec fn all_spaces(t: Seq<char>, from: int, to: int) -> bool {
    forall|i: int| from <= i < to ==> #[trigger] t[i] == ' '
}

/// Where backspace at `at` goes back to, where nothing is selected and there
/// is no pair: over one level of indentation, or over one character.
pub open spec fn back_to(t: Seq<char>, at: int, width: int) -> int {
    let start = start_of_line(t, line_at(t, at));
    if at > start && all_spaces(t, start, at) {
        at - 1 - (at - start - 1) % width
    } else {
        at - 1
    }
}

/// What a command does at one cursor.
pub open spec fn done_at(act: Act, t: Seq<char>, r: Range) -> Option<Deed> {
    let at = r.head as int;
    let line = line_at(t, at);
    match act {
        Act::Insert(text) => deed(r.lo(), r.hi(), text),
        Act::Type { c, pairs: ps } => {
            if r.anchor == r.head && closer(ps, c) is Some && welcome(ps, t, at) && !inside_word(
                t,
                at,
                c,
            ) {
                Some(Deed { from: at, to: at, text: seq![c, closer(ps, c)->0], cursor: 1 })
            } else {
                deed(r.lo(), r.hi(), seq![c])
            }
        },
        Act::Newline { unit, brackets } => {
            let indent = t.subrange(
                start_of_line(t, line_at(t, r.lo())),
                text_of_line(t, line_at(t, r.lo())),
            );
            if r.lo() > 0 && opens(brackets, t[r.lo() - 1]) {
                deed(r.lo(), r.hi(), seq!['\n'] + indent + unit)
            } else {
                deed(r.lo(), r.hi(), seq!['\n'] + indent)
            }
        },
        Act::Backspace { width, pairs: ps } => {
            if r.anchor != r.head {
                cut(r)
            } else if at == 0 {
                None
            } else if at < t.len() && is_pair(ps, t[at - 1], t[at]) {
                deed(at - 1, at + 1, Seq::empty())
            } else {
                deed(back_to(t, at, width), at, Seq::empty())
            }
        },
        Act::Delete => {
            if r.anchor != r.head {
                cut(r)
            } else if at < t.len() {
                deed(at, at + 1, Seq::empty())
            } else {
                None
            }
        },
        Act::BackspaceWord => {
            if r.anchor != r.head { cut(r) } else { cut_between(word_before(t, at), at) }
        },
        Act::DeleteWord => {
            if r.anchor != r.head { cut(r) } else { cut_between(at, word_after(t, at)) }
        },
        Act::ToLineStart => {
            let first = text_of_line(t, line);
            cut_between(if at > first { first } else { start_of_line(t, line) }, at)
        },
        Act::ToLineEnd => {
            let end = end_of_line(t, line);
            cut_between(at, if at >= end { least(end + 1, t.len() as int) } else { end })
        },
        Act::Tab { tabs, width, tab_width } => {
            let col = column_of(t, start_of_line(t, line), at, tab_stop(tab_width));
            deed(
                r.lo(),
                r.hi(),
                if tabs { seq!['\t'] } else { spaces((width - col % (width)) as nat) },
            )
        },
    }
}

/// What a command does at every cursor.
pub open spec fn done_at_each(act: Act, t: Seq<char>, rs: Seq<Range>) -> Seq<Option<Deed>> {
    rs.map_values(|r: Range| done_at(act, t, r))
}

/// Whether a command can be carried out: levels of indentation are at least
/// one column wide.
pub open spec fn sensible(act: Act) -> bool {
    match act {
        Act::Backspace { width, .. } => width >= 1,
        Act::Tab { width, .. } => width >= 1,
        _ => true,
    }
}

fn is_quote(c: char) -> (yes: bool)
    ensures
        yes == opens(quotes(), c),
{
    proof {
        assert(quotes()[0].0 == '"' && quotes()[1].0 == '\'' && quotes()[2].0 == '`');
    }
    c == '"' || c == '\'' || c == '`'
}

fn are_spaces(rope: &ropey::Rope, from: usize, to: usize) -> (yes: bool)
    requires
        from <= to <= rope_text(*rope).len(),
    ensures
        yes == all_spaces(rope_text(*rope), from as int, to as int),
{
    let mut at: usize = from;
    while at < to
        invariant
            from <= at <= to <= rope_text(*rope).len(),
            forall|i: int| from <= i < at ==> #[trigger] rope_text(*rope)[i] == ' ',
        decreases to - at,
    {
        if rope.char(at) != ' ' {
            return false;
        }
        at = at + 1;
    }
    true
}

fn of_spaces(n: usize) -> (s: String)
    ensures
        s@ == spaces(n as nat),
{
    let mut s: String = String::new();
    let mut i: usize = 0;
    while i < n
        invariant
            i <= n,
            s@ == spaces(i as nat),
        decreases n - i,
    {
        s.push(' ');
        i = i + 1;
        assert(s@ =~= spaces(i as nat));
    }
    s
}

/// What is made of a cursor says what a command does there.
pub open spec fn says(m: Option<Made>, d: Option<Deed>) -> bool {
    match m {
        Some(m) => d == Some(m@) && m.from <= m.to,
        None => d is None,
    }
}

fn cut_made(from: usize, to: usize) -> (m: Option<Made>)
    ensures
        says(m, cut_between(from as int, to as int)),
{
    if from < to { made(from, to, String::new()) } else { None }
}

fn type_at(rope: &ropey::Rope, r: Range, c: char, ps: &Vec<(char, char)>) -> (m: Option<Made>)
    requires
        r.head <= rope_text(*rope).len(),
    ensures
        ({
            let t = rope_text(*rope);
            let at = r.head as int;
            says(
                m,
                if r.anchor == r.head && closer(ps@, c) is Some && welcome(ps@, t, at)
                    && !inside_word(t, at, c) {
                    Some(Deed { from: at, to: at, text: seq![c, closer(ps@, c)->0], cursor: 1 })
                } else {
                    deed(r.lo(), r.hi(), seq![c])
                },
            )
        }),
{
    let at = r.head;
    if r.is_empty() {
        match closer_of(ps, c) {
            Some(close) => {
                let welcome = match char_at(rope, at) {
                    None => true,
                    Some(n) => n.is_whitespace() || is_closer(ps, n) || n == ',',
                };
                let inside = is_quote(c) && at > 0 && class_of(rope.char(at - 1)) == Class::Word;
                if welcome && !inside {
                    let mut text: String = String::new();
                    text.push(c);
                    text.push(close);
                    assert(text@ =~= seq![c, close]);
                    return Some(Made { from: at, to: at, text, cursor: 1 });
                }
            },
            None => {},
        }
    }
    let mut text: String = String::new();
    text.push(c);
    assert(text@ =~= seq![c]);
    made(r.start(), r.end(), text)
}

fn newline_at(rope: &ropey::Rope, r: Range, unit: &String, brackets: &Vec<(char, char)>) -> (m: Option<
    Made,
>)
    requires
        r.head <= rope_text(*rope).len(),
        r.anchor <= rope_text(*rope).len(),
    ensures
        says(
            m,
            done_at(
                Act::Newline { unit: unit@, brackets: brackets@ },
                rope_text(*rope),
                r,
            ),
        ),
{
    let ghost t = rope_text(*rope);
    let at = r.start();
    let line = line_of(rope, at);
    let indent = indent_of(rope, line);
    let mut text: String = String::new();
    text.push('\n');
    text.append(indent.as_str());
    assert(text@ =~= seq!['\n'] + indent@);
    if at > 0 && is_opener(brackets, rope.char(at - 1)) {
        text.append(unit.as_str());
    }
    made(r.start(), r.end(), text)
}

fn backspace_at(rope: &ropey::Rope, r: Range, width: usize, ps: &Vec<(char, char)>) -> (m: Option<Made>)
    requires
        r.head <= rope_text(*rope).len(),
        width >= 1,
    ensures
        says(m, done_at(Act::Backspace { width: width as int, pairs: ps@ }, rope_text(*rope), r)),
{
    let ghost t = rope_text(*rope);
    if !r.is_empty() {
        return made(r.start(), r.end(), String::new());
    }
    let at = r.head;
    if at == 0 {
        return None;
    }
    let before = rope.char(at - 1);
    let _len = rope.len_chars();
    match char_at(rope, at) {
        Some(after) => {
            if are_pair(ps, before, after) {
                return made(at - 1, at + 1, String::new());
            }
        },
        None => {},
    }
    proof {
        lemma_line_of(t, at as int);
    }
    let start = line_start(rope, line_of(rope, at));
    if at > start && are_spaces(rope, start, at) {
        let column: usize = at - start - 1;
        assert(column % width <= column) by (nonlinear_arith)
            requires
                width >= 1,
        ;
        let over = column % width;
        return made(at - 1 - over, at, String::new());
    }
    made(at - 1, at, String::new())
}

/// What a command does at one cursor.
fn make(command: &Command, rope: &ropey::Rope, r: Range) -> (m: Option<Made>)
    requires
        r.head <= rope_text(*rope).len(),
        r.anchor <= rope_text(*rope).len(),
        sensible(command@),
    ensures
        says(m, done_at(command@, rope_text(*rope), r)),
{
    let ghost t = rope_text(*rope);
    let at = r.head;
    match command {
        Command::Insert(text) => made(r.start(), r.end(), text.clone()),
        Command::Type { c, pairs } => type_at(rope, r, *c, pairs),
        Command::Newline { unit, brackets } => newline_at(rope, r, unit, brackets),
        Command::Backspace { width, pairs } => backspace_at(rope, r, *width, pairs),
        Command::Delete => {
            if !r.is_empty() {
                made(r.start(), r.end(), String::new())
            } else if at < rope.len_chars() {
                made(at, at + 1, String::new())
            } else {
                None
            }
        },
        Command::BackspaceWord => {
            if !r.is_empty() {
                made(r.start(), r.end(), String::new())
            } else {
                cut_made(word_start(rope, at), at)
            }
        },
        Command::DeleteWord => {
            if !r.is_empty() {
                made(r.start(), r.end(), String::new())
            } else {
                cut_made(at, word_end(rope, at))
            }
        },
        Command::ToLineStart => {
            let line = line_of(rope, at);
            let first = first_non_blank(rope, line);
            let from: usize = if at > first { first } else { line_start(rope, line) };
            cut_made(from, at)
        },
        Command::ToLineEnd => {
            let line = line_of(rope, at);
            let end = line_end(rope, line);
            let len = rope.len_chars();
            let to: usize = if at >= end {
                if end < len { end + 1 } else { len }
            } else {
                end
            };
            cut_made(at, to)
        },
        Command::Tab { tabs, width, tab_width } => {
            let col = visual_column(rope, at, *tab_width);
            let text = if *tabs {
                let mut text: String = String::new();
                text.push('\t');
                assert(text@ =~= seq!['\t']);
                text
            } else {
                of_spaces(*width - col % *width)
            };
            made(r.start(), r.end(), text)
        },
    }
}

/// Carry a command out at every cursor.
pub fn perform(doc: &mut Document, pane: &mut Pane, atomic: bool, command: &Command, now: u64) -> (edits:
    Vec<AppliedEdit>)
    requires
        ready(*old(doc), *old(pane)),
        sensible(command@),
    ensures
        performed(
            *old(doc),
            *final(doc),
            *old(pane),
            *final(pane),
            atomic,
            command@,
            now,
            edits@,
        ),
{
    let mut ms: Vec<Option<Made>> = Vec::new();
    let ghost t = doc.content();
    let ghost rs = pane.sel.ranges@;
    let mut n: usize = 0;
    while n < pane.sel.ranges.len()
        invariant
            n <= pane.sel.ranges@.len(),
            *doc == *old(doc),
            *pane == *old(pane),
            t == doc.content(),
            rs == pane.sel.ranges@,
            ready(*doc, *pane),
            sensible(command@),
            deeds(ms@) == done_at_each(command@, t, rs).take(n as int),
            forall|i: int| 0 <= i < ms@.len() ==> match #[trigger] ms@[i] {
                Some(m) => m.from <= m.to,
                None => true,
            },
            ms@.len() == n,
        decreases pane.sel.ranges@.len() - n,
    {
        let r = pane.sel.ranges[n];
        let m = make(command, &doc.rope, r);
        ms.push(m);
        n = n + 1;
        assert(deeds(ms@) =~= done_at_each(command@, t, rs).take(n as int));
    }
    assert(deeds(ms@) =~= done_at_each(command@, t, rs));
    each(doc, pane, atomic, &ms, now)
}

/// Put a text in at every cursor, in place of what is selected.
pub fn insert(doc: &mut Document, pane: &mut Pane, text: &str, now: u64) -> (edits: Vec<AppliedEdit>)
    requires
        ready(*old(doc), *old(pane)),
    ensures
        performed(
            *old(doc),
            *final(doc),
            *old(pane),
            *final(pane),
            false,
            Act::Insert(text@),
            now,
            edits@,
        ),
{
    let command = Command::Insert(text.to_owned());
    perform(doc, pane, false, &command, now)
}

/// The same, standing alone in the history: for a paste.
pub fn insert_atomic(doc: &mut Document, pane: &mut Pane, text: &str, now: u64) -> (edits: Vec<
    AppliedEdit,
>)
    requires
        ready(*old(doc), *old(pane)),
    ensures
        performed(
            *old(doc),
            *final(doc),
            *old(pane),
            *final(pane),
            true,
            Act::Insert(text@),
            now,
            edits@,
        ),
{
    let command = Command::Insert(text.to_owned());
    perform(doc, pane, true, &command, now)
}

/// What a command carried out at every cursor does.
pub open spec fn performed(
    was: Document,
    is: Document,
    before: Pane,
    after: Pane,
    atomic: bool,
    act: Act,
    now: u64,
    edits: Seq<AppliedEdit>,
) -> bool {
    did_each(
        was,
        is,
        before,
        after,
        atomic,
        done_at_each(act, was.content(), before.sel.ranges@),
        now,
        edits,
    )
}

pub open spec fn some_selected(s: Selections) -> bool {
    exists|i: int| 0 <= i < s.ranges@.len() && (#[trigger] s.ranges@[i]).anchor != s.ranges@[i].head
}

/// Whether every cursor stands, with nothing selected, before that character.
pub open spec fn all_before(s: Selections, t: Seq<char>, c: char) -> bool {
    forall|i: int|
        0 <= i < s.ranges@.len() ==> (#[trigger] s.ranges@[i]).anchor == s.ranges@[i].head
            && s.ranges@[i].head < t.len() && t[s.ranges@[i].head as int] == c
}

/// Cursors a character further on.
pub open spec fn stepped(rs: Seq<Range>) -> Seq<Range> {
    rs.map_values(
        |r: Range| Range { anchor: (r.head + 1) as usize, head: (r.head + 1) as usize },
    )
}

pub fn any_selected(s: &Selections) -> (yes: bool)
    ensures
        yes == some_selected(*s),
{
    let mut n: usize = 0;
    while n < s.ranges.len()
        invariant
            n <= s.ranges@.len(),
            forall|i: int|
                0 <= i < n ==> (#[trigger] s.ranges@[i]).anchor == s.ranges@[i].head,
        decreases s.ranges@.len() - n,
    {
        if !s.ranges[n].is_empty() {
            return true;
        }
        n = n + 1;
    }
    false
}

fn every_cursor_before(s: &Selections, rope: &ropey::Rope, c: char) -> (yes: bool)
    ensures
        yes == all_before(*s, rope_text(*rope), c),
{
    let mut n: usize = 0;
    while n < s.ranges.len()
        invariant
            n <= s.ranges@.len(),
            forall|i: int|
                0 <= i < n ==> (#[trigger] s.ranges@[i]).anchor == s.ranges@[i].head
                    && s.ranges@[i].head < rope_text(*rope).len()
                    && rope_text(*rope)[s.ranges@[i].head as int] == c,
        decreases s.ranges@.len() - n,
    {
        let r = s.ranges[n];
        let there = r.is_empty() && match char_at(rope, r.head) {
            Some(d) => d == c,
            None => false,
        };
        if !there {
            assert(s.ranges@[n as int] == r);
            return false;
        }
        n = n + 1;
    }
    true
}

/// What typing a character does to a document and a pane, where those pairs close
/// themselves.
pub open spec fn typed(
    was: Document,
    is: Document,
    before: Pane,
    after: Pane,
    c: char,
    ps: Seq<(char, char)>,
    now: u64,
    edits: Seq<AppliedEdit>,
) -> bool {
    let sel = before.sel;
    if closer(ps, c) is Some && some_selected(sel) {
        surrounded(was, is, before, after, c, closer(ps, c)->0, now, edits)
    } else if closes(ps, c) && all_before(sel, was.content(), c) {
        &&& closed(was, is)
        &&& selects(after.sel, stepped(sel.ranges@), sel.primary as int)
        &&& after.goal == before.goal
        &&& edits.len() == 0
    } else {
        performed(was, is, before, after, false, Act::Type { c, pairs: ps }, now, edits)
    }
}

/// Type a character at every cursor. Where pairs close themselves, one that
/// opens something wraps what is selected and otherwise brings what closes it
/// along, and one that closes something steps over what is already there.
pub fn insert_char(
    doc: &mut Document,
    pane: &mut Pane,
    c: char,
    auto_pairs: bool,
    brackets: &Vec<(char, char)>,
    now: u64,
) -> (edits: Vec<AppliedEdit>)
    requires
        ready(*old(doc), *old(pane)),
    ensures
        typed(
            *old(doc),
            *final(doc),
            *old(pane),
            *final(pane),
            c,
            if auto_pairs { pairs(brackets@) } else { Seq::empty() },
            now,
            edits@,
        ),
{
    let ps: Vec<(char, char)> = if auto_pairs { all_pairs(brackets) } else { Vec::new() };
    assert(!auto_pairs ==> ps@ =~= Seq::<(char, char)>::empty());
    match closer_of(&ps, c) {
        Some(close) => {
            if any_selected(&pane.sel) {
                return surround(doc, pane, c, close, now);
            }
        },
        None => {},
    }
    if is_closer(&ps, c) && every_cursor_before(&pane.sel, &doc.rope, c) {
        let mut given: Vec<Range> = Vec::new();
        let mut n: usize = 0;
        let _len = doc.rope.len_chars();
        while n < pane.sel.ranges.len()
            invariant
                n <= pane.sel.ranges@.len(),
                *pane == *old(pane),
                _len == doc.content().len(),
                all_before(pane.sel, doc.content(), c),
                given@ == stepped(pane.sel.ranges@).take(n as int),
            decreases pane.sel.ranges@.len() - n,
        {
            let r = pane.sel.ranges[n];
            given.push(Range::point(r.head + 1));
            n = n + 1;
            assert(given@ =~= stepped(pane.sel.ranges@).take(n as int));
        }
        assert(given@ =~= stepped(pane.sel.ranges@));
        pane.sel = Selections::many(&given, pane.sel.primary);
        doc.close_revision();
        return Vec::new();
    }
    let command = Command::Type { c, pairs: ps };
    perform(doc, pane, false, &command, now)
}

/// The changes that put one character before and one after each range.
pub open spec fn wrappings(rs: Seq<Range>, open: char, close: char) -> Seq<Patch>
    decreases rs.len(),
{
    if rs.len() == 0 {
        Seq::empty()
    } else {
        let r = rs.last();
        wrappings(rs.drop_last(), open, close).push(
            Patch { from: r.lo(), to: r.lo(), text: seq![open] },
        ).push(Patch { from: r.hi(), to: r.hi(), text: seq![close] })
    }
}

/// Ranges moved along by what was put in before them and at their start.
pub open spec fn pushed_along(rs: Seq<Range>) -> Seq<Range> {
    Seq::new(
        rs.len(),
        |i: int|
            Range {
                anchor: least(usize::MAX as int, rs[i].anchor + i * 2 + 1) as usize,
                head: least(usize::MAX as int, rs[i].head + i * 2 + 1) as usize,
            },
    )
}

/// What wrapping every selection does to a document and a pane.
pub open spec fn surrounded(
    was: Document,
    is: Document,
    before: Pane,
    after: Pane,
    open: char,
    close: char,
    now: u64,
    edits: Seq<AppliedEdit>,
) -> bool {
    let cs = planned(wrappings(before.sel.ranges@, open, close));
    &&& exists|mid: Document|
        {
            &&& cs.len() == 0 ==> closed(was, mid) && edits.len() == 0
            &&& cs.len() > 0 ==> applied(was, mid, cs, before.sel, false, now, edits)
            &&& #[trigger] recorded(mid, is, after.sel)
        }
    &&& selects(after.sel, pushed_along(before.sel.ranges@), before.sel.primary as int)
    &&& after.goal == before.goal
}

/// Wrap what is selected in a pair, and keep it selected.
fn surround(doc: &mut Document, pane: &mut Pane, open: char, close: char, now: u64) -> (edits: Vec<
    AppliedEdit,
>)
    requires
        old(pane).sel.wf(),
    ensures
        surrounded(
            *old(doc),
            *final(doc),
            *old(pane),
            *final(pane),
            open,
            close,
            now,
            edits@,
        ),
{
    let ghost rs = pane.sel.ranges@;
    let mut changes: Vec<Change> = Vec::new();
    let mut after: Vec<Range> = Vec::new();
    let mut n: usize = 0;
    assert(patches(changes@) =~= wrappings(rs.take(0), open, close));
    while n < pane.sel.ranges.len()
        invariant
            n <= pane.sel.ranges@.len(),
            *pane == *old(pane),
            rs == pane.sel.ranges@,
            patches(changes@) == wrappings(rs.take(n as int), open, close),
            after@ == pushed_along(rs).take(n as int),
        decreases pane.sel.ranges@.len() - n,
    {
        let r = pane.sel.ranges[n];
        let ghost was = changes@;
        let mut a: String = String::new();
        a.push(open);
        assert(a@ =~= seq![open]);
        let mut b: String = String::new();
        b.push(close);
        assert(b@ =~= seq![close]);
        let first = Change::insert(r.start(), a);
        let second = Change::insert(r.end(), b);
        changes.push(first);
        changes.push(second);
        let shift: u128 = n as u128 * 2 + 1;
        after.push(
            Range {
                anchor: moved(r.anchor, shift, 0, 0, usize::MAX),
                head: moved(r.head, shift, 0, 0, usize::MAX),
            },
        );
        proof {
            assert(rs.take(n + 1).drop_last() =~= rs.take(n as int));
            assert(patches(changes@) =~= patches(was).push(first@).push(second@));
            assert(after@ =~= pushed_along(rs).take(n + 1));
        }
        n = n + 1;
    }
    assert(rs.take(n as int) =~= rs);
    assert(after@ =~= pushed_along(rs));
    let changes = plan(changes);
    assert(patches(changes@).len() == changes@.len());
    let edits = doc.apply_atomic(changes, &pane.sel, now);
    let ghost mid = *doc;
    pane.sel = Selections::many(&after, pane.sel.primary);
    doc.record_selections(&pane.sel);
    assert(recorded(mid, *doc, pane.sel));
    edits
}

/// Begin a new line at every cursor.
pub fn newline(doc: &mut Document, pane: &mut Pane, brackets: &Vec<(char, char)>, now: u64) -> (edits:
    Vec<AppliedEdit>)
    requires
        ready(*old(doc), *old(pane)),
    ensures
        performed(
            *old(doc),
            *final(doc),
            *old(pane),
            *final(pane),
            false,
            Act::Newline { unit: old(doc).indent.written(), brackets: brackets@ },
            now,
            edits@,
        ),
{
    let command = Command::Newline { unit: doc.indent.unit(), brackets: copied(brackets) };
    perform(doc, pane, false, &command, now)
}

fn copied(ps: &Vec<(char, char)>) -> (v: Vec<(char, char)>)
    ensures
        v@ == ps@,
{
    let mut v: Vec<(char, char)> = Vec::new();
    let mut n: usize = 0;
    while n < ps.len()
        invariant
            n <= ps@.len(),
            v@ == ps@.take(n as int),
        decreases ps@.len() - n,
    {
        v.push(ps[n]);
        n = n + 1;
    }
    assert(v@ =~= ps@);
    v
}

/// An indentation with one level taken off, where it ends in one.
pub open spec fn outdented(indent: Seq<char>, unit: Seq<char>) -> Seq<char> {
    let n = indent.len() - unit.len();
    if n >= 0 && indent.skip(n) == unit {
        indent.take(n)
    } else {
        indent
    }
}

/// The changes that put a closing bracket at each cursor onto a line of its
/// own.
pub open spec fn closings(
    t: Seq<char>,
    rs: Seq<Range>,
    unit: Seq<char>,
    brackets: Seq<(char, char)>,
) -> Seq<Patch>
    decreases rs.len(),
{
    if rs.len() == 0 {
        Seq::empty()
    } else {
        let less = closings(t, rs.drop_last(), unit, brackets);
        let at = rs.last().head as int;
        if at < t.len() && closes(brackets, t[at]) {
            let line = line_at(t, at);
            let indent = t.subrange(start_of_line(t, line), text_of_line(t, line));
            less.push(Patch { from: at, to: at, text: seq!['\n'] + outdented(indent, unit) })
        } else {
            less
        }
    }
}

/// An indentation with one level taken off, where it ends in one.
fn outdent(indent: &String, unit: &String) -> (s: String)
    ensures
        s@ == outdented(indent@, unit@),
{
    let a = chars_of(indent.as_str());
    let b = chars_of(unit.as_str());
    if a.len() < b.len() {
        return indent.clone();
    }
    let all = a.len();
    let n = all - b.len();
    let mut i: usize = 0;
    while i < b.len()
        invariant
            i <= b@.len(),
            all == a@.len(),
            n == all - b@.len(),
            a@ == indent@,
            b@ == unit@,
            forall|j: int| 0 <= j < i ==> a@[n + j] == #[trigger] b@[j],
        decreases b@.len() - i,
    {
        if a[n + i] != b[i] {
            proof {
                assert(a@.skip(n as int)[i as int] != b@[i as int]);
            }
            return indent.clone();
        }
        i = i + 1;
    }
    assert(a@.skip(n as int) =~= b@);
    let s = string_of(&a, 0, n);
    assert(s@ =~= a@.take(n as int));
    s
}

/// What putting closing brackets onto lines of their own does to a document.
pub open spec fn set_apart(
    was: Document,
    is: Document,
    pane: Pane,
    brackets: Seq<(char, char)>,
    now: u64,
    edits: Seq<AppliedEdit>,
) -> bool {
    let cs = closings(was.content(), pane.sel.ranges@, was.indent.written(), brackets);
    if cs.len() == 0 {
        is == was && edits.len() == 0
    } else {
        exists|mid: Document|
            {
                &&& applied(was, mid, planned(cs), pane.sel, true, now, edits)
                &&& #[trigger] recorded(mid, is, pane.sel)
            }
    }
}

/// Put the closing bracket that a cursor stands before onto a line of its
/// own, one level further out.
pub fn newline_closing(doc: &mut Document, pane: &Pane, brackets: &Vec<(char, char)>, now: u64) -> (edits:
    Vec<AppliedEdit>)
    ensures
        set_apart(*old(doc), *final(doc), *pane, brackets@, now, edits@),
{
    let ghost t = doc.content();
    let ghost rs = pane.sel.ranges@;
    let unit = doc.indent.unit();
    let mut changes: Vec<Change> = Vec::new();
    let mut n: usize = 0;
    assert(patches(changes@) =~= closings(t, rs.take(0), unit@, brackets@));
    while n < pane.sel.ranges.len()
        invariant
            n <= pane.sel.ranges@.len(),
            *doc == *old(doc),
            t == doc.content(),
            rs == pane.sel.ranges@,
            patches(changes@) == closings(t, rs.take(n as int), unit@, brackets@),
        decreases pane.sel.ranges@.len() - n,
    {
        let at = pane.sel.ranges[n].head;
        let ghost was = changes@;
        proof {
            assert(rs.take(n + 1).drop_last() =~= rs.take(n as int));
            assert(rs.take(n + 1).last().head == at);
        }
        match char_at(&doc.rope, at) {
            Some(next) => {
                if is_closer(brackets, next) {
                    let line = line_of(&doc.rope, at);
                    let indent = indent_of(&doc.rope, line);
                    let outer = outdent(&indent, &unit);
                    let mut text: String = String::new();
                    text.push('\n');
                    text.append(outer.as_str());
                    assert(text@ =~= seq!['\n'] + outer@);
                    let c = Change::insert(at, text);
                    changes.push(c);
                    assert(patches(changes@) =~= patches(was).push(c@));
                }
            },
            None => {},
        }
        n = n + 1;
    }
    assert(rs.take(n as int) =~= rs);
    assert(patches(changes@).len() == changes@.len());
    if changes.len() == 0 {
        return Vec::new();
    }
    let edits = doc.apply(plan(changes), &pane.sel, now);
    let ghost mid = *doc;
    doc.record_selections(&pane.sel);
    assert(recorded(mid, *doc, pane.sel));
    edits
}

/// What a level of indentation is wide, and at least one column.
pub open spec fn level(indent: Indent, tab_width: usize) -> usize {
    most(1, indent.columns(tab_width) as int) as usize
}

pub fn level_of(indent: Indent, tab_width: usize) -> (n: usize)
    ensures
        n == level(indent, tab_width),
        n >= 1,
{
    let n = indent.width(tab_width);
    if n >= 1 { n } else { 1 }
}

/// Take back what is before every cursor.
pub fn delete_backward(
    doc: &mut Document,
    pane: &mut Pane,
    tab_width: usize,
    brackets: &Vec<(char, char)>,
    now: u64,
) -> (edits: Vec<AppliedEdit>)
    requires
        ready(*old(doc), *old(pane)),
    ensures
        performed(
            *old(doc),
            *final(doc),
            *old(pane),
            *final(pane),
            false,
            Act::Backspace {
                width: level(old(doc).indent, tab_width) as int,
                pairs: pairs(brackets@),
            },
            now,
            edits@,
        ),
{
    let command = Command::Backspace {
        width: level_of(doc.indent, tab_width),
        pairs: all_pairs(brackets),
    };
    perform(doc, pane, false, &command, now)
}

/// Delete what is after every cursor.
pub fn delete_forward(doc: &mut Document, pane: &mut Pane, now: u64) -> (edits: Vec<AppliedEdit>)
    requires
        ready(*old(doc), *old(pane)),
    ensures
        performed(
            *old(doc),
            *final(doc),
            *old(pane),
            *final(pane),
            false,
            Act::Delete,
            now,
            edits@,
        ),
{
    perform(doc, pane, false, &Command::Delete, now)
}

/// Take back the word before every cursor.
pub fn delete_word_backward(doc: &mut Document, pane: &mut Pane, now: u64) -> (edits: Vec<AppliedEdit>)
    requires
        ready(*old(doc), *old(pane)),
    ensures
        performed(
            *old(doc),
            *final(doc),
            *old(pane),
            *final(pane),
            false,
            Act::BackspaceWord,
            now,
            edits@,
        ),
{
    perform(doc, pane, false, &Command::BackspaceWord, now)
}

/// Delete the word after every cursor.
pub fn delete_word_forward(doc: &mut Document, pane: &mut Pane, now: u64) -> (edits: Vec<AppliedEdit>)
    requires
        ready(*old(doc), *old(pane)),
    ensures
        performed(
            *old(doc),
            *final(doc),
            *old(pane),
            *final(pane),
            false,
            Act::DeleteWord,
            now,
            edits@,
        ),
{
    perform(doc, pane, false, &Command::DeleteWord, now)
}

/// Delete back to where the text of the line begins, or from there back to
/// the margin.
pub fn delete_to_line_start(doc: &mut Document, pane: &mut Pane, now: u64) -> (edits: Vec<AppliedEdit>)
    requires
        ready(*old(doc), *old(pane)),
    ensures
        performed(
            *old(doc),
            *final(doc),
            *old(pane),
            *final(pane),
            false,
            Act::ToLineStart,
            now,
            edits@,
        ),
{
    perform(doc, pane, false, &Command::ToLineStart, now)
}

/// Delete up to the end of the line, or the line ending where that is where
/// the cursor is.
pub fn delete_to_line_end(doc: &mut Document, pane: &mut Pane, now: u64) -> (edits: Vec<AppliedEdit>)
    requires
        ready(*old(doc), *old(pane)),
    ensures
        performed(
            *old(doc),
            *final(doc),
            *old(pane),
            *final(pane),
            false,
            Act::ToLineEnd,
            now,
            edits@,
        ),
{
    perform(doc, pane, false, &Command::ToLineEnd, now)
}
// ---------------------------------------------------------------------------
// Brackets that close themselves
// ---------------------------------------------------------------------------

proof fn lemma_closer_pairs(ps: Seq<(char, char)>, c: char)
    requires
        closer(ps, c) is Some,
    ensures
        is_pair(ps, c, closer(ps, c)->0),
    decreases ps.len(),
{
    if ps[0].0 != c {
        let more = ps.skip(1);
        lemma_closer_pairs(more, c);
        let i = choose|i: int| 0 <= i < more.len() && #[trigger] more[i] == (c, closer(ps, c)->0);
        assert(ps[i + 1] == more[i]);
    } else {
        assert(ps[0] == (c, closer(ps, c)->0));
    }
}

/// A bracket that closed itself is taken back whole: backspace between the two
/// leaves the text as it was before the bracket was typed.
pub proof fn law_backspace_takes_both_brackets(
    t: Seq<char>,
    ps: Seq<(char, char)>,
    c: char,
    r: Range,
    width: int,
)
    requires
        r.anchor == r.head,
        r.head <= t.len(),
        r.head < usize::MAX,
        closer(ps, c) is Some,
        welcome(ps, t, r.head as int),
        !inside_word(t, r.head as int, c),
    ensures
        ({
            let d = done_at(Act::Type { c, pairs: ps }, t, r)->0;
            let typed = edited(t, Patch { from: d.from, to: d.to, text: d.text });
            let at = (d.from + d.cursor) as usize;
            let b = done_at(
                Act::Backspace { width, pairs: ps },
                typed,
                Range { anchor: at, head: at },
            )->0;
            edited(typed, Patch { from: b.from, to: b.to, text: b.text }) == t && b.from + b.cursor
                == r.head
        }),
{
    let at = r.head as int;
    let pair = seq![c, closer(ps, c)->0];
    let typed = edited(t, Patch { from: at, to: at, text: pair });
    lemma_closer_pairs(ps, c);
    assert(typed[at] == pair[0] && typed[at + 1] == pair[1]);
    assert(edited(typed, Patch { from: at, to: at + 2, text: Seq::empty() }) =~= t);
}

} // verus!
