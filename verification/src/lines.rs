//! The commands that work on whole lines.
use vstd::prelude::*;

use crate::change::{patches, Change, Patch};
use crate::chars::{chars_of, string_of};
use crate::doc::{applied, recorded, AppliedEdit, Document};
use crate::edit::{plan, planned, ready};
use crate::pane::{absorbed, selects, Pane};
use crate::rope::{line_at, line_count, rope_text, slice, start_of_line};
use crate::text::{
    after_line, begun, collapsed, end_of_line, first_non_blank, least, lemma_line_bounds,
    lemma_line_of, line_after, line_end, line_of, line_start, most, settled, text_of_line, Range,
    Selections,
};

verus! {

// ---------------------------------------------------------------------------
// The lines that the cursors touch
// ---------------------------------------------------------------------------

/// The first and the last line that a range is on. One that ends where a line
/// begins is not on that line.
pub open spec fn span_of(t: Seq<char>, r: Range) -> (int, int) {
    let first = line_at(t, least(r.lo(), t.len() as int)) as int;
    let last = line_at(t, least(r.hi(), t.len() as int)) as int;
    if last > first && r.hi() == start_of_line(t, last as nat) {
        (first, last - 1)
    } else {
        (first, last)
    }
}

/// The spans of lines that ranges are on, with those that meet made one.
pub open spec fn touched(t: Seq<char>, rs: Seq<Range>) -> Seq<(int, int)>
    decreases rs.len(),
{
    if rs.len() == 0 {
        Seq::empty()
    } else {
        let m = touched(t, rs.drop_last());
        let s = span_of(t, rs.last());
        if m.len() > 0 && m.last().1 + 1 >= s.0 {
            m.drop_last().push((m.last().0, most(m.last().1, s.1)))
        } else {
            m.push(s)
        }
    }
}

/// Spans of lines as whole numbers.
pub open spec fn whole(v: Seq<(usize, usize)>) -> Seq<(int, int)> {
    v.map_values(|p: (usize, usize)| (p.0 as int, p.1 as int))
}

/// Whether spans are spans of lines of a text.
pub open spec fn spans_ok(t: Seq<char>, spans: Seq<(int, int)>) -> bool {
    forall|i: int|
        0 <= i < spans.len() ==> 0 <= (#[trigger] spans[i]).0 <= spans[i].1 < line_count(t)
}

/// The lines that the cursors touch are in order and without repeats: each
/// span of them begins after the one before it has ended, with a line between.
pub proof fn law_touched_lines_are_in_order(t: Seq<char>, rs: Seq<Range>)
    ensures
        spans_ok(t, touched(t, rs)),
        forall|i: int, j: int|
            0 <= i < j < touched(t, rs).len() ==> (#[trigger] touched(t, rs)[i]).1 + 1 < (
            #[trigger] touched(t, rs)[j]).0,
    decreases rs.len(),
{
    if rs.len() > 0 {
        law_touched_lines_are_in_order(t, rs.drop_last());
        let m = touched(t, rs.drop_last());
        let r = rs.last();
        lemma_line_of(t, least(r.lo(), t.len() as int));
        lemma_line_of(t, least(r.hi(), t.len() as int));
        crate::rope::lemma_line_at_grows(
            t,
            least(r.lo(), t.len() as int),
            least(r.hi(), t.len() as int),
        );
        if m.len() > 0 && !(m.last().1 + 1 >= span_of(t, r).0) {
            assert forall|i: int| 0 <= i < m.len() implies (#[trigger] m[i]).1 + 1 < span_of(t, r).0 by {
                if i < m.len() - 1 {
                    assert(m[i].1 + 1 < m[m.len() - 1].0);
                }
            }
        }
    }
}

/// The lines any cursor is on or touches, in order and without repeats.
pub fn touched_lines(rope: &ropey::Rope, sel: &Selections) -> (spans: Vec<(usize, usize)>)
    ensures
        whole(spans@) == touched(rope_text(*rope), sel.ranges@),
        spans_ok(rope_text(*rope), whole(spans@)),
{
    let ghost t = rope_text(*rope);
    let ghost rs = sel.ranges@;
    let mut spans: Vec<(usize, usize)> = Vec::new();
    let mut n: usize = 0;
    assert(whole(spans@) =~= touched(t, rs.take(0)));
    while n < sel.ranges.len()
        invariant
            n <= sel.ranges@.len(),
            t == rope_text(*rope),
            rs == sel.ranges@,
            whole(spans@) == touched(t, rs.take(n as int)),
        decreases sel.ranges@.len() - n,
    {
        let r = sel.ranges[n];
        let first = line_of(rope, r.start());
        let mut last = line_of(rope, r.end());
        if last > first && r.end() == line_start(rope, last) {
            last = last - 1;
        }
        proof {
            assert(rs.take(n + 1).drop_last() =~= rs.take(n as int));
            law_touched_lines_are_in_order(t, rs.take(n as int));
            assert(span_of(t, r) == (first as int, last as int));
        }
        let ghost was = spans@;
        let _lines = rope.len_lines();
        let joins = match spans.last() {
            Some(prev) => {
                proof {
                    assert(whole(was)[was.len() - 1].1 == prev.1);
                }
                prev.1 + 1 >= first
            },
            None => false,
        };
        if joins {
            let at = spans.len() - 1;
            let prev = spans[at];
            spans.set(at, (prev.0, if prev.1 <= last { last } else { prev.1 }));
            assert(whole(spans@) =~= whole(was).drop_last().push(
                (whole(was).last().0, most(whole(was).last().1, last as int)),
            ));
        } else {
            spans.push((first, last));
            assert(whole(spans@) =~= whole(was).push((first as int, last as int)));
        }
        n = n + 1;
    }
    assert(rs.take(n as int) =~= rs);
    proof {
        law_touched_lines_are_in_order(t, rs);
    }
    spans
}

// ---------------------------------------------------------------------------
// Doing a set of changes and carrying the cursors along
// ---------------------------------------------------------------------------

/// What a set of changes that stands alone in the history does to a document
/// and a pane.
pub open spec fn committed(
    was: Document,
    is: Document,
    before: Pane,
    after: Pane,
    cs: Seq<Patch>,
    collapse: bool,
    now: u64,
    edits: Seq<AppliedEdit>,
) -> bool {
    if cs.len() == 0 {
        is == was && after == before && edits.len() == 0
    } else {
        let carried = absorbed(before.sel.ranges@, edits, is.content().len() as usize);
        &&& exists|mid: Document|
            {
                &&& applied(was, mid, cs, before.sel, false, now, edits)
                &&& #[trigger] recorded(mid, is, after.sel)
            }
        &&& if collapse {
            selects(
                after.sel,
                collapsed(settled(carried)),
                begun(settled(carried), carried[before.sel.primary as int].lo()) - 1,
            )
        } else {
            selects(after.sel, carried, before.sel.primary as int)
        }
        &&& after.goal == before.goal
    }
}

pub fn commit(doc: &mut Document, pane: &mut Pane, changes: Vec<Change>, collapse: bool, now: u64) -> (edits:
    Vec<AppliedEdit>)
    requires
        old(pane).sel.wf(),
    ensures
        committed(
            *old(doc),
            *final(doc),
            *old(pane),
            *final(pane),
            planned(patches(changes@)),
            collapse,
            now,
            edits@,
        ),
{
    let changes = plan(changes);
    assert(patches(changes@).len() == changes@.len());
    if changes.len() == 0 {
        return Vec::new();
    }
    let ghost cs = patches(changes@);
    let ghost t = doc.content();
    let edits = doc.apply_atomic(changes, &pane.sel, now);
    let ghost mid = *doc;
    assert forall|i: int| 0 <= i < edits@.len() implies (#[trigger] edits@[i]).from <= edits@[i].to by {
        assert(crate::doc::describes(
            edits@[i],
            crate::change::made(t, cs, i as nat),
            cs[cs.len() - 1 - i],
        ));
    }
    pane.absorb(&edits, doc.rope.len_chars());
    if collapse {
        pane.sel.collapse_selections();
    }
    doc.record_selections(&pane.sel);
    assert(recorded(mid, *doc, pane.sel));
    edits
}

/// What deleting the lines that the cursors are on does to a document and a pane.
pub open spec fn lines_deleted(
    was: Document,
    is: Document,
    before: Pane,
    after: Pane,
    now: u64,
    edits: Seq<AppliedEdit>,
) -> bool {
    let t = was.content();
    let cs = line_cuts(t, touched(t, before.sel.ranges@));
    committed(was, is, before, after, planned(cs), true, now, edits)
}

/// Delete the lines that the cursors are on.
pub fn delete_line(doc: &mut Document, pane: &mut Pane, now: u64) -> (edits: Vec<AppliedEdit>)
    requires
        ready(*old(doc), *old(pane)),
    ensures
        lines_deleted(
            *old(doc),
            *final(doc),
            *old(pane),
            *final(pane),
            now,
            edits@,
        ),
{
    let ghost t = doc.content();
    let spans = touched_lines(&doc.rope, &pane.sel);
    let mut changes: Vec<Change> = Vec::new();
    let mut n: usize = 0;
    while n < spans.len()
        invariant
            n <= spans@.len(),
            t == doc.content(),
            patches(changes@) =~= line_cuts(t, whole(spans@)).take(n as int),
        decreases spans@.len() - n,
    {
        let (first, last) = spans[n];
        let c = Change::delete(line_start(&doc.rope, first), line_after(&doc.rope, last));
        let ghost was = changes@;
        changes.push(c);
        assert(patches(changes@) =~= patches(was).push(c@));
        n = n + 1;
        assert(patches(changes@) =~= line_cuts(t, whole(spans@)).take(n as int));
    }
    assert(patches(changes@) =~= line_cuts(t, whole(spans@)));
    commit(doc, pane, changes, true, now)
}

/// The changes that take spans of lines out.
pub open spec fn line_cuts(t: Seq<char>, spans: Seq<(int, int)>) -> Seq<Patch> {
    spans.map_values(
        |s: (int, int)|
            Patch {
                from: start_of_line(t, s.0 as nat),
                to: after_line(t, s.1 as nat),
                text: Seq::empty(),
            },
    )
}

/// The text of a span of lines, with their endings.
pub open spec fn block(t: Seq<char>, s: (int, int)) -> Seq<char> {
    t.subrange(start_of_line(t, s.0 as nat), after_line(t, s.1 as nat))
}

/// Whether a text ends in a line feed.
pub open spec fn ends(s: Seq<char>) -> bool {
    s.len() > 0 && s.last() == '\n'
}

/// A text with a line feed at its end.
pub open spec fn ended(s: Seq<char>) -> Seq<char> {
    if ends(s) { s } else { s.push('\n') }
}

/// The changes that put a copy of each span of lines before it.
pub open spec fn copies(t: Seq<char>, spans: Seq<(int, int)>) -> Seq<Patch> {
    spans.map_values(
        |s: (int, int)|
            Patch {
                from: start_of_line(t, s.0 as nat),
                to: start_of_line(t, s.0 as nat),
                text: ended(block(t, s)),
            },
    )
}

pub fn block_of(rope: &ropey::Rope, first: usize, last: usize) -> (v: Vec<char>)
    requires
        first <= last,
    ensures
        v@ == block(rope_text(*rope), (first as int, last as int)),
{
    proof {
        lemma_line_bounds(rope_text(*rope), first as nat);
        lemma_line_bounds(rope_text(*rope), last as nat);
        crate::rope::lemma_after_lines_grows(
            rope_text(*rope),
            first as nat,
            (last + 1) as nat,
            0,
        );
    }
    chars_of(slice(rope, line_start(rope, first), line_after(rope, last)).as_str())
}

/// What copying the lines that the cursors are on does to a document and a pane.
pub open spec fn lines_copied(
    was: Document,
    is: Document,
    before: Pane,
    after: Pane,
    now: u64,
    edits: Seq<AppliedEdit>,
) -> bool {
    let t = was.content();
    let cs = copies(t, touched(t, before.sel.ranges@));
    committed(was, is, before, after, planned(cs), false, now, edits)
}

/// Copy the lines that the cursors are on.
pub fn duplicate_line(doc: &mut Document, pane: &mut Pane, now: u64) -> (edits: Vec<AppliedEdit>)
    requires
        ready(*old(doc), *old(pane)),
    ensures
        lines_copied(
            *old(doc),
            *final(doc),
            *old(pane),
            *final(pane),
            now,
            edits@,
        ),
{
    let ghost t = doc.content();
    let spans = touched_lines(&doc.rope, &pane.sel);
    let mut changes: Vec<Change> = Vec::new();
    let mut n: usize = 0;
    while n < spans.len()
        invariant
            n <= spans@.len(),
            t == doc.content(),
            spans_ok(t, whole(spans@)),
            patches(changes@) =~= copies(t, whole(spans@)).take(n as int),
        decreases spans@.len() - n,
    {
        let (first, last) = spans[n];
        assert(whole(spans@)[n as int] == (first as int, last as int));
        let mut copy = block_of(&doc.rope, first, last);
        if !(copy.len() > 0 && copy[copy.len() - 1] == '\n') {
            copy.push('\n');
        }
        let all = copy.len();
        let text = string_of(&copy, 0, all);
        assert(text@ =~= ended(block(t, (first as int, last as int))));
        let c = Change::insert(line_start(&doc.rope, first), text);
        let ghost was = changes@;
        changes.push(c);
        assert(patches(changes@) =~= patches(was).push(c@));
        n = n + 1;
        assert(patches(changes@) =~= copies(t, whole(spans@)).take(n as int));
    }
    assert(patches(changes@) =~= copies(t, whole(spans@)));
    commit(doc, pane, changes, false, now)
}

// ---------------------------------------------------------------------------
// Moving lines
// ---------------------------------------------------------------------------

/// A text without the line feed at its end, where there is one.
pub open spec fn unended(s: Seq<char>) -> Seq<char> {
    if ends(s) {
        s.drop_last()
    } else {
        s
    }
}

/// The change that swaps a span of lines with the line after or before it.
/// Whichever becomes the last keeps the file ending as it did.
pub open spec fn swap(t: Seq<char>, s: (int, int), down: bool) -> Patch {
    let other = if down { s.1 + 1 } else { s.0 - 1 };
    let moving = block(t, s);
    let neighbour = block(t, (other, other));
    let m = if !ends(moving) {
        ended(moving)
    } else if !ends(neighbour) {
        unended(moving)
    } else {
        moving
    };
    let n = if !ends(moving) { unended(neighbour) } else { ended(neighbour) };
    Patch {
        from: start_of_line(t, (if down { s.0 } else { other }) as nat),
        to: after_line(t, (if down { other } else { s.1 }) as nat),
        text: if down { n + m } else { m + n },
    }
}

/// Whether a span of lines has nowhere to go.
pub open spec fn stuck(t: Seq<char>, s: (int, int), down: bool) -> bool {
    if down { s.1 >= line_count(t) - 1 } else { s.0 == 0 }
}

pub open spec fn any_stuck(t: Seq<char>, spans: Seq<(int, int)>, down: bool) -> bool {
    exists|i: int| 0 <= i < spans.len() && stuck(t, #[trigger] spans[i], down)
}

pub open spec fn swaps(t: Seq<char>, spans: Seq<(int, int)>, down: bool) -> Seq<Patch> {
    spans.map_values(|s: (int, int)| swap(t, s, down))
}

/// A position moved a line on or back, in the same column as far as there is
/// one.
pub open spec fn line_over(t: Seq<char>, at: int, down: bool) -> int {
    let line = line_at(t, least(at, t.len() as int)) as int;
    let col = at - start_of_line(t, line as nat);
    let target = if down {
        least(line + 1, line_count(t) - 1)
    } else {
        most(line - 1, 0)
    };
    least(start_of_line(t, target as nat) + col, end_of_line(t, target as nat))
}

pub open spec fn lines_over(t: Seq<char>, rs: Seq<Range>, down: bool) -> Seq<Range> {
    rs.map_values(
        |r: Range|
            Range {
                anchor: line_over(t, r.anchor as int, down) as usize,
                head: line_over(t, r.head as int, down) as usize,
            },
    )
}

fn over(rope: &ropey::Rope, at: usize, down: bool) -> (r: usize)
    ensures
        r == line_over(rope_text(*rope), at as int, down),
{
    let ghost t = rope_text(*rope);
    proof {
        lemma_line_of(t, least(at as int, t.len() as int));
    }
    let line = line_of(rope, at);
    let col = at - line_start(rope, line);
    let last = rope.len_lines() - 1;
    let target: usize = if down {
        if line < last { line + 1 } else { last }
    } else if line > 0 {
        line - 1
    } else {
        0
    };
    let there = line_start(rope, target).saturating_add(col);
    let end = line_end(rope, target);
    if there <= end { there } else { end }
}

/// Take the line feed off the end, where there is one.
fn unend(v: &mut Vec<char>)
    ensures
        final(v)@ == unended(old(v)@),
{
    if ends_in_newline(v) {
        v.pop();
        assert(v@ =~= old(v)@.drop_last());
    }
}

fn ends_in_newline(v: &Vec<char>) -> (yes: bool)
    ensures
        yes == ends(v@),
{
    v.len() > 0 && v[v.len() - 1] == '\n'
}

fn swapped(rope: &ropey::Rope, first: usize, last: usize, down: bool) -> (c: Change)
    requires
        first <= last < line_count(rope_text(*rope)),
        !stuck(rope_text(*rope), (first as int, last as int), down),
    ensures
        c@ == swap(rope_text(*rope), (first as int, last as int), down),
{
    let ghost t = rope_text(*rope);
    let _lines = rope.len_lines();
    let other: usize = if down { last + 1 } else { first - 1 };
    let mut moving = block_of(rope, first, last);
    let mut neighbour = block_of(rope, other, other);
    let from = line_start(rope, if down { first } else { other });
    let to = line_after(rope, if down { other } else { last });
    if !ends_in_newline(&moving) {
        moving.push('\n');
        unend(&mut neighbour);
    } else if !ends_in_newline(&neighbour) {
        neighbour.push('\n');
        unend(&mut moving);
    }
    let text = if down {
        let ghost a = neighbour@;
        neighbour.append(&mut moving);
        let all = neighbour.len();
        string_of(&neighbour, 0, all)
    } else {
        moving.append(&mut neighbour);
        let all = moving.len();
        string_of(&moving, 0, all)
    };
    assert(text@ =~= swap(t, (first as int, last as int), down).text);
    Change { from, to, text }
}

/// Swapping lines loses nothing of them: what stood below comes first and what
/// stood above comes behind it, and the end of the file stays as it was, with a
/// line feed or without. The lines above end in a line feed.
pub proof fn law_swapped_lines_are_all_there(t: Seq<char>, s: (int, int), down: bool)
    requires
        0 <= s.0 <= s.1 < line_count(t),
        !stuck(t, s, down),
        ends(block(t, if down { s } else { (s.0 - 1, s.0 - 1) })),
    ensures
        ({
            let other = if down { (s.1 + 1, s.1 + 1) } else { (s.0 - 1, s.0 - 1) };
            let upper = block(t, if down { s } else { other });
            let lower = block(t, if down { other } else { s });
            let c = swap(t, s, down);
            &&& t.subrange(c.from, c.to) == upper + lower
            &&& ends(lower) ==> c.text == lower + upper
            &&& !ends(lower) ==> c.text.push('\n') == lower.push('\n') + upper
        }),
{
    let other = if down { (s.1 + 1, s.1 + 1) } else { (s.0 - 1, s.0 - 1) };
    let (a, b) = if down { (s, other) } else { (other, s) };
    let (upper, lower) = (block(t, a), block(t, b));
    let c = swap(t, s, down);
    lemma_line_bounds(t, a.0 as nat);
    lemma_line_bounds(t, b.1 as nat);
    crate::rope::lemma_after_lines_grows(t, a.0 as nat, b.0 as nat, 0);
    crate::rope::lemma_after_lines_grows(t, b.0 as nat, (b.1 + 1) as nat, 0);
    assert(t.subrange(c.from, c.to) =~= upper + lower);
    if !ends(lower) {
        assert(c.text.push('\n') =~= lower.push('\n') + upper);
    }
}

/// What moving lines does to a document and a pane.
pub open spec fn moved_lines(
    was: Document,
    is: Document,
    before: Pane,
    after: Pane,
    down: bool,
    now: u64,
    edits: Seq<AppliedEdit>,
) -> bool {
    let spans = touched(was.content(), before.sel.ranges@);
    let cs = planned(swaps(was.content(), spans, down));
    if any_stuck(was.content(), spans, down) || cs.len() == 0 {
        is == was && after == before && edits.len() == 0
    } else {
        &&& exists|mid: Document|
            {
                &&& applied(was, mid, cs, before.sel, false, now, edits)
                &&& #[trigger] recorded(mid, is, after.sel)
            }
        &&& selects(
            after.sel,
            lines_over(is.content(), before.sel.ranges@, down),
            before.sel.primary as int,
        )
        &&& after.goal == before.goal
    }
}

/// Move the lines that the cursors are on past the next or the one before,
/// and the cursors with them. Nothing moves where one of them has nowhere to
/// go.
pub fn move_lines(doc: &mut Document, pane: &mut Pane, down: bool, now: u64) -> (edits: Vec<AppliedEdit>)
    requires
        ready(*old(doc), *old(pane)),
    ensures
        moved_lines(*old(doc), *final(doc), *old(pane), *final(pane), down, now, edits@),
{
    let ghost t = doc.content();
    let spans = touched_lines(&doc.rope, &pane.sel);
    let last_line = doc.rope.len_lines() - 1;
    let mut changes: Vec<Change> = Vec::new();
    let mut n: usize = 0;
    while n < spans.len()
        invariant
            n <= spans@.len(),
            *doc == *old(doc),
            *pane == *old(pane),
            t == doc.content(),
            last_line == line_count(t) - 1,
            whole(spans@) == touched(t, pane.sel.ranges@),
            spans_ok(t, whole(spans@)),
            forall|i: int| 0 <= i < n ==> !stuck(t, #[trigger] whole(spans@)[i], down),
            patches(changes@) =~= swaps(t, whole(spans@), down).take(n as int),
        decreases spans@.len() - n,
    {
        let (first, last) = spans[n];
        assert(whole(spans@)[n as int] == (first as int, last as int));
        if (down && last >= last_line) || (!down && first == 0) {
            assert(stuck(t, whole(spans@)[n as int], down));
            return Vec::new();
        }
        let c = swapped(&doc.rope, first, last, down);
        let ghost was = changes@;
        changes.push(c);
        assert(patches(changes@) =~= patches(was).push(c@));
        n = n + 1;
        assert(patches(changes@) =~= swaps(t, whole(spans@), down).take(n as int));
    }
    assert(patches(changes@) =~= swaps(t, whole(spans@), down));
    let changes = plan(changes);
    assert(patches(changes@).len() == changes@.len());
    if changes.len() == 0 {
        return Vec::new();
    }
    let edits = doc.apply_atomic(changes, &pane.sel, now);
    let ghost mid = *doc;
    let mut given: Vec<Range> = Vec::new();
    let mut n: usize = 0;
    while n < pane.sel.ranges.len()
        invariant
            n <= pane.sel.ranges@.len(),
            *doc == mid,
            *pane == *old(pane),
            given@ == lines_over(mid.content(), pane.sel.ranges@, down).take(n as int),
        decreases pane.sel.ranges@.len() - n,
    {
        let r = pane.sel.ranges[n];
        given.push(
            Range { anchor: over(&doc.rope, r.anchor, down), head: over(&doc.rope, r.head, down) },
        );
        n = n + 1;
        assert(given@ =~= lines_over(mid.content(), pane.sel.ranges@, down).take(n as int));
    }
    assert(given@ =~= lines_over(mid.content(), pane.sel.ranges@, down));
    pane.sel = Selections::many(&given, pane.sel.primary);
    doc.record_selections(&pane.sel);
    assert(recorded(mid, *doc, pane.sel));
    edits
}

// ---------------------------------------------------------------------------
// Joining lines
// ---------------------------------------------------------------------------

/// The change that puts the next line at the end of a line: with one space
/// between, unless one of them is empty.
pub open spec fn join(t: Seq<char>, line: int) -> Patch {
    let end = end_of_line(t, line as nat);
    let next = text_of_line(t, (line + 1) as nat);
    Patch {
        from: end,
        to: next,
        text: if next >= end_of_line(t, (line + 1) as nat) || end == start_of_line(t, line as nat) {
            Seq::empty()
        } else {
            seq![' ']
        },
    }
}

/// The changes that join each line from `from` up to `to` to the next.
pub open spec fn joins_between(t: Seq<char>, from: int, to: int) -> Seq<Patch>
    decreases to - from,
{
    if to <= from {
        Seq::empty()
    } else {
        joins_between(t, from, to - 1).push(join(t, to - 1))
    }
}

/// Where joining a span of lines stops: with its last line, or with the next
/// for a span of one, and never past the last line of the text.
pub open spec fn join_stop(t: Seq<char>, s: (int, int)) -> int {
    least(if s.1 == s.0 { s.0 + 1 } else { s.1 }, line_count(t) - 1)
}

pub open spec fn line_joins(t: Seq<char>, spans: Seq<(int, int)>) -> Seq<Patch>
    decreases spans.len(),
{
    if spans.len() == 0 {
        Seq::empty()
    } else {
        line_joins(t, spans.drop_last()) + joins_between(
            t,
            spans.last().0,
            join_stop(t, spans.last()),
        )
    }
}

/// What joining the lines that the cursors are on does to a document and a pane.
pub open spec fn lines_joined(
    was: Document,
    is: Document,
    before: Pane,
    after: Pane,
    now: u64,
    edits: Seq<AppliedEdit>,
) -> bool {
    let t = was.content();
    let cs = line_joins(t, touched(t, before.sel.ranges@));
    committed(was, is, before, after, planned(cs), false, now, edits)
}

/// Join the lines that the cursors are on.
pub fn join_lines(doc: &mut Document, pane: &mut Pane, now: u64) -> (edits: Vec<AppliedEdit>)
    requires
        ready(*old(doc), *old(pane)),
    ensures
        lines_joined(
            *old(doc),
            *final(doc),
            *old(pane),
            *final(pane),
            now,
            edits@,
        ),
{
    let ghost t = doc.content();
    let spans = touched_lines(&doc.rope, &pane.sel);
    let ghost ss = whole(spans@);
    let lines = doc.rope.len_lines();
    let mut changes: Vec<Change> = Vec::new();
    let mut n: usize = 0;
    assert(patches(changes@) =~= line_joins(t, ss.take(0)));
    while n < spans.len()
        invariant
            n <= spans@.len(),
            t == doc.content(),
            lines == line_count(t),
            ss == whole(spans@),
            spans_ok(t, ss),
            patches(changes@) == line_joins(t, ss.take(n as int)),
        decreases spans@.len() - n,
    {
        let (first, last) = spans[n];
        assert(ss[n as int] == (first as int, last as int));
        let stop: usize = if last == first { first + 1 } else { last };
        let stop: usize = if stop <= lines - 1 { stop } else { lines - 1 };
        assert(stop == join_stop(t, ss[n as int]));
        let ghost base = line_joins(t, ss.take(n as int));
        let mut line: usize = first;
        assert(base + joins_between(t, first as int, first as int) =~= base);
        while line < stop
            invariant
                first <= line,
                line <= stop || stop < first,
                stop <= lines - 1,
                lines == line_count(t),
                t == doc.content(),
                patches(changes@) == base + joins_between(t, first as int, line as int),
            decreases stop - line,
        {
            let end = line_end(&doc.rope, line);
            let next = first_non_blank(&doc.rope, line + 1);
            let mut text: String = String::new();
            if !(next >= line_end(&doc.rope, line + 1) || end == line_start(&doc.rope, line)) {
                text.push(' ');
                assert(text@ =~= seq![' ']);
            }
            let c = Change { from: end, to: next, text };
            let ghost was = changes@;
            changes.push(c);
            proof {
                assert(c@ == join(t, line as int));
                assert(patches(changes@) =~= patches(was).push(c@));
                assert(patches(changes@) =~= base + joins_between(t, first as int, line + 1));
            }
            line = line + 1;
        }
        proof {
            assert(ss.take(n + 1).drop_last() =~= ss.take(n as int));
            assert(joins_between(t, first as int, line as int) == joins_between(
                t,
                first as int,
                stop as int,
            ));
        }
        n = n + 1;
    }
    assert(ss.take(n as int) =~= ss);
    commit(doc, pane, changes, false, now)
}

} // verus!
