//! What the commands on whole lines come to: the text that is left, said of the
//! lines that there were.
use vstd::prelude::*;

use crate::change::{changed, fits, Patch};
use crate::doc::{applied, recorded, AppliedEdit, Document};
use crate::edit::{planned, ready};
use crate::lines::{
    block, committed, copies, ends, join, join_stop, joins_between, law_swapped_lines_are_all_there,
    law_touched_lines_are_in_order, line_cuts, line_joins, lines_copied, lines_deleted,
    lines_joined, moved_lines, span_of, stuck, swap, swaps, touched,
};
use crate::outcome::{law_planned_changes_leave_the_rest_alone, last_end, rewritten, written_up_to};
use crate::pane::Pane;
use crate::rope::{ends_line, lemma_line_at_grows, line_at, line_count, start_of_line};
use crate::text::{
    after_line, end_of_line, lemma_inside_line, lemma_line_bounds, lemma_line_of, lemma_start_is,
    lemma_text_of_line, text_of_line, Range,
};

verus! {

// ---------------------------------------------------------------------------
// Which lines
// ---------------------------------------------------------------------------

/// Whether a line is one that a range is on: the line where it begins, the line of
/// the last character that it covers, or one between the two.
pub open spec fn is_on(t: Seq<char>, r: Range, line: int) -> bool {
    let last = if r.lo() < r.hi() { r.hi() - 1 } else { r.lo() };
    line_at(t, r.lo()) <= line <= line_at(t, last)
}

/// A range touches the lines from the one where it begins to the one of the last
/// character that it covers.
pub proof fn law_a_range_touches_its_lines(t: Seq<char>, r: Range)
    requires
        r.hi() <= t.len(),
    ensures
        forall|l: int| span_of(t, r).0 <= l <= span_of(t, r).1 <==> #[trigger] is_on(t, r, l),
        span_of(t, r).0 <= span_of(t, r).1,
{
    if r.lo() < r.hi() {
        let before = r.hi() - 1;
        lemma_line_at_grows(t, r.lo(), before);
        let last = line_at(t, r.hi());
        if ends_line(t, before) {
            lemma_start_is(t, r.hi(), 0);
            assert(start_of_line(t, last) == r.hi());
        } else if last > line_at(t, r.lo()) && r.hi() == start_of_line(t, last) {
            lemma_line_of(t, r.hi());
            lemma_inside_line(t, last);
        }
    }
}

/// Whether a line is in one of some spans.
pub open spec fn is_among(spans: Seq<(int, int)>, line: int) -> bool {
    exists|k: int| 0 <= k < spans.len() && (#[trigger] spans[k]).0 <= line <= spans[k].1
}

/// The lines that are touched are those that some range is on, and no others.
pub proof fn law_the_lines_touched_are_those_of_the_cursors(t: Seq<char>, rs: Seq<Range>, line: int)
    requires
        crate::text::separate(rs),
        forall|i: int| 0 <= i < rs.len() ==> (#[trigger] rs[i]).hi() <= t.len(),
    ensures
        is_among(touched(t, rs), line) <==> exists|i: int|
            0 <= i < rs.len() && is_on(t, #[trigger] rs[i], line),
        rs.len() > 0 ==> touched(t, rs).len() > 0 && touched(t, rs).last().0 <= span_of(
            t,
            rs.last(),
        ).0,
    decreases rs.len(),
{
    if rs.len() > 0 {
        let less = rs.drop_last();
        let n = rs.len() - 1;
        let m = touched(t, less);
        let s = span_of(t, rs.last());
        let all = touched(t, rs);
        assert forall|i: int, j: int| 0 <= i < j < less.len() implies (#[trigger] less[i]).hi() <= (
        #[trigger] less[j]).lo() by {
            assert(rs[i].hi() <= rs[j].lo());
        }
        assert forall|i: int| 0 <= i < less.len() implies (#[trigger] less[i]).hi() <= t.len() by {
            assert(less[i] == rs[i]);
        }
        law_the_lines_touched_are_those_of_the_cursors(t, less, line);
        assert(rs[n] == rs.last());
        law_a_range_touches_its_lines(t, rs.last());
        assert(is_on(t, rs.last(), line) <==> s.0 <= line <= s.1);
        let joins = m.len() > 0 && m.last().1 + 1 >= s.0;
        if n > 0 {
            assert(rs[n - 1].hi() <= rs[n].lo());
            assert(less.last() == rs[n - 1]);
            law_a_range_touches_its_lines(t, rs[n - 1]);
            lemma_line_at_grows(t, rs[n - 1].lo(), rs[n].lo());
            assert(span_of(t, rs[n - 1]).0 <= s.0);
        }
        law_touched_lines_are_in_order(t, less);
        if m.len() > 0 {
            assert(m[m.len() - 1] == m.last());
        }
        if is_among(all, line) {
            let k = choose|k: int|
                0 <= k < all.len() && (#[trigger] all[k]).0 <= line <= all[k].1;
            if k < all.len() - 1 {
                assert(m[k] == all[k]);
                assert(is_among(m, line));
            } else if joins && !(s.0 <= line <= s.1) {
                assert(m[m.len() - 1].0 <= line <= m[m.len() - 1].1);
                assert(is_among(m, line));
            }
            if is_among(m, line) {
                let i = choose|i: int| 0 <= i < less.len() && is_on(t, #[trigger] less[i], line);
                assert(is_on(t, rs[i], line));
            } else {
                assert(is_on(t, rs[n], line));
            }
        }
        if exists|i: int| 0 <= i < rs.len() && is_on(t, #[trigger] rs[i], line) {
            let i = choose|i: int| 0 <= i < rs.len() && is_on(t, #[trigger] rs[i], line);
            if i < n {
                assert(is_on(t, less[i], line));
                let k = choose|k: int| 0 <= k < m.len() && (#[trigger] m[k]).0 <= line <= m[k].1;
                if k < m.len() - 1 || !joins {
                    assert(all[k] == m[k]);
                } else {
                    assert(all[all.len() - 1].0 <= line <= all[all.len() - 1].1);
                }
            } else {
                assert(all[all.len() - 1].0 <= line <= all[all.len() - 1].1);
            }
        }
    }
}

/// One range touches one span of lines.
pub proof fn lemma_touched_one(t: Seq<char>, r: Range)
    ensures
        touched(t, seq![r]) == seq![span_of(t, r)],
{
    let one = seq![r];
    assert(one.drop_last() =~= Seq::<Range>::empty());
    assert(touched(t, one.drop_last()) =~= Seq::<(int, int)>::empty());
    assert(touched(t, one) =~= seq![span_of(t, r)]);
}

// ---------------------------------------------------------------------------
// What is left
// ---------------------------------------------------------------------------

/// What a set of changes that stands alone makes of the text.
pub proof fn lemma_committed(
    was: Document,
    is: Document,
    before: Pane,
    after: Pane,
    cs: Seq<Patch>,
    collapse: bool,
    now: u64,
    edits: Seq<AppliedEdit>,
)
    requires
        committed(was, is, before, after, planned(cs), collapse, now, edits),
        fits(cs, was.content().len() as int),
    ensures
        is.content() == rewritten(was.content(), cs),
{
    let t = was.content();
    let ps = planned(cs);
    law_planned_changes_leave_the_rest_alone(t, cs);
    if ps.len() > 0 {
        let mid = choose|mid: Document|
            {
                &&& applied(was, mid, ps, before.sel, false, now, edits)
                &&& #[trigger] recorded(mid, is, after.sel)
            };
        assert(is.content() == mid.content());
    } else {
        assert(changed(t, ps) == t);
    }
}

/// One change read from the front.
pub proof fn lemma_rewritten_one(t: Seq<char>, c: Patch)
    ensures
        rewritten(t, seq![c]) == t.subrange(0, c.from) + c.text + t.subrange(
            c.to,
            t.len() as int,
        ),
        written_up_to(t, seq![c]) == t.subrange(0, c.from) + c.text,
{
    let one = seq![c];
    assert(one.drop_last() =~= Seq::<Patch>::empty());
    assert(written_up_to(t, one.drop_last()) =~= Seq::<char>::empty());
    assert(written_up_to(t, one) =~= t.subrange(0, c.from) + c.text);
}

/// Where the lines of a later span begin is no further back than where those of an
/// earlier one end.
proof fn lemma_spans_apart(t: Seq<char>, a: (int, int), b: (int, int))
    requires
        0 <= a.0 <= a.1 < b.0 <= b.1,
    ensures
        start_of_line(t, a.0 as nat) <= after_line(t, a.1 as nat) <= start_of_line(t, b.0 as nat)
            <= after_line(t, b.1 as nat) <= t.len(),
        0 <= start_of_line(t, a.0 as nat),
{
    lemma_line_bounds(t, a.0 as nat);
    lemma_line_bounds(t, b.1 as nat);
    crate::rope::lemma_after_lines_grows(t, a.0 as nat, (a.1 + 1) as nat, 0);
    crate::rope::lemma_after_lines_grows(t, (a.1 + 1) as nat, b.0 as nat, 0);
    crate::rope::lemma_after_lines_grows(t, b.0 as nat, (b.1 + 1) as nat, 0);
}

/// Changes that each lie in the lines of its own span fit.
proof fn lemma_fit_in_spans(t: Seq<char>, spans: Seq<(int, int)>, cs: Seq<Patch>)
    requires
        cs.len() == spans.len(),
        forall|k: int|
            0 <= k < spans.len() ==> 0 <= (#[trigger] spans[k]).0 <= spans[k].1 && start_of_line(
                t,
                spans[k].0 as nat,
            ) <= cs[k].from <= cs[k].to <= after_line(t, spans[k].1 as nat),
        forall|i: int, j: int|
            0 <= i < j < spans.len() ==> (#[trigger] spans[i]).1 < (#[trigger] spans[j]).0,
    ensures
        fits(cs, t.len() as int),
{
    assert forall|i: int| 0 <= i < cs.len() implies 0 <= (#[trigger] cs[i]).from <= cs[i].to
        <= t.len() by {
        let s = spans[i];
        lemma_line_bounds(t, s.0 as nat);
        lemma_line_bounds(t, s.1 as nat);
    }
    assert forall|i: int, j: int| 0 <= i < j < cs.len() implies (#[trigger] cs[i]).to <= (
    #[trigger] cs[j]).from by {
        assert(spans[i].1 < spans[j].0);
        lemma_spans_apart(t, spans[i], spans[j]);
    }
}

/// Deleting lines takes out the lines that the cursors touch, each from where it
/// begins to where the next one does, and nothing else.
pub proof fn law_deleted_lines_are_gone(
    was: Document,
    is: Document,
    before: Pane,
    after: Pane,
    now: u64,
    edits: Seq<AppliedEdit>,
)
    requires
        ready(was, before),
        lines_deleted(was, is, before, after, now, edits),
    ensures
        ({
            let t = was.content();
            let spans = touched(t, before.sel.ranges@);
            &&& is.content() == rewritten(
                t,
                Seq::new(
                    spans.len(),
                    |k: int|
                        Patch {
                            from: start_of_line(t, spans[k].0 as nat),
                            to: start_of_line(t, (spans[k].1 + 1) as nat),
                            text: Seq::empty(),
                        },
                ),
            )
            &&& spans.len() == 1 ==> is.content() == t.subrange(
                0,
                start_of_line(t, spans[0].0 as nat),
            ) + t.subrange(start_of_line(t, (spans[0].1 + 1) as nat), t.len() as int)
        }),
{
    let t = was.content();
    let spans = touched(t, before.sel.ranges@);
    let cs = line_cuts(t, spans);
    law_touched_lines_are_in_order(t, before.sel.ranges@);
    assert forall|k: int| 0 <= k < spans.len() implies 0 <= (#[trigger] spans[k]).0 <= spans[k].1
        && start_of_line(t, spans[k].0 as nat) <= cs[k].from <= cs[k].to <= after_line(
        t,
        spans[k].1 as nat,
    ) by {
        crate::rope::lemma_after_lines_grows(t, spans[k].0 as nat, (spans[k].1 + 1) as nat, 0);
    }
    lemma_fit_in_spans(t, spans, cs);
    lemma_committed(was, is, before, after, cs, true, now, edits);
    assert(cs =~= Seq::new(
        spans.len(),
        |k: int|
            Patch {
                from: start_of_line(t, spans[k].0 as nat),
                to: start_of_line(t, (spans[k].1 + 1) as nat),
                text: Seq::empty(),
            },
    ));
    if spans.len() == 1 {
        assert(cs =~= seq![cs[0]]);
        lemma_rewritten_one(t, cs[0]);
        assert(is.content() =~= t.subrange(0, start_of_line(t, spans[0].0 as nat)) + t.subrange(
            start_of_line(t, (spans[0].1 + 1) as nat),
            t.len() as int,
        ));
    }
}

/// Copying lines puts the lines that the cursors touch before themselves once
/// more, with a line feed at their end, and changes nothing else.
pub proof fn law_copied_lines_are_there_twice(
    was: Document,
    is: Document,
    before: Pane,
    after: Pane,
    now: u64,
    edits: Seq<AppliedEdit>,
)
    requires
        ready(was, before),
        lines_copied(was, is, before, after, now, edits),
    ensures
        ({
            let t = was.content();
            let spans = touched(t, before.sel.ranges@);
            spans.len() == 1 ==> {
                let from = start_of_line(t, spans[0].0 as nat);
                let to = start_of_line(t, (spans[0].1 + 1) as nat);
                let lines = t.subrange(from, to);
                let rest = t.subrange(from, t.len() as int);
                if lines.len() > 0 && lines.last() == '\n' {
                    is.content() == t.subrange(0, from) + lines + rest
                } else {
                    is.content() == t.subrange(0, from) + lines.push('\n') + rest
                }
            }
        }),
        is.content() == rewritten(
            was.content(),
            copies(was.content(), touched(was.content(), before.sel.ranges@)),
        ),
{
    let t = was.content();
    let spans = touched(t, before.sel.ranges@);
    let cs = copies(t, spans);
    law_touched_lines_are_in_order(t, before.sel.ranges@);
    assert forall|k: int| 0 <= k < spans.len() implies 0 <= (#[trigger] spans[k]).0 <= spans[k].1
        && start_of_line(t, spans[k].0 as nat) <= cs[k].from <= cs[k].to <= after_line(
        t,
        spans[k].1 as nat,
    ) by {
        crate::rope::lemma_after_lines_grows(t, spans[k].0 as nat, (spans[k].1 + 1) as nat, 0);
    }
    lemma_fit_in_spans(t, spans, cs);
    lemma_committed(was, is, before, after, cs, false, now, edits);
    if spans.len() == 1 {
        assert(cs =~= seq![cs[0]]);
        lemma_rewritten_one(t, cs[0]);
    }
}

// ---------------------------------------------------------------------------
// Joining
// ---------------------------------------------------------------------------

/// The lines from `first` to `last` as one: each after the first without its
/// indentation, with a space before it, unless there is nothing on it or on the
/// line before it.
pub open spec fn as_one(t: Seq<char>, first: int, last: int) -> Seq<char>
    decreases last - first,
{
    if last <= first {
        t.subrange(start_of_line(t, first as nat), end_of_line(t, first as nat))
    } else {
        let (from, to) = (text_of_line(t, last as nat), end_of_line(t, last as nat));
        let bare = from == to || start_of_line(t, (last - 1) as nat) == end_of_line(
            t,
            (last - 1) as nat,
        );
        as_one(t, first, last - 1) + if bare { Seq::empty() } else { seq![' '] } + t.subrange(
            from,
            to,
        )
    }
}

proof fn lemma_joins_between(t: Seq<char>, first: int, stop: int)
    requires
        0 <= first <= stop < line_count(t),
    ensures
        ({
            let cs = joins_between(t, first, stop);
            &&& fits(cs, t.len() as int)
            &&& cs.len() == stop - first
            &&& stop > first ==> last_end(cs) == text_of_line(t, stop as nat)
            &&& cs.len() > 0 ==> cs[0].from >= end_of_line(t, first as nat)
            &&& written_up_to(t, cs) + t.subrange(
                last_end(cs),
                end_of_line(t, stop as nat),
            ) == t.subrange(0, start_of_line(t, first as nat)) + as_one(t, first, stop)
        }),
    decreases stop - first,
{
    let cs = joins_between(t, first, stop);
    lemma_line_bounds(t, first as nat);
    lemma_line_bounds(t, stop as nat);
    lemma_text_of_line(t, stop as nat);
    if stop == first {
        assert(written_up_to(t, cs) + t.subrange(last_end(cs), end_of_line(t, stop as nat))
            =~= t.subrange(0, start_of_line(t, first as nat)) + as_one(t, first, stop));
    } else {
        let less = joins_between(t, first, stop - 1);
        let c = join(t, stop - 1);
        lemma_joins_between(t, first, stop - 1);
        lemma_line_bounds(t, (stop - 1) as nat);
        lemma_text_of_line(t, (stop - 1) as nat);
        assert(cs.drop_last() =~= less);
        assert(after_line(t, (stop - 1) as nat) == start_of_line(t, stop as nat));
        assert(fits(cs, t.len() as int)) by {
            assert forall|i: int, j: int| 0 <= i < j < cs.len() implies (#[trigger] cs[i]).to <= (
            #[trigger] cs[j]).from by {
                if j < less.len() {
                    assert(cs[i] == less[i] && cs[j] == less[j]);
                } else {
                    assert(cs[i] == less[i]);
                    if i < less.len() - 1 {
                        assert(less[i].to <= less[less.len() - 1].from);
                    }
                }
            }
            assert forall|i: int| 0 <= i < cs.len() implies 0 <= (#[trigger] cs[i]).from <= cs[i].to
                <= t.len() by {
                if i < less.len() {
                    assert(cs[i] == less[i]);
                }
            }
        }
        if less.len() > 0 {
            assert(cs[0] == less[0]);
        }
        let (from, to) = (text_of_line(t, stop as nat), end_of_line(t, stop as nat));
        assert(written_up_to(t, cs) + t.subrange(from, to) =~= t.subrange(
            0,
            start_of_line(t, first as nat),
        ) + as_one(t, first, stop));
    }
}

proof fn lemma_as_one_is_one(t: Seq<char>, first: int, last: int, k: int)
    requires
        0 <= first <= last < line_count(t),
        0 <= k < as_one(t, first, last).len(),
    ensures
        as_one(t, first, last)[k] != '\n',
    decreases last - first,
{
    lemma_inside_line(t, last as nat);
    lemma_line_bounds(t, last as nat);
    lemma_text_of_line(t, last as nat);
    let (start, end) = (start_of_line(t, last as nat), end_of_line(t, last as nat));
    assert forall|i: int| start <= i < end implies #[trigger] t[i] != '\n' by {
        assert(!ends_line(t, i));
    }
    if last > first {
        let less = as_one(t, first, last - 1);
        let (from, to) = (text_of_line(t, last as nat), end);
        if k < less.len() {
            lemma_as_one_is_one(t, first, last - 1, k);
        } else {
            let rest = t.subrange(from, to);
            let m = as_one(t, first, last);
            if k >= m.len() - rest.len() {
                assert(m[k] == rest[k - (m.len() - rest.len())]);
            }
        }
    }
}

/// Joining lines makes every line of a selection one, and with no more than one
/// line touched that line and the next. What the lines say is kept, no line feed
/// is left between them, and what comes before and behind stays as it was. There
/// is nothing to join to the last line of the text.
#[verifier::rlimit(40)]
pub proof fn law_joined_lines_are_one(
    was: Document,
    is: Document,
    before: Pane,
    after: Pane,
    now: u64,
    edits: Seq<AppliedEdit>,
)
    requires
        ready(was, before),
        before.sel.ranges@.len() == 1,
        lines_joined(was, is, before, after, now, edits),
    ensures
        ({
            let t = was.content();
            let (first, last) = span_of(t, before.sel.ranges@[0]);
            let stop = if last > first {
                last
            } else if first + 1 < line_count(t) {
                first + 1
            } else {
                first
            };
            let start = start_of_line(t, first as nat);
            let one = as_one(t, first, stop);
            &&& is.content() == t.subrange(0, start) + one + t.subrange(
                end_of_line(t, stop as nat),
                t.len() as int,
            )
            &&& forall|k: int| 0 <= k < one.len() ==> #[trigger] one[k] != '\n'
        }),
{
    let t = was.content();
    let r = before.sel.ranges@[0];
    assert(before.sel.ranges@ =~= seq![r]);
    lemma_touched_one(t, r);
    law_touched_lines_are_in_order(t, before.sel.ranges@);
    let s = span_of(t, r);
    let spans = touched(t, before.sel.ranges@);
    assert(spans[0] == s);
    let stop = join_stop(t, s);
    let cs = line_joins(t, spans);
    assert(spans.drop_last() =~= Seq::<(int, int)>::empty());
    assert(line_joins(t, spans.drop_last()) =~= Seq::<Patch>::empty());
    assert(cs =~= joins_between(t, s.0, stop));
    lemma_joins_between(t, s.0, stop);
    lemma_committed(was, is, before, after, cs, false, now, edits);
    let end = end_of_line(t, stop as nat);
    lemma_line_bounds(t, stop as nat);
    lemma_text_of_line(t, stop as nat);
    assert(t.subrange(last_end(cs), t.len() as int) =~= t.subrange(last_end(cs), end) + t.subrange(
        end,
        t.len() as int,
    ));
    assert(is.content() =~= t.subrange(0, start_of_line(t, s.0 as nat)) + as_one(t, s.0, stop)
        + t.subrange(end, t.len() as int));
    let one = as_one(t, s.0, stop);
    assert forall|k: int| 0 <= k < one.len() implies #[trigger] one[k] != '\n' by {
        lemma_as_one_is_one(t, s.0, stop, k);
    }
}

// ---------------------------------------------------------------------------
// Moving
// ---------------------------------------------------------------------------

/// Moving the lines of one range puts the line after them before them, or the one
/// before them behind them. What comes before and behind stays as it was, and so
/// does the end of the file, with a line feed or without. Where there is no such
/// line nothing happens. The upper lines end in a line feed.
#[verifier::rlimit(40)]
pub proof fn law_moved_lines_change_places(
    was: Document,
    is: Document,
    before: Pane,
    after: Pane,
    down: bool,
    now: u64,
    edits: Seq<AppliedEdit>,
)
    requires
        ready(was, before),
        before.sel.ranges@.len() == 1,
        moved_lines(was, is, before, after, down, now, edits),
    ensures
        ({
            let t = was.content();
            let (first, last) = span_of(t, before.sel.ranges@[0]);
            let top = if down { first } else { first - 1 };
            let mid = if down { last + 1 } else { first };
            let bottom = if down { last + 1 } else { last };
            if top < 0 || bottom >= line_count(t) {
                is == was && after == before
            } else {
                let (a, b, c) = (
                    start_of_line(t, top as nat),
                    start_of_line(t, mid as nat),
                    start_of_line(t, (bottom + 1) as nat),
                );
                let (upper, lower) = (t.subrange(a, b), t.subrange(b, c));
                upper.len() > 0 && upper.last() == '\n' ==> {
                    if lower.len() > 0 && lower.last() == '\n' {
                        is.content() == t.subrange(0, a) + lower + upper + t.subrange(
                            c,
                            t.len() as int,
                        )
                    } else {
                        is.content() == t.subrange(0, a) + lower + seq!['\n'] + upper.drop_last()
                            + t.subrange(c, t.len() as int)
                    }
                }
            }
        }),
{
    let t = was.content();
    let r = before.sel.ranges@[0];
    assert(before.sel.ranges@ =~= seq![r]);
    lemma_touched_one(t, r);
    law_touched_lines_are_in_order(t, before.sel.ranges@);
    let s = span_of(t, r);
    let spans = touched(t, before.sel.ranges@);
    assert(spans[0] == s);
    if stuck(t, s, down) {
        assert(crate::lines::any_stuck(t, spans, down));
    } else {
        lemma_moved(was, is, before, after, down, now, edits);
        let c = swap(t, s, down);
        let other = if down { s.1 + 1 } else { s.0 - 1 };
        let upper = block(t, if down { s } else { (other, other) });
        let lower = block(t, if down { (other, other) } else { s });
        let (front, back) = (t.subrange(0, c.from), t.subrange(c.to, t.len() as int));
        if ends(upper) {
            law_swapped_lines_are_all_there(t, s, down);
            lemma_swap_text(c.text, lower, upper, front, back);
        }
    }
}

proof fn lemma_swap_text(
    x: Seq<char>,
    lower: Seq<char>,
    upper: Seq<char>,
    front: Seq<char>,
    back: Seq<char>,
)
    requires
        upper.len() > 0,
        x == lower + upper || x.push('\n') == lower.push('\n') + upper,
    ensures
        x == lower + upper ==> front + x + back == front + lower + upper + back,
        x.push('\n') == lower.push('\n') + upper ==> front + x + back == front + lower + seq!['\n']
            + upper.drop_last() + back,
{
    if x == lower + upper {
        assert(front + x + back =~= front + lower + upper + back);
    }
    if x.push('\n') == lower.push('\n') + upper {
        assert(x =~= x.push('\n').drop_last());
        assert(x =~= lower + seq!['\n'] + upper.drop_last());
        assert(front + x + back =~= front + lower + seq!['\n'] + upper.drop_last() + back);
    }
}

proof fn lemma_moved(
    was: Document,
    is: Document,
    before: Pane,
    after: Pane,
    down: bool,
    now: u64,
    edits: Seq<AppliedEdit>,
)
    requires
        ready(was, before),
        touched(was.content(), before.sel.ranges@).len() == 1,
        !stuck(was.content(), touched(was.content(), before.sel.ranges@)[0], down),
        moved_lines(was, is, before, after, down, now, edits),
    ensures
        ({
            let t = was.content();
            let c = swap(t, touched(t, before.sel.ranges@)[0], down);
            is.content() == t.subrange(0, c.from) + c.text + t.subrange(c.to, t.len() as int)
        }),
{
    let t = was.content();
    let spans = touched(t, before.sel.ranges@);
    let s = spans[0];
    let cs = swaps(t, spans, down);
    let c = swap(t, s, down);
    law_touched_lines_are_in_order(t, before.sel.ranges@);
    assert(cs =~= seq![c]);
    let other = if down { s.1 + 1 } else { s.0 - 1 };
    let (top, bottom) = if down { (s.0, other) } else { (other, s.1) };
    lemma_line_bounds(t, top as nat);
    lemma_line_bounds(t, bottom as nat);
    crate::rope::lemma_after_lines_grows(t, top as nat, (bottom + 1) as nat, 0);
    law_planned_changes_leave_the_rest_alone(t, cs);
    lemma_rewritten_one(t, c);
    let ps = planned(cs);
    if ps.len() > 0 {
        let mid = choose|mid: Document|
            {
                &&& applied(was, mid, ps, before.sel, false, now, edits)
                &&& #[trigger] recorded(mid, is, after.sel)
            };
        assert(is.content() == mid.content());
    } else {
        assert(changed(t, ps) == t);
    }
}

} // verus!
