//! What takes the commands on blocks of lines back: indenting by taking a level
//! off, commenting out by commenting back in.
use vstd::prelude::*;

use crate::blocks::{
    all_commented, blank_line, comment, commented, comments_toggled, indent_change, indent_lines, indents,
    least_column, lines_indented, outdent_stop, seen, seen_between, text_column, toggled, uncomment,
};
use crate::change::{begins, changed, edited, fits, inverse, law_undo_puts_the_text_back, made, Patch};
use crate::chars::whitespace;
use crate::doc::{applied, recorded, AppliedEdit, Document};
use crate::edit::{law_what_fits_is_planned_as_it_is, level, planned, ready, some_selected};
use crate::indent::Indent;
use crate::lines::{committed, law_touched_lines_are_in_order, spans_ok, touched};
use crate::linewise::{is_among, lemma_committed};
use crate::outcome::{law_changes_leave_the_rest_alone, rewritten};
use crate::pane::Pane;
use crate::rope::{ends_line, line_count, start_of_line};
use crate::text::{
    after_line, column_of, end_of_line, is_indent, least, lemma_line_bounds, lemma_on_line,
    lemma_put_in_line, lemma_put_in_others, lemma_text_of_line, most, next_column, past_indent,
    put_in, reach, tab_stop, text_of_line, within_line,
};

verus! {

// ---------------------------------------------------------------------------
// One line
// ---------------------------------------------------------------------------

proof fn lemma_insertion(t: Seq<char>, p: int, x: Seq<char>)
    requires
        0 <= p <= t.len(),
    ensures
        edited(t, Patch { from: p, to: p, text: x }) == put_in(t, p, x),
        edited(put_in(t, p, x), Patch { from: p, to: p + x.len(), text: Seq::empty() }) == t,
{
    let u = put_in(t, p, x);
    assert(edited(u, Patch { from: p, to: p + x.len(), text: Seq::empty() }) =~= t);
}

proof fn lemma_outdent_spaces(t: Seq<char>, at: int, end: int, left: int)
    requires
        at + left <= end,
        0 <= left,
        forall|k: int| at <= k < at + left ==> #[trigger] t[k] == ' ',
    ensures
        outdent_stop(t, at, end, left) == at + left,
    decreases left,
{
    if left > 0 {
        lemma_outdent_spaces(t, at + 1, end, left - 1);
    }
}

proof fn lemma_indented_up_to(t: Seq<char>, i: int, end: int, k: int)
    requires
        i <= k < past_indent(t, i, end),
    ensures
        is_indent(t[k]),
    decreases end - i,
{
    if i < k && i < end && is_indent(t[i]) {
        lemma_indented_up_to(t, i + 1, end, k);
    }
}

proof fn lemma_text_begins(t: Seq<char>, i: int, end: int, at: int)
    requires
        i <= at < end,
        forall|k: int| i <= k < at ==> is_indent(#[trigger] t[k]),
        !is_indent(t[at]),
    ensures
        past_indent(t, i, end) == at,
    decreases end - i,
{
    if i < at {
        lemma_text_begins(t, i + 1, end, at);
    }
}

/// A column no further on than a position is reached no further on.
proof fn lemma_reach_before(t: Seq<char>, start: int, i: int, end: int, goal: int, tab: int, at: int)
    requires
        start <= i <= at <= end,
        tab >= 1,
        0 <= goal <= column_of(t, start, at, tab),
        goal < usize::MAX,
        0 <= column_of(t, start, i, tab) <= usize::MAX,
    ensures
        i <= reach(t, i, end, column_of(t, start, i, tab), goal, tab) <= at,
    decreases end - i,
{
    let col = column_of(t, start, i, tab);
    if i < end {
        assert(next_column(col, t[i], tab) >= least(usize::MAX as int, col + 1)) by {
            assert(0 <= col % tab < tab) by (nonlinear_arith)
                requires
                    tab >= 1,
            ;
        }
        if next_column(col, t[i], tab) <= goal {
            assert(column_of(t, start, i + 1, tab) == next_column(col, t[i], tab));
            lemma_reach_before(t, start, i + 1, end, goal, tab, at);
        }
    }
}

// ---------------------------------------------------------------------------
// Several lines at once
// ---------------------------------------------------------------------------

/// The same text put in at each of some positions.
pub open spec fn put_at(ps: Seq<int>, x: Seq<char>) -> Seq<Patch> {
    ps.map_values(|p: int| Patch { from: p, to: p, text: x })
}

/// Whether lines are in order, and there.
pub open spec fn in_turn(t: Seq<char>, ls: Seq<int>) -> bool {
    &&& forall|i: int| 0 <= i < ls.len() ==> 0 <= #[trigger] ls[i] < line_count(t)
    &&& forall|i: int, j: int| 0 <= i < j < ls.len() ==> #[trigger] ls[i] < #[trigger] ls[j]
}

/// Whether each position is on its line.
spec fn placed(t: Seq<char>, ls: Seq<int>, ps: Seq<int>) -> bool {
    &&& ls.len() == ps.len()
    &&& forall|i: int|
        #![trigger ls[i]]
        #![trigger ps[i]]
        0 <= i < ls.len() ==> start_of_line(t, ls[i] as nat) <= ps[i] <= end_of_line(
            t,
            ls[i] as nat,
        )
}

/// What a line says, without what ends it.
spec fn saying(t: Seq<char>, line: int) -> Seq<char> {
    t.subrange(start_of_line(t, line as nat), end_of_line(t, line as nat))
}

/// What putting the same text into some lines does to the lines there are.
#[verifier::opaque]
spec fn widened(t: Seq<char>, u: Seq<char>, ls: Seq<int>, ps: Seq<int>, x: Seq<char>) -> bool {
    let w = x.len() as int;
    &&& line_count(u) == line_count(t)
    &&& u.len() == t.len() + ls.len() * w
    &&& forall|i: int|
        0 <= i < ls.len() ==> {
            let l = #[trigger] ls[i];
            let start = start_of_line(t, l as nat);
            &&& start_of_line(u, l as nat) == start + i * w
            &&& end_of_line(u, l as nat) == end_of_line(t, l as nat) + (i + 1) * w
            &&& saying(u, l) == put_in(saying(t, l), ps[i] - start, x)
        }
    &&& forall|l: int|
        #![trigger start_of_line(u, l as nat)]
        0 <= l < line_count(t) && !ls.contains(l) ==> end_of_line(u, l as nat) - start_of_line(
            u,
            l as nat,
        ) == end_of_line(t, l as nat) - start_of_line(t, l as nat) && saying(u, l) == saying(t, l)
    &&& forall|l: int|
        #![trigger start_of_line(u, l as nat)]
        0 <= l < line_count(t) && (ls.len() > 0 ==> l < ls[0]) ==> start_of_line(u, l as nat)
            == start_of_line(t, l as nat) && end_of_line(u, l as nat) == end_of_line(t, l as nat)
    &&& forall|k: int|
        0 <= k < t.len() && (ls.len() > 0 ==> k < ps[0]) ==> u[k] == #[trigger] t[k]
}

proof fn lemma_made_after_first(t: Seq<char>, cs: Seq<Patch>, k: nat)
    requires
        k < cs.len(),
    ensures
        made(t, cs, k) == made(t, cs.skip(1), k),
    decreases k,
{
    if k > 0 {
        lemma_made_after_first(t, cs, (k - 1) as nat);
        assert(cs[cs.len() - k] == cs.skip(1)[cs.skip(1).len() - k]);
    }
}

proof fn lemma_in_turn_rest(t: Seq<char>, ls: Seq<int>, ps: Seq<int>)
    requires
        ls.len() > 0,
        in_turn(t, ls),
        placed(t, ls, ps),
    ensures
        in_turn(t, ls.skip(1)),
        placed(t, ls.skip(1), ps.skip(1)),
{
    let (more, spots) = (ls.skip(1), ps.skip(1));
    assert forall|i: int| 0 <= i < more.len() implies 0 <= #[trigger] more[i] < line_count(t) by {
        assert(more[i] == ls[i + 1]);
    }
    assert forall|i: int, j: int| 0 <= i < j < more.len() implies #[trigger] more[i]
        < #[trigger] more[j] by {
        assert(ls[i + 1] < ls[j + 1]);
    }
    assert forall|i: int|
        #![trigger more[i]]
        #![trigger spots[i]]
        0 <= i < more.len() implies start_of_line(t, more[i] as nat) <= spots[i] <= end_of_line(
        t,
        more[i] as nat,
    ) by {
        assert(more[i] == ls[i + 1] && spots[i] == ps[i + 1]);
    }
}

/// A line further on begins past the end of an earlier one.
proof fn lemma_further_on(t: Seq<char>, a: int, b: int)
    requires
        0 <= a < b < line_count(t),
    ensures
        end_of_line(t, a as nat) < start_of_line(t, b as nat),
{
    lemma_line_bounds(t, a as nat);
    lemma_put_in_others(t, a as nat, start_of_line(t, a as nat), Seq::empty(), b as nat);
}

/// Whether a text is another with all but the first of some lines widened.
spec fn all_but_first(t: Seq<char>, v: Seq<char>, ls: Seq<int>, ps: Seq<int>, x: Seq<char>) -> bool {
    &&& ls.len() > 0
    &&& in_turn(t, ls)
    &&& placed(t, ls, ps)
    &&& within_line(x)
    &&& widened(t, v, ls.skip(1), ps.skip(1), x)
}

proof fn lemma_first_untouched(t: Seq<char>, v: Seq<char>, ls: Seq<int>, ps: Seq<int>, x: Seq<char>)
    requires
        all_but_first(t, v, ls, ps, x),
    ensures
        ({
            let (start, end) = (start_of_line(t, ls[0] as nat), end_of_line(t, ls[0] as nat));
            &&& line_count(v) == line_count(t)
            &&& start_of_line(v, ls[0] as nat) == start
            &&& end_of_line(v, ls[0] as nat) == end
            &&& 0 <= start <= ps[0] <= end <= t.len()
            &&& end <= v.len()
            &&& forall|k: int| 0 <= k < end ==> v[k] == #[trigger] t[k]
        }),
{
    reveal(widened);
    let (more, spots) = (ls.skip(1), ps.skip(1));
    let first = ls[0];
    lemma_line_bounds(t, first as nat);
    lemma_line_bounds(v, first as nat);
    assert(ps[0] >= start_of_line(t, first as nat));
    if more.len() > 0 {
        assert(more[0] == ls[1] && spots[0] == ps[1]);
        assert(ls[0] < ls[1]);
        lemma_further_on(t, first, ls[1]);
    }
    assert(start_of_line(v, first as nat) == start_of_line(t, first as nat));
}

proof fn lemma_widened_line(
    t: Seq<char>,
    v: Seq<char>,
    ls: Seq<int>,
    ps: Seq<int>,
    x: Seq<char>,
    i: int,
)
    requires
        all_but_first(t, v, ls, ps, x),
        0 <= i < ls.len(),
    ensures
        ({
            let u = put_in(v, ps[0], x);
            let w = x.len() as int;
            let l = ls[i];
            let from = start_of_line(t, l as nat);
            &&& start_of_line(u, l as nat) == from + i * w
            &&& end_of_line(u, l as nat) == end_of_line(t, l as nat) + (i + 1) * w
            &&& saying(u, l) == put_in(saying(t, l), ps[i] - from, x)
        }),
{
    let u = put_in(v, ps[0], x);
    let w = x.len() as int;
    let (first, p, l) = (ls[0], ps[0], ls[i]);
    lemma_first_untouched(t, v, ls, ps, x);
    lemma_line_bounds(t, l as nat);
    lemma_line_bounds(v, l as nat);
    lemma_line_bounds(u, l as nat);
    if i == 0 {
        lemma_put_in_line(v, first as nat, p, x);
        assert(0 * w == 0 && (0 + 1) * w == w) by (nonlinear_arith);
        let start = start_of_line(t, l as nat);
        assert(saying(v, l) =~= saying(t, l));
        assert(saying(u, l) =~= put_in(saying(t, l), p - start, x));
    } else {
        assert(ls.skip(1)[i - 1] == l && ps.skip(1)[i - 1] == ps[i]);
        assert(ls[0] < ls[i]);
        lemma_put_in_others(v, first as nat, p, x, l as nat);
        assert((i - 1) * w + w == i * w && i * w + w == (i + 1) * w) by (nonlinear_arith);
        assert(saying(u, l) =~= saying(v, l));
        reveal(widened);
    }
}

proof fn lemma_widened_other(
    t: Seq<char>,
    v: Seq<char>,
    ls: Seq<int>,
    ps: Seq<int>,
    x: Seq<char>,
    l: int,
)
    requires
        all_but_first(t, v, ls, ps, x),
        0 <= l < line_count(t),
        !ls.contains(l),
    ensures
        ({
            let u = put_in(v, ps[0], x);
            let (start, end) = (start_of_line(t, l as nat), end_of_line(t, l as nat));
            &&& end_of_line(u, l as nat) - start_of_line(u, l as nat) == end - start
            &&& saying(u, l) == saying(t, l)
            &&& l < ls[0] ==> start_of_line(u, l as nat) == start && end_of_line(u, l as nat) == end
        }),
{
    reveal(widened);
    let more = ls.skip(1);
    lemma_first_untouched(t, v, ls, ps, x);
    assert(ls.contains(ls[0]));
    if more.contains(l) {
        let k = choose|k: int| 0 <= k < more.len() && more[k] == l;
        assert(ls[k + 1] == l);
    }
    if l < ls[0] && more.len() > 0 {
        assert(more[0] == ls[1]);
        assert(ls[0] < ls[1]);
    }
    assert(start_of_line(v, l as nat) == start_of_line(v, l as nat));
    lemma_put_in_others(v, ls[0] as nat, ps[0], x, l as nat);
    lemma_line_bounds(v, l as nat);
    assert(saying(put_in(v, ps[0], x), l) =~= saying(v, l));
}

proof fn lemma_widened_once_more(
    t: Seq<char>,
    v: Seq<char>,
    ls: Seq<int>,
    ps: Seq<int>,
    x: Seq<char>,
)
    requires
        all_but_first(t, v, ls, ps, x),
    ensures
        widened(t, put_in(v, ps[0], x), ls, ps, x),
{
    let u = put_in(v, ps[0], x);
    let w = x.len() as int;
    lemma_first_untouched(t, v, ls, ps, x);
    lemma_put_in_line(v, ls[0] as nat, ps[0], x);
    assert(v.len() == t.len() + (ls.len() - 1) * w) by {
        reveal(widened);
    }
    assert(u.len() == t.len() + ls.len() * w) by (nonlinear_arith)
        requires
            u.len() == v.len() + w,
            v.len() == t.len() + (ls.len() - 1) * w,
    ;
    assert forall|i: int| 0 <= i < ls.len() implies {
        let l = #[trigger] ls[i];
        let start = start_of_line(t, l as nat);
        &&& start_of_line(u, l as nat) == start + i * w
        &&& end_of_line(u, l as nat) == end_of_line(t, l as nat) + (i + 1) * w
        &&& saying(u, l) == put_in(saying(t, l), ps[i] - start, x)
    } by {
        lemma_widened_line(t, v, ls, ps, x, i);
    }
    assert forall|l: int|
        #![trigger start_of_line(u, l as nat)]
        0 <= l < line_count(t) && !ls.contains(l) implies end_of_line(u, l as nat) - start_of_line(
        u,
        l as nat,
    ) == end_of_line(t, l as nat) - start_of_line(t, l as nat) && saying(u, l) == saying(t, l) by {
        lemma_widened_other(t, v, ls, ps, x, l);
    }
    assert forall|l: int|
        #![trigger start_of_line(u, l as nat)]
        0 <= l < line_count(t) && l < ls[0] implies start_of_line(u, l as nat) == start_of_line(
        t,
        l as nat,
    ) && end_of_line(u, l as nat) == end_of_line(t, l as nat) by {
        if ls.contains(l) {
            let k = choose|k: int| 0 <= k < ls.len() && ls[k] == l;
            assert(k == 0 || ls[0] < ls[k]);
        }
        lemma_widened_other(t, v, ls, ps, x, l);
    }
    assert forall|k: int| 0 <= k < t.len() && k < ps[0] implies u[k] == #[trigger] t[k] by {
        assert(v[k] == t[k]);
    }
    reveal(widened);
}

proof fn lemma_put_in_all(t: Seq<char>, ls: Seq<int>, ps: Seq<int>, x: Seq<char>)
    requires
        in_turn(t, ls),
        placed(t, ls, ps),
        within_line(x),
    ensures
        widened(t, changed(t, put_at(ps, x)), ls, ps, x),
    decreases ls.len(),
{
    let cs = put_at(ps, x);
    let u = changed(t, cs);
    if ls.len() == 0 {
        reveal(widened);
        assert(u == t);
    } else {
        let spots = ps.skip(1);
        lemma_in_turn_rest(t, ls, ps);
        lemma_put_in_all(t, ls.skip(1), spots, x);
        assert(cs.skip(1) =~= put_at(spots, x));
        let v = changed(t, put_at(spots, x));
        lemma_made_after_first(t, cs, (cs.len() - 1) as nat);
        assert(u == edited(v, cs[0]));
        lemma_first_untouched(t, v, ls, ps, x);
        lemma_insertion(v, ps[0], x);
        assert(u == put_in(v, ps[0], x));
        lemma_widened_once_more(t, v, ls, ps, x);
    }
}

proof fn lemma_made_longer(t: Seq<char>, ps: Seq<int>, x: Seq<char>, k: nat)
    requires
        k <= ps.len(),
        forall|i: int| 0 <= i < ps.len() ==> 0 <= #[trigger] ps[i] <= t.len(),
    ensures
        made(t, put_at(ps, x), k).len() == t.len() + k * x.len(),
    decreases k,
{
    if k > 0 {
        lemma_made_longer(t, ps, x, (k - 1) as nat);
        assert(ps[ps.len() - k] >= 0);
        assert((k - 1) * x.len() + x.len() == k * x.len()) by (nonlinear_arith);
    }
    assert(0 * x.len() == 0) by (nonlinear_arith);
    assert((k - 1) * x.len() >= 0 || k == 0) by (nonlinear_arith);
}

/// What takes back the putting in of the same text at several positions.
proof fn lemma_taken_out(t: Seq<char>, ps: Seq<int>, x: Seq<char>, back: Seq<Patch>)
    requires
        fits(put_at(ps, x), t.len() as int),
        t.len() + ps.len() * x.len() <= usize::MAX,
        back.len() == ps.len(),
        forall|i: int|
            0 <= i < ps.len() ==> #[trigger] back[i] == (Patch {
                from: ps[i] + i * x.len(),
                to: ps[i] + (i + 1) * x.len(),
                text: Seq::empty(),
            }),
    ensures
        changed(changed(t, put_at(ps, x)), back) == t,
{
    let cs = put_at(ps, x);
    let w = x.len() as int;
    let n = ps.len() as int;
    assert forall|i: int| 0 <= i < ps.len() implies 0 <= #[trigger] ps[i] <= t.len() by {
        assert(cs[i].from == ps[i]);
    }
    lemma_made_longer(t, ps, x, ps.len());
    law_undo_puts_the_text_back(t, cs);
    let inv = inverse(t, cs);
    assert forall|i: int| 0 <= i < n implies inv[i] == #[trigger] back[i] by {
        let k = (n - 1 - i) as nat;
        lemma_made_longer(t, ps, x, k);
        lemma_made_longer(t, ps, x, k + 1);
        let was = made(t, cs, k);
        assert(cs[i] == (Patch { from: ps[i], to: ps[i], text: x }));
        assert(k * w >= 0) by (nonlinear_arith)
            requires
                k >= 0,
                w >= 0,
        ;
        assert(begins(was, cs[i]) == ps[i]);
        assert(n * w - (k + 1) * w == i * w) by (nonlinear_arith)
            requires
                k == n - 1 - i,
        ;
        assert(i * w + w == (i + 1) * w && (i + 1) * w <= n * w && 0 <= i * w) by (nonlinear_arith)
            requires
                0 <= i < n,
                w >= 0,
        ;
        assert(was.subrange(ps[i], ps[i]) =~= Seq::<char>::empty());
    }
    assert(inv =~= back);
}

proof fn lemma_put_at_fits(t: Seq<char>, ls: Seq<int>, ps: Seq<int>, x: Seq<char>)
    requires
        in_turn(t, ls),
        placed(t, ls, ps),
    ensures
        fits(put_at(ps, x), t.len() as int),
{
    let cs = put_at(ps, x);
    assert forall|i: int| 0 <= i < cs.len() implies 0 <= (#[trigger] cs[i]).from <= cs[i].to
        <= t.len() by {
        lemma_line_bounds(t, ls[i] as nat);
        assert(cs[i].from == ps[i]);
    }
    assert forall|i: int, j: int| 0 <= i < j < cs.len() implies (#[trigger] cs[i]).to <= (
    #[trigger] cs[j]).from by {
        assert(ls[i] < ls[j]);
        lemma_further_on(t, ls[i], ls[j]);
        assert(cs[i].to == ps[i] && cs[j].from == ps[j]);
    }
}

proof fn lemma_least_column(t: Seq<char>, lines: Seq<int>, tab: int, i: int)
    requires
        0 <= i < lines.len(),
    ensures
        least_column(t, lines, tab) <= text_column(t, lines[i], tab),
    decreases lines.len(),
{
    if lines.len() > 1 && i < lines.len() - 1 {
        lemma_least_column(t, lines.drop_last(), tab, i);
    }
}

proof fn lemma_column_kept(t: Seq<char>, from: int, at: int, tab: int)
    requires
        tab >= 1,
    ensures
        0 <= column_of(t, from, at, tab) <= usize::MAX,
    decreases at - from,
{
    if at > from {
        lemma_column_kept(t, from, at - 1, tab);
        let col = column_of(t, from, at - 1, tab);
        assert(0 <= col % tab < tab) by (nonlinear_arith)
            requires
                tab >= 1,
        ;
    }
}

proof fn lemma_least_column_kept(t: Seq<char>, lines: Seq<int>, tab: int)
    requires
        tab >= 1,
    ensures
        0 <= least_column(t, lines, tab),
    decreases lines.len(),
{
    if lines.len() >= 1 {
        let at = text_of_line(t, lines.last() as nat);
        lemma_column_kept(t, start_of_line(t, crate::rope::line_at(t, at)), at, tab);
        if lines.len() > 1 {
            lemma_least_column_kept(t, lines.drop_last(), tab);
        }
    }
}

/// A line that was commented out before its text is seen to be, and what takes
/// the mark off again is what was put there.
proof fn lemma_comment_shows(
    t: Seq<char>,
    out: Seq<char>,
    lines: Seq<int>,
    ps: Seq<int>,
    marker: Seq<char>,
    i: int,
)
    requires
        0 <= i < lines.len() == ps.len(),
        marker.len() > 0,
        !is_indent(marker[0]),
        start_of_line(t, lines[i] as nat) <= ps[i] <= text_of_line(t, lines[i] as nat),
        widened(t, out, lines, ps, marker.push(' ')),
    ensures
        commented(out, lines[i], marker),
        uncomment(out, lines[i], marker) == (Patch {
            from: ps[i] + i * (marker.len() + 1),
            to: ps[i] + (i + 1) * (marker.len() + 1),
            text: Seq::empty(),
        }),
{
    reveal(widened);
    let x = marker.push(' ');
    let w = x.len() as int;
    let m = marker.len() as int;
    let line = lines[i];
    let (start, end) = (start_of_line(t, line as nat), end_of_line(t, line as nat));
    let (from, to) = (start_of_line(out, line as nat), end_of_line(out, line as nat));
    let at = ps[i] + i * w;
    lemma_text_of_line(t, line as nat);
    assert(i * w + w == (i + 1) * w) by (nonlinear_arith);
    lemma_line_bounds(t, line as nat);
    lemma_line_bounds(out, line as nat);
    let said = put_in(saying(t, line), ps[i] - start, x);
    assert(saying(out, line) == said);
    assert forall|k: int| from <= k < to implies #[trigger] out[k] == said[k - from] by {
        assert(out[k] == saying(out, line)[k - from]);
    }
    assert forall|k: int| from <= k < at implies is_indent(#[trigger] out[k]) by {
        assert(said[k - from] == t[start + (k - from)]);
        lemma_indented_up_to(t, start, end, start + (k - from));
    }
    assert(out[at] == said[ps[i] - start]);
    assert(said[ps[i] - start] == x[0]);
    lemma_text_begins(out, from, to, at);
    assert(out.subrange(at, at + m) =~= marker) by {
        assert forall|k: int| 0 <= k < m implies #[trigger] out.subrange(at, at + m)[k]
            == marker[k] by {
            assert(out[at + k] == said[ps[i] - start + k]);
            assert(said[ps[i] - start + k] == x[k]);
        }
    }
    assert(out[at + m] == said[ps[i] - start + m]);
    assert(said[ps[i] - start + m] == x[m]);
}

/// What is known of a text after some of its lines were commented out.
proof fn lemma_commented_out(
    t: Seq<char>,
    lines: Seq<int>,
    marker: Seq<char>,
    tab: int,
)
    requires
        in_turn(t, lines),
        marker.len() > 0,
        within_line(marker),
        !is_indent(marker[0]),
        tab >= 1,
        !all_commented(t, lines, marker),
        least_column(t, lines, tab) < usize::MAX,
    ensures
        ({
            let cs = toggled(t, lines, marker, tab);
            let out = changed(t, cs);
            let back = toggled(out, lines, marker, tab);
            &&& all_commented(out, lines, marker)
            &&& planned(cs) == cs
            &&& planned(back) == back
            &&& out.len() <= usize::MAX ==> changed(out, back) == t
            &&& line_count(out) == line_count(t)
            &&& forall|l: int|
                0 <= l < line_count(t) && (lines.contains(l) <==> !blank_line(t, l))
                    ==> blank_line(out, l) == #[trigger] blank_line(t, l)
        }),
{
    let column = least_column(t, lines, tab);
    let x = marker.push(' ');
    let w = x.len() as int;
    let ps = lines.map_values(|l: int| comment(t, l, marker, column, tab).from);
    let cs = toggled(t, lines, marker, tab);
    assert(cs =~= put_at(ps, x));
    assert(within_line(x)) by {
        assert forall|k: int| 0 <= k < x.len() implies !ends_line(x, k) && #[trigger] x[k] != '\r' by {
            if k < marker.len() {
                assert(!ends_line(marker, k) && marker[k] != '\r');
            }
        }
    }
    lemma_least_column_kept(t, lines, tab);
    assert forall|i: int|
        #![trigger lines[i]]
        #![trigger ps[i]]
        0 <= i < lines.len() implies start_of_line(t, lines[i] as nat) <= ps[i] <= text_of_line(
        t,
        lines[i] as nat,
    ) && text_of_line(t, lines[i] as nat) <= end_of_line(t, lines[i] as nat) by {
        let line = lines[i];
        let text = text_of_line(t, line as nat);
        lemma_text_of_line(t, line as nat);
        lemma_on_line(t, line as nat, text);
        lemma_least_column(t, lines, tab, i);
        let (start, end) = (start_of_line(t, line as nat), end_of_line(t, line as nat));
        lemma_reach_before(t, start, start, end, column, tab, text);
    }
    assert(placed(t, lines, ps));
    lemma_put_in_all(t, lines, ps, x);
    lemma_put_at_fits(t, lines, ps, x);
    let out = changed(t, cs);
    let back = lines.map_values(|l: int| uncomment(out, l, marker));
    assert forall|i: int| 0 <= i < lines.len() implies commented(
        out,
        #[trigger] lines[i],
        marker,
    ) && back[i] == (Patch {
        from: ps[i] + i * w,
        to: ps[i] + (i + 1) * w,
        text: Seq::empty(),
    }) by {
        assert(ps[i] <= text_of_line(t, lines[i] as nat));
        lemma_comment_shows(t, out, lines, ps, marker, i);
    }
    assert(all_commented(out, lines, marker));
    assert(toggled(out, lines, marker, tab) == back);
    assert forall|i: int| 0 <= i < ps.len() implies #[trigger] back[i] == (Patch {
        from: ps[i] + i * x.len(),
        to: ps[i] + (i + 1) * x.len(),
        text: Seq::empty(),
    }) by {
        assert(lines[i] == lines[i]);
    }
    assert(line_count(out) == line_count(t) && out.len() == t.len() + lines.len() * w) by {
        reveal(widened);
    }
    if out.len() <= usize::MAX {
        lemma_taken_out(t, ps, x, back);
    }
    law_what_fits_is_planned_as_it_is(cs, t.len() as int);
    lemma_put_out_fits(t, out, ps, x, back);
    law_what_fits_is_planned_as_it_is(back, out.len() as int);
    assert forall|l: int|
        0 <= l < line_count(t) && (lines.contains(l) <==> !blank_line(t, l)) implies blank_line(
        out,
        l,
    ) == #[trigger] blank_line(t, l) by {
        lemma_blank_kept(t, out, lines, ps, x, l);
    }
}

/// What takes a text out again that was put in at several positions fits.
proof fn lemma_put_out_fits(
    t: Seq<char>,
    out: Seq<char>,
    ps: Seq<int>,
    x: Seq<char>,
    back: Seq<Patch>,
)
    requires
        fits(put_at(ps, x), t.len() as int),
        out.len() == t.len() + ps.len() * x.len(),
        back.len() == ps.len(),
        forall|i: int|
            0 <= i < ps.len() ==> #[trigger] back[i] == (Patch {
                from: ps[i] + i * x.len(),
                to: ps[i] + (i + 1) * x.len(),
                text: Seq::empty(),
            }),
    ensures
        fits(back, out.len() as int),
{
    let cs = put_at(ps, x);
    let w = x.len() as int;
    let n = ps.len() as int;
    assert forall|i: int| 0 <= i < back.len() implies 0 <= (#[trigger] back[i]).from <= back[i].to
        <= out.len() by {
        assert(cs[i].from == ps[i]);
        assert(0 <= i * w <= (i + 1) * w <= n * w) by (nonlinear_arith)
            requires
                0 <= i < n,
                w >= 0,
        ;
    }
    assert forall|i: int, j: int| 0 <= i < j < back.len() implies (#[trigger] back[i]).to <= (
    #[trigger] back[j]).from by {
        assert(cs[i].to <= cs[j].from);
        assert((i + 1) * w <= j * w) by (nonlinear_arith)
            requires
                0 <= i < j,
                w >= 0,
        ;
    }
}

/// A line is as blank as it was, where those that something was put into were
/// not blank.
proof fn lemma_blank_kept(
    t: Seq<char>,
    out: Seq<char>,
    ls: Seq<int>,
    ps: Seq<int>,
    x: Seq<char>,
    l: int,
)
    requires
        widened(t, out, ls, ps, x),
        placed(t, ls, ps),
        0 <= l < line_count(t),
        ls.contains(l) <==> !blank_line(t, l),
    ensures
        blank_line(out, l) == blank_line(t, l),
{
    reveal(widened);
    let (start, end) = (start_of_line(t, l as nat), end_of_line(t, l as nat));
    let (from, to) = (start_of_line(out, l as nat), end_of_line(out, l as nat));
    lemma_line_bounds(t, l as nat);
    lemma_line_bounds(out, l as nat);
    if ls.contains(l) {
        let i = choose|i: int| 0 <= i < ls.len() && ls[i] == l;
        let p = ps[i] - start;
        let k = choose|k: int| start <= k < end && !whitespace(#[trigger] t[k]);
        let said = put_in(saying(t, l), p, x);
        assert(saying(out, ls[i]) == said);
        let at = if k - start < p { k - start } else { k - start + x.len() };
        assert(said[at] == saying(t, l)[k - start]);
        assert(saying(out, l)[at] == out[from + at]);
        assert(!whitespace(out[from + at]));
    } else {
        assert(saying(out, l) == saying(t, l));
        assert forall|k: int| from <= k < to implies whitespace(#[trigger] out[k]) by {
            assert(out[k] == saying(out, l)[k - from]);
            assert(saying(t, l)[k - from] == t[start + (k - from)]);
        }
    }
}

proof fn lemma_seen_between(t: Seq<char>, from: int, to: int)
    ensures
        ({
            let ls = seen_between(t, from, to);
            &&& forall|i: int| 0 <= i < ls.len() ==> from <= #[trigger] ls[i] < to
            &&& forall|i: int, j: int| 0 <= i < j < ls.len() ==> #[trigger] ls[i] < #[trigger] ls[j]
            &&& forall|l: int|
                from <= l < to ==> (#[trigger] ls.contains(l) <==> !blank_line(t, l))
        }),
    decreases to - from,
{
    let ls = seen_between(t, from, to);
    if to > from {
        lemma_seen_between(t, from, to - 1);
        let less = seen_between(t, from, to - 1);
        assert forall|l: int| from <= l < to implies (#[trigger] ls.contains(l) <==> !blank_line(
            t,
            l,
        )) by {
            if ls.contains(l) {
                let k = choose|k: int| 0 <= k < ls.len() && ls[k] == l;
                if k < less.len() {
                    assert(less[k] == l);
                    assert(less.contains(l));
                }
            }
            if !blank_line(t, l) {
                if l < to - 1 {
                    assert(less.contains(l));
                    let k = choose|k: int| 0 <= k < less.len() && less[k] == l;
                    assert(ls[k] == l);
                } else {
                    assert(ls[less.len() as int] == l);
                }
            }
        }
    }
}

proof fn lemma_seen(t: Seq<char>, spans: Seq<(int, int)>)
    requires
        spans_ok(t, spans),
        apart(spans),
    ensures
        in_turn(t, seen(t, spans)),
        forall|i: int|
            0 <= i < seen(t, spans).len() ==> spans.len() > 0 && #[trigger] seen(t, spans)[i]
                <= spans.last().1,
        forall|k: int, l: int|
            #![trigger spans[k], seen(t, spans).contains(l)]
            0 <= k < spans.len() && spans[k].0 <= l <= spans[k].1 ==> (seen(t, spans).contains(l)
                <==> !blank_line(t, l)),
    decreases spans.len(),
{
    if spans.len() > 0 {
        let less = spans.drop_last();
        let s = spans.last();
        let n = spans.len() - 1;
        assert(spans[n] == s);
        assert(spans_ok(t, less)) by {
            assert forall|i: int| 0 <= i < less.len() implies 0 <= (#[trigger] less[i]).0
                <= less[i].1 < line_count(t) by {
                assert(less[i] == spans[i]);
            }
        }
        assert(apart(less)) by {
            assert forall|i: int, j: int| 0 <= i < j < less.len() implies (#[trigger] less[i]).1 < (
            #[trigger] less[j]).0 by {
                assert(spans[i].1 < spans[j].0);
            }
        }
        lemma_seen(t, less);
        lemma_seen_between(t, s.0, s.1 + 1);
        let (a, b) = (seen(t, less), seen_between(t, s.0, s.1 + 1));
        let ls = seen(t, spans);
        assert(ls == a + b);
        if less.len() > 0 {
            assert(less.last() == spans[n - 1]);
            assert(spans[n - 1].1 < spans[n].0);
        }
        assert forall|i: int| 0 <= i < ls.len() implies 0 <= #[trigger] ls[i] < line_count(t)
            && ls[i] <= s.1 && (i < a.len() ==> ls[i] < s.0) && (i >= a.len() ==> s.0 <= ls[i]) by {
            if i < a.len() {
                assert(ls[i] == a[i]);
            } else {
                assert(ls[i] == b[i - a.len()]);
            }
        }
        assert forall|i: int, j: int| 0 <= i < j < ls.len() implies #[trigger] ls[i]
            < #[trigger] ls[j] by {
            if j < a.len() {
                assert(ls[i] == a[i] && ls[j] == a[j]);
            } else if i >= a.len() {
                assert(ls[i] == b[i - a.len()] && ls[j] == b[j - a.len()]);
            }
        }
        assert forall|k: int, l: int|
            #![trigger spans[k], ls.contains(l)]
            0 <= k < spans.len() && spans[k].0 <= l <= spans[k].1 implies (ls.contains(l)
            <==> !blank_line(t, l)) by {
            if k < n {
                assert(less[k] == spans[k]);
                assert(spans[k].1 < spans[n].0);
            }
            if ls.contains(l) {
                let i = choose|i: int| 0 <= i < ls.len() && ls[i] == l;
                if i < a.len() {
                    assert(a[i] == l);
                    assert(a.contains(l));
                } else {
                    assert(b[i - a.len()] == l);
                    assert(b.contains(l));
                }
            }
            if a.contains(l) {
                let i = choose|i: int| 0 <= i < a.len() && a[i] == l;
                assert(ls[i] == l);
            }
            if b.contains(l) {
                let i = choose|i: int| 0 <= i < b.len() && b[i] == l;
                assert(ls[a.len() + i] == l);
            }
        }
    }
}

proof fn lemma_seen_between_alike(t: Seq<char>, u: Seq<char>, from: int, to: int)
    requires
        forall|l: int| from <= l < to ==> blank_line(u, l) == #[trigger] blank_line(t, l),
    ensures
        seen_between(u, from, to) == seen_between(t, from, to),
    decreases to - from,
{
    if to > from {
        assert(blank_line(u, to - 1) == blank_line(t, to - 1));
        lemma_seen_between_alike(t, u, from, to - 1);
    }
}

proof fn lemma_seen_alike(t: Seq<char>, u: Seq<char>, spans: Seq<(int, int)>)
    requires
        forall|k: int, l: int|
            #![trigger spans[k], blank_line(t, l)]
            0 <= k < spans.len() && spans[k].0 <= l <= spans[k].1 ==> blank_line(u, l)
                == blank_line(t, l),
    ensures
        seen(u, spans) == seen(t, spans),
    decreases spans.len(),
{
    if spans.len() > 0 {
        let less = spans.drop_last();
        let s = spans.last();
        assert(spans[spans.len() - 1] == s);
        assert forall|k: int, l: int|
            #![trigger less[k], blank_line(t, l)]
            0 <= k < less.len() && less[k].0 <= l <= less[k].1 implies blank_line(u, l)
            == blank_line(t, l) by {
            assert(less[k] == spans[k]);
        }
        lemma_seen_alike(t, u, less);
        lemma_seen_between_alike(t, u, s.0, s.1 + 1);
    }
}

proof fn lemma_commenting_twice(
    t: Seq<char>,
    spans: Seq<(int, int)>,
    marker: Seq<char>,
    tab: int,
)
    requires
        spans_ok(t, spans),
        apart(spans),
        within_line(marker),
        marker.len() > 0 ==> !is_indent(marker[0]),
        tab >= 1,
        !all_commented(t, seen(t, spans), marker),
        least_column(t, seen(t, spans), tab) < usize::MAX,
    ensures
        ({
            let out = changed(t, planned(toggled(t, seen(t, spans), marker, tab)));
            &&& planned(toggled(t, seen(t, spans), marker, tab)).len() > 0
            &&& line_count(out) == line_count(t)
            &&& seen(out, spans) == seen(t, spans)
            &&& all_commented(out, seen(out, spans), marker)
            &&& out.len() <= usize::MAX ==> changed(
                out,
                planned(toggled(out, seen(out, spans), marker, tab)),
            ) == t
        }),
{
    let lines = seen(t, spans);
    lemma_seen(t, spans);
    if marker.len() == 0 {
        assert(all_commented(t, lines, marker)) by {
            assert forall|i: int| 0 <= i < lines.len() implies commented(
                t,
                #[trigger] lines[i],
                marker,
            ) by {
                let at = text_of_line(t, lines[i] as nat);
                lemma_text_of_line(t, lines[i] as nat);
                lemma_line_bounds(t, lines[i] as nat);
                assert(t.subrange(at, at) =~= marker);
            }
        }
    }
    lemma_commented_out(t, lines, marker, tab);
    let out = changed(t, toggled(t, lines, marker, tab));
    assert forall|k: int, l: int|
        #![trigger spans[k], blank_line(t, l)]
        0 <= k < spans.len() && spans[k].0 <= l <= spans[k].1 implies blank_line(out, l)
        == blank_line(t, l) by {
        assert(lines.contains(l) <==> !blank_line(t, l));
    }
    lemma_seen_alike(t, out, spans);
}

/// Commenting the lines of some spans out and back in, with the changes planned
/// as they are before they are made, gives the text back. In between every line
/// that has something on it is seen to be commented out. The mark is one that
/// could not be taken for indentation.
pub proof fn law_commenting_twice_changes_nothing(
    t: Seq<char>,
    spans: Seq<(int, int)>,
    marker: Seq<char>,
    tab: int,
)
    requires
        spans_ok(t, spans),
        apart(spans),
        within_line(marker),
        marker.len() > 0 ==> !is_indent(marker[0]),
        tab >= 1,
        !all_commented(t, seen(t, spans), marker),
        least_column(t, seen(t, spans), tab) < usize::MAX,
        changed(t, planned(toggled(t, seen(t, spans), marker, tab))).len() <= usize::MAX,
    ensures
        ({
            let out = changed(t, planned(toggled(t, seen(t, spans), marker, tab)));
            &&& line_count(out) == line_count(t)
            &&& seen(out, spans) == seen(t, spans)
            &&& all_commented(out, seen(out, spans), marker)
            &&& changed(out, planned(toggled(out, seen(out, spans), marker, tab))) == t
        }),
{
    lemma_commenting_twice(t, spans, marker, tab);
}

/// Two calls of `toggle_comment`, the first of which finds a line that is not
/// commented out, give the text back, where the cursors touch the same lines
/// after the first as before it.
pub proof fn law_toggling_comments_twice_gives_the_text_back(
    docs: (Document, Document, Document),
    panes: (Pane, Pane, Pane),
    marker: Seq<char>,
    tab_width: usize,
    times: (u64, u64),
    edits: (Seq<AppliedEdit>, Seq<AppliedEdit>),
)
    requires
        within_line(marker),
        marker.len() > 0 ==> !is_indent(marker[0]),
        comments_toggled(docs.0, docs.1, panes.0, panes.1, marker, tab_width, times.0, edits.0),
        comments_toggled(docs.1, docs.2, panes.1, panes.2, marker, tab_width, times.1, edits.1),
        touched(docs.1.content(), panes.1.sel.ranges@) == touched(
            docs.0.content(),
            panes.0.sel.ranges@,
        ),
        ({
            let t = docs.0.content();
            let lines = seen(t, touched(t, panes.0.sel.ranges@));
            &&& !all_commented(t, lines, marker)
            &&& least_column(t, lines, tab_stop(tab_width)) < usize::MAX
        }),
    ensures
        docs.2.content() == docs.0.content(),
{
    let t = docs.0.content();
    let spans = touched(t, panes.0.sel.ranges@);
    let tab = tab_stop(tab_width);
    law_touched_lines_are_in_order(t, panes.0.sel.ranges@);
    let cs = planned(toggled(t, seen(t, spans), marker, tab));
    lemma_committed_text(docs.0, docs.1, panes.0, panes.1, cs, times.0, edits.0);
    lemma_commenting_twice(t, spans, marker, tab);
    let out = docs.1.content();
    lemma_committed_text(
        docs.1,
        docs.2,
        panes.1,
        panes.2,
        planned(toggled(out, seen(out, spans), marker, tab)),
        times.1,
        edits.1,
    );
}

/// What a set of changes that stands alone in the history makes of the text.
proof fn lemma_committed_text(
    was: Document,
    is: Document,
    before: Pane,
    after: Pane,
    cs: Seq<Patch>,
    now: u64,
    edits: Seq<AppliedEdit>,
)
    requires
        committed(was, is, before, after, cs, false, now, edits),
    ensures
        is.content() == changed(was.content(), cs),
        cs.len() > 0 ==> is.content().len() <= usize::MAX,
{
    if cs.len() > 0 {
        let mid = choose|mid: Document|
            {
                &&& applied(was, mid, cs, before.sel, false, now, edits)
                &&& #[trigger] recorded(mid, is, after.sel)
            };
        assert(is.content() == mid.content());
    } else {
        assert(changed(was.content(), cs) == was.content());
    }
}
// ---------------------------------------------------------------------------
// Indenting several lines
// ---------------------------------------------------------------------------

/// Whether indenting does something to a line: to any with something on it, and
/// to one that stands alone.
pub open spec fn is_indented(t: Seq<char>, line: int, alone: bool) -> bool {
    start_of_line(t, line as nat) < end_of_line(t, line as nat) || alone
}

/// The lines from `from` up to `to` that indenting does something to.
pub open spec fn indented_between(t: Seq<char>, from: int, to: int, alone: bool) -> Seq<int>
    decreases to - from,
{
    if to <= from {
        Seq::empty()
    } else if is_indented(t, to - 1, alone) {
        indented_between(t, from, to - 1, alone).push(to - 1)
    } else {
        indented_between(t, from, to - 1, alone)
    }
}

/// The lines of spans that indenting does something to.
pub open spec fn indented_in(t: Seq<char>, spans: Seq<(int, int)>) -> Seq<int>
    decreases spans.len(),
{
    if spans.len() == 0 {
        Seq::empty()
    } else {
        let s = spans.last();
        indented_in(t, spans.drop_last()) + indented_between(t, s.0, s.1 + 1, s.0 == s.1)
    }
}

/// Whether each span begins after the one before it.
pub open spec fn apart(spans: Seq<(int, int)>) -> bool {
    forall|i: int, j: int|
        0 <= i < j < spans.len() ==> (#[trigger] spans[i]).1 < (#[trigger] spans[j]).0
}

spec fn starts(t: Seq<char>, ls: Seq<int>) -> Seq<int> {
    ls.map_values(|l: int| start_of_line(t, l as nat))
}

proof fn lemma_indent_lines(
    t: Seq<char>,
    from: int,
    to: int,
    alone: bool,
    unit: Seq<char>,
    width: int,
)
    ensures
        indent_lines(t, from, to, alone, false, unit, width) == put_at(
            starts(t, indented_between(t, from, to, alone)),
            unit,
        ),
    decreases to - from,
{
    let ls = indented_between(t, from, to, alone);
    if to > from {
        lemma_indent_lines(t, from, to - 1, alone, unit, width);
        lemma_line_bounds(t, (to - 1) as nat);
    }
    assert(indent_lines(t, from, to, alone, false, unit, width) =~= put_at(starts(t, ls), unit));
}

proof fn lemma_indents(t: Seq<char>, spans: Seq<(int, int)>, unit: Seq<char>, width: int)
    ensures
        indents(t, spans, false, unit, width) == put_at(starts(t, indented_in(t, spans)), unit),
    decreases spans.len(),
{
    if spans.len() > 0 {
        let s = spans.last();
        lemma_indents(t, spans.drop_last(), unit, width);
        lemma_indent_lines(t, s.0, s.1 + 1, s.0 == s.1, unit, width);
    }
    assert(indents(t, spans, false, unit, width) =~= put_at(
        starts(t, indented_in(t, spans)),
        unit,
    ));
}

proof fn lemma_indented_between(t: Seq<char>, from: int, to: int, alone: bool)
    ensures
        ({
            let ls = indented_between(t, from, to, alone);
            &&& forall|i: int| 0 <= i < ls.len() ==> from <= #[trigger] ls[i] < to
            &&& forall|i: int, j: int| 0 <= i < j < ls.len() ==> #[trigger] ls[i] < #[trigger] ls[j]
            &&& forall|l: int| #[trigger]
                ls.contains(l) <==> from <= l < to && is_indented(t, l, alone)
        }),
    decreases to - from,
{
    let ls = indented_between(t, from, to, alone);
    if to > from {
        lemma_indented_between(t, from, to - 1, alone);
        let less = indented_between(t, from, to - 1, alone);
        assert forall|l: int| #[trigger] ls.contains(l) <==> from <= l < to && is_indented(
            t,
            l,
            alone,
        ) by {
            if ls.contains(l) {
                let k = choose|k: int| 0 <= k < ls.len() && ls[k] == l;
                if k < less.len() {
                    assert(less[k] == l);
                    assert(less.contains(l));
                }
            }
            if from <= l < to && is_indented(t, l, alone) {
                if l < to - 1 {
                    assert(less.contains(l));
                    let k = choose|k: int| 0 <= k < less.len() && less[k] == l;
                    assert(ls[k] == l);
                } else {
                    assert(ls[less.len() as int] == l);
                }
            }
        }
    }
}

proof fn lemma_indented_in(t: Seq<char>, spans: Seq<(int, int)>)
    requires
        spans_ok(t, spans),
        apart(spans),
    ensures
        in_turn(t, indented_in(t, spans)),
        forall|i: int|
            0 <= i < indented_in(t, spans).len() ==> spans.len() > 0 && #[trigger] indented_in(
                t,
                spans,
            )[i] <= spans.last().1,
        forall|k: int, l: int|
            #![trigger spans[k], indented_in(t, spans).contains(l)]
            0 <= k < spans.len() && spans[k].0 <= l <= spans[k].1 ==> (indented_in(t, spans).contains(
                l,
            ) <==> is_indented(t, l, spans[k].0 == spans[k].1)),
    decreases spans.len(),
{
    if spans.len() > 0 {
        let less = spans.drop_last();
        let s = spans.last();
        let n = spans.len() - 1;
        assert(spans[n] == s);
        assert(spans_ok(t, less)) by {
            assert forall|i: int| 0 <= i < less.len() implies 0 <= (#[trigger] less[i]).0
                <= less[i].1 < line_count(t) by {
                assert(less[i] == spans[i]);
            }
        }
        assert(apart(less)) by {
            assert forall|i: int, j: int| 0 <= i < j < less.len() implies (#[trigger] less[i]).1 < (
            #[trigger] less[j]).0 by {
                assert(spans[i].1 < spans[j].0);
            }
        }
        lemma_indented_in(t, less);
        let alone = s.0 == s.1;
        lemma_indented_between(t, s.0, s.1 + 1, alone);
        let (a, b) = (indented_in(t, less), indented_between(t, s.0, s.1 + 1, alone));
        let ls = indented_in(t, spans);
        assert(ls == a + b);
        if less.len() > 0 {
            assert(less.last() == spans[n - 1]);
            assert(spans[n - 1].1 < spans[n].0);
        }
        assert forall|i: int| 0 <= i < ls.len() implies 0 <= #[trigger] ls[i] < line_count(t)
            && ls[i] <= s.1 && (i < a.len() ==> ls[i] < s.0) && (i >= a.len() ==> s.0 <= ls[i]) by {
            if i < a.len() {
                assert(ls[i] == a[i]);
            } else {
                assert(ls[i] == b[i - a.len()]);
            }
        }
        assert forall|i: int, j: int| 0 <= i < j < ls.len() implies #[trigger] ls[i]
            < #[trigger] ls[j] by {
            if j < a.len() {
                assert(ls[i] == a[i] && ls[j] == a[j]);
            } else if i >= a.len() {
                assert(ls[i] == b[i - a.len()] && ls[j] == b[j - a.len()]);
            }
        }
        assert forall|k: int, l: int|
            #![trigger spans[k], ls.contains(l)]
            0 <= k < spans.len() && spans[k].0 <= l <= spans[k].1 implies (ls.contains(l)
            <==> is_indented(t, l, spans[k].0 == spans[k].1)) by {
            if k < n {
                assert(less[k] == spans[k]);
                assert(spans[k].1 < spans[n].0);
            }
            if ls.contains(l) {
                let i = choose|i: int| 0 <= i < ls.len() && ls[i] == l;
                if i < a.len() {
                    assert(a[i] == l);
                    assert(a.contains(l));
                } else {
                    assert(b[i - a.len()] == l);
                    assert(b.contains(l));
                }
            }
            if a.contains(l) {
                let i = choose|i: int| 0 <= i < a.len() && a[i] == l;
                assert(ls[i] == l);
            }
            if b.contains(l) {
                let i = choose|i: int| 0 <= i < b.len() && b[i] == l;
                assert(ls[a.len() + i] == l);
            }
        }
    }
}

/// Whether outdenting does to each line what indenting did: takes as much off
/// those that were indented, and nothing off those that were empty.
spec fn comes_off(t: Seq<char>, u: Seq<char>, ls: Seq<int>, width: int, w: int) -> bool {
    forall|l: int|
        #![trigger start_of_line(u, l as nat)]
        0 <= l < line_count(t) ==> {
            let start = start_of_line(u, l as nat);
            let stop = outdent_stop(u, start, end_of_line(u, l as nat), width);
            if ls.contains(l) {
                stop == start + w
            } else {
                start_of_line(t, l as nat) == end_of_line(t, l as nat) ==> stop == start
            }
        }
}

spec fn offs(u: Seq<char>, ls: Seq<int>, w: int) -> Seq<Patch> {
    ls.map_values(
        |l: int|
            Patch {
                from: start_of_line(u, l as nat),
                to: start_of_line(u, l as nat) + w,
                text: Seq::empty(),
            },
    )
}

proof fn lemma_outdent_lines(
    t: Seq<char>,
    u: Seq<char>,
    ls: Seq<int>,
    from: int,
    to: int,
    alone: bool,
    unit: Seq<char>,
    width: int,
)
    requires
        0 <= from,
        to <= line_count(t),
        unit.len() > 0,
        comes_off(t, u, ls, width, unit.len() as int),
        forall|l: int|
            from <= l < to ==> (#[trigger] ls.contains(l) <==> is_indented(t, l, alone)),
    ensures
        indent_lines(u, from, to, alone, true, unit, width) == offs(
            u,
            indented_between(t, from, to, alone),
            unit.len() as int,
        ),
    decreases to - from,
{
    if to > from {
        lemma_outdent_lines(t, u, ls, from, to - 1, alone, unit, width);
        lemma_line_bounds(t, (to - 1) as nat);
        let l = to - 1;
        assert(ls.contains(l) <==> is_indented(t, l, alone));
        assert(start_of_line(u, l as nat) == start_of_line(u, l as nat));
    }
    assert(indent_lines(u, from, to, alone, true, unit, width) =~= offs(
        u,
        indented_between(t, from, to, alone),
        unit.len() as int,
    ));
}

proof fn lemma_outdents(
    t: Seq<char>,
    u: Seq<char>,
    ls: Seq<int>,
    spans: Seq<(int, int)>,
    unit: Seq<char>,
    width: int,
)
    requires
        spans_ok(t, spans),
        unit.len() > 0,
        comes_off(t, u, ls, width, unit.len() as int),
        forall|k: int, l: int|
            #![trigger spans[k], ls.contains(l)]
            0 <= k < spans.len() && spans[k].0 <= l <= spans[k].1 ==> (ls.contains(l)
                <==> is_indented(t, l, spans[k].0 == spans[k].1)),
    ensures
        indents(u, spans, true, unit, width) == offs(u, indented_in(t, spans), unit.len() as int),
    decreases spans.len(),
{
    if spans.len() > 0 {
        let less = spans.drop_last();
        let s = spans.last();
        let n = spans.len() - 1;
        assert(spans[n] == s);
        assert forall|i: int| 0 <= i < less.len() implies 0 <= (#[trigger] less[i]).0 <= less[i].1
            < line_count(t) by {
            assert(less[i] == spans[i]);
        }
        assert forall|k: int, l: int|
            #![trigger less[k], ls.contains(l)]
            0 <= k < less.len() && less[k].0 <= l <= less[k].1 implies (ls.contains(l)
            <==> is_indented(t, l, less[k].0 == less[k].1)) by {
            assert(less[k] == spans[k]);
        }
        lemma_outdents(t, u, ls, less, unit, width);
        lemma_outdent_lines(t, u, ls, s.0, s.1 + 1, s.0 == s.1, unit, width);
    }
    assert(indents(u, spans, true, unit, width) =~= offs(
        u,
        indented_in(t, spans),
        unit.len() as int,
    ));
}

proof fn lemma_unit_comes_off(
    t: Seq<char>,
    u: Seq<char>,
    ls: Seq<int>,
    ps: Seq<int>,
    indent: Indent,
    tab_width: usize,
)
    requires
        indent != Indent::Spaces(0),
        ps == starts(t, ls),
        widened(t, u, ls, ps, indent.written()),
    ensures
        comes_off(
            t,
            u,
            ls,
            level(indent, tab_width) as int,
            indent.written().len() as int,
        ),
{
    reveal(widened);
    let unit = indent.written();
    let width = level(indent, tab_width) as int;
    let w = unit.len() as int;
    assert forall|l: int|
        #![trigger start_of_line(u, l as nat)]
        0 <= l < line_count(t) implies {
        let start = start_of_line(u, l as nat);
        let stop = outdent_stop(u, start, end_of_line(u, l as nat), width);
        if ls.contains(l) {
            stop == start + w
        } else {
            start_of_line(t, l as nat) == end_of_line(t, l as nat) ==> stop == start
        }
    } by {
        if ls.contains(l) {
            let i = choose|i: int| 0 <= i < ls.len() && ls[i] == l;
            lemma_unit_comes_off_one(t, u, ls, ps, indent, tab_width, i);
        }
    }
}

proof fn lemma_unit_comes_off_one(
    t: Seq<char>,
    u: Seq<char>,
    ls: Seq<int>,
    ps: Seq<int>,
    indent: Indent,
    tab_width: usize,
    i: int,
)
    requires
        indent != Indent::Spaces(0),
        ps == starts(t, ls),
        widened(t, u, ls, ps, indent.written()),
        0 <= i < ls.len(),
    ensures
        ({
            let start = start_of_line(u, ls[i] as nat);
            outdent_stop(
                u,
                start,
                end_of_line(u, ls[i] as nat),
                level(indent, tab_width) as int,
            ) == start + indent.written().len()
        }),
{
    reveal(widened);
    let unit = indent.written();
    let w = unit.len() as int;
    let l = ls[i];
    let (start, end) = (start_of_line(u, l as nat), end_of_line(u, l as nat));
    lemma_line_bounds(t, l as nat);
    lemma_line_bounds(u, l as nat);
    assert(ps[i] == start_of_line(t, l as nat));
    assert(i * w + w == (i + 1) * w) by (nonlinear_arith);
    let said = put_in(saying(t, l), 0, unit);
    assert(saying(u, l) == said);
    assert forall|k: int| start <= k < start + w implies #[trigger] u[k] == unit[k - start] by {
        assert(u[k] == saying(u, l)[k - start]);
        assert(said[k - start] == unit[k - start]);
    }
    match indent {
        Indent::Tabs => {
            assert(u[start] == '\t');
        },
        Indent::Spaces(n) => {
            lemma_outdent_spaces(u, start, end, level(indent, tab_width) as int);
        },
    }
}

/// Indenting spans of lines and taking a level off the same lines gives the
/// text back.
pub proof fn law_indenting_and_taking_a_level_off_changes_nothing(
    t: Seq<char>,
    spans: Seq<(int, int)>,
    indent: Indent,
    tab_width: usize,
)
    requires
        spans_ok(t, spans),
        apart(spans),
        indent != Indent::Spaces(0),
        t.len() + indented_in(t, spans).len() * indent.written().len() <= usize::MAX,
    ensures
        ({
            let unit = indent.written();
            let width = level(indent, tab_width) as int;
            let indented = changed(t, indents(t, spans, false, unit, width));
            changed(indented, indents(indented, spans, true, unit, width)) == t
        }),
{
    let unit = indent.written();
    let width = level(indent, tab_width) as int;
    let w = unit.len() as int;
    let ls = indented_in(t, spans);
    let ps = starts(t, ls);
    lemma_indents(t, spans, unit, width);
    lemma_indented_in(t, spans);
    assert forall|i: int|
        #![trigger ls[i]]
        #![trigger ps[i]]
        0 <= i < ls.len() implies start_of_line(t, ls[i] as nat) <= ps[i] <= end_of_line(
        t,
        ls[i] as nat,
    ) by {
        lemma_line_bounds(t, ls[i] as nat);
    }
    lemma_put_in_all(t, ls, ps, unit);
    lemma_put_at_fits(t, ls, ps, unit);
    let u = changed(t, put_at(ps, unit));
    lemma_unit_comes_off(t, u, ls, ps, indent, tab_width);
    lemma_outdents(t, u, ls, spans, unit, width);
    let back = offs(u, ls, w);
    assert forall|i: int| 0 <= i < ps.len() implies #[trigger] back[i] == (Patch {
        from: ps[i] + i * unit.len(),
        to: ps[i] + (i + 1) * unit.len(),
        text: Seq::empty(),
    }) by {
        assert(i * w + w == (i + 1) * w) by (nonlinear_arith);
        assert(start_of_line(u, ls[i] as nat) == ps[i] + i * w) by {
            reveal(widened);
            assert(ps[i] == start_of_line(t, ls[i] as nat));
        }
    }
    lemma_taken_out(t, ps, unit, back);
}

// ---------------------------------------------------------------------------
// What is left of the lines
// ---------------------------------------------------------------------------

/// A line with what it says, without what ends it.
pub open spec fn line_of_text(t: Seq<char>, line: int) -> Seq<char> {
    t.subrange(start_of_line(t, line as nat), end_of_line(t, line as nat))
}

/// Indenting what is selected puts one level before every line that is touched and
/// has something on it, or that is touched alone, and leaves every other line as it
/// is. There are as many lines as there were.
#[verifier::rlimit(40)]
pub proof fn law_indented_lines_have_a_level_more(
    was: Document,
    is: Document,
    before: Pane,
    after: Pane,
    tab_width: usize,
    now: u64,
    edits: Seq<AppliedEdit>,
    line: int,
)
    requires
        ready(was, before),
        some_selected(before.sel),
        lines_indented(was, is, before, after, tab_width, false, now, edits),
        0 <= line < line_count(was.content()),
    ensures
        ({
            let t = was.content();
            let spans = touched(t, before.sel.ranges@);
            let had = line_of_text(t, line);
            &&& line_count(is.content()) == line_count(t)
            &&& line_of_text(is.content(), line) == if is_among(spans, line) && (had.len() > 0
                || spans.contains((line, line))) {
                was.indent.written() + had
            } else {
                had
            }
        }),
{
    let t = was.content();
    let u = is.content();
    let rs = before.sel.ranges@;
    let spans = touched(t, rs);
    let unit = was.indent.written();
    let width = level(was.indent, tab_width) as int;
    let ls = indented_in(t, spans);
    let ps = starts(t, ls);
    law_touched_lines_are_in_order(t, rs);
    assert(apart(spans));
    lemma_indents(t, spans, unit, width);
    lemma_indented_in(t, spans);
    assert forall|i: int|
        #![trigger ls[i]]
        #![trigger ps[i]]
        0 <= i < ls.len() implies start_of_line(t, ls[i] as nat) <= ps[i] <= end_of_line(
        t,
        ls[i] as nat,
    ) by {
        lemma_line_bounds(t, ls[i] as nat);
    }
    assert(within_line(unit)) by {
        assert forall|k: int| 0 <= k < unit.len() implies !ends_line(unit, k) && #[trigger] unit[k]
            != '\r' by {
            assert(unit[k] == '\t' || unit[k] == ' ');
        }
    }
    lemma_put_in_all(t, ls, ps, unit);
    lemma_put_at_fits(t, ls, ps, unit);
    lemma_committed(was, is, before, after, put_at(ps, unit), false, now, edits);
    law_changes_leave_the_rest_alone(t, put_at(ps, unit));
    reveal(widened);
    lemma_line_bounds(t, line as nat);
    let had = line_of_text(t, line);
    assert(saying(t, line) == had);
    if is_among(spans, line) {
        let k = choose|k: int| 0 <= k < spans.len() && (#[trigger] spans[k]).0 <= line <= spans[k].1;
        assert(ls.contains(line) <==> is_indented(t, line, spans[k].0 == spans[k].1));
        if spans.contains((line, line)) {
            let j = choose|j: int| 0 <= j < spans.len() && spans[j] == (line, line);
            if j < k {
                assert(spans[j].1 < spans[k].0);
            } else if k < j {
                assert(spans[k].1 < spans[j].0);
            }
        } else {
            assert(spans[k] != (line, line));
        }
    } else if ls.contains(line) {
        lemma_indented_is_in(t, spans, line);
    }
    if ls.contains(line) {
        let i = choose|i: int| 0 <= i < ls.len() && ls[i] == line;
        assert(saying(u, ls[i]) == put_in(saying(t, ls[i]), ps[i] - start_of_line(t, line as nat), unit));
        assert(put_in(had, 0, unit) =~= unit + had);
    } else {
        assert(start_of_line(u, line as nat) == start_of_line(u, line as nat));
    }
}

proof fn lemma_indented_is_in(t: Seq<char>, spans: Seq<(int, int)>, line: int)
    requires
        indented_in(t, spans).contains(line),
    ensures
        is_among(spans, line),
    decreases spans.len(),
{
    if spans.len() > 0 {
        let less = spans.drop_last();
        let s = spans.last();
        let (a, b) = (indented_in(t, less), indented_between(t, s.0, s.1 + 1, s.0 == s.1));
        let all = indented_in(t, spans);
        let i = choose|i: int| 0 <= i < all.len() && all[i] == line;
        if i < a.len() {
            assert(a[i] == line);
            lemma_indented_is_in(t, less, line);
            let k = choose|k: int| 0 <= k < less.len() && (#[trigger] less[k]).0 <= line <= less[k].1;
            assert(spans[k].0 <= line <= spans[k].1);
        } else {
            assert(b[i - a.len()] == line);
            lemma_indented_between(t, s.0, s.1 + 1, s.0 == s.1);
            assert(b.contains(line));
            assert(spans[spans.len() - 1].0 <= line <= spans[spans.len() - 1].1);
        }
    }
}

/// Whether what lies from the start of a line up to `stop` is one level of
/// indentation, as much of it as there is: spaces, no more than the level is wide,
/// or fewer of them and a tab.
pub open spec fn is_level(t: Seq<char>, line: int, width: int, stop: int) -> bool {
    let (start, end) = (start_of_line(t, line as nat), end_of_line(t, line as nat));
    &&& start <= stop <= end
    &&& stop - start <= width
    &&& forall|i: int| start <= i < stop - 1 ==> #[trigger] t[i] == ' '
    &&& start < stop ==> t[stop - 1] == ' ' || t[stop - 1] == '\t'
    &&& stop - start < width && stop < end && (start == stop || t[stop - 1] == ' ')
        ==> !is_indent(t[stop])
}

proof fn lemma_outdent_stop(t: Seq<char>, at: int, end: int, left: int)
    requires
        at <= end,
        0 <= left,
    ensures
        ({
            let stop = outdent_stop(t, at, end, left);
            &&& at <= stop <= end
            &&& stop - at <= left
            &&& forall|i: int| at <= i < stop - 1 ==> #[trigger] t[i] == ' '
            &&& at < stop ==> t[stop - 1] == ' ' || t[stop - 1] == '\t'
            &&& stop - at < left && stop < end && (at == stop || t[stop - 1] == ' ')
                ==> !is_indent(t[stop])
        }),
    decreases end - at,
{
    if at < end && left > 0 && t[at] == ' ' {
        lemma_outdent_stop(t, at + 1, end, left - 1);
    }
}

/// Whether a change takes one level off a line, and does nothing else.
pub open spec fn takes_off(t: Seq<char>, line: int, width: int, c: Patch) -> bool {
    &&& c.text.len() == 0
    &&& c.from == start_of_line(t, line as nat)
    &&& c.from < c.to
    &&& is_level(t, line, width, c.to)
}

/// Whether a line begins with indentation.
pub open spec fn begins_indented(t: Seq<char>, line: int) -> bool {
    let start = start_of_line(t, line as nat);
    start < end_of_line(t, line as nat) && is_indent(t[start])
}

/// Whether changes take a level off each of some lines, one change for each.
pub open spec fn all_taken_off(t: Seq<char>, ls: Seq<int>, width: int, cs: Seq<Patch>) -> bool {
    &&& cs.len() == ls.len()
    &&& forall|i: int| 0 <= i < ls.len() ==> takes_off(t, #[trigger] ls[i], width, cs[i])
}

/// The lines from `from` up to `to` that begin with indentation.
pub open spec fn indented_lines(t: Seq<char>, from: int, to: int) -> Seq<int>
    decreases to - from,
{
    if to <= from {
        Seq::empty()
    } else if begins_indented(t, to - 1) {
        indented_lines(t, from, to - 1).push(to - 1)
    } else {
        indented_lines(t, from, to - 1)
    }
}

/// The lines of spans that begin with indentation.
pub open spec fn indented_lines_in(t: Seq<char>, spans: Seq<(int, int)>) -> Seq<int>
    decreases spans.len(),
{
    if spans.len() == 0 {
        Seq::empty()
    } else {
        indented_lines_in(t, spans.drop_last()) + indented_lines(
            t,
            spans.last().0,
            spans.last().1 + 1,
        )
    }
}

proof fn lemma_one_level(t: Seq<char>, line: int, alone: bool, unit: Seq<char>, width: int)
    requires
        width >= 1,
    ensures
        match indent_change(t, line, alone, true, unit, width) {
            Some(c) => begins_indented(t, line) && takes_off(t, line, width, c),
            None => !begins_indented(t, line),
        },
{
    let (start, end) = (start_of_line(t, line as nat), end_of_line(t, line as nat));
    lemma_line_bounds(t, line as nat);
    lemma_outdent_stop(t, start, end, width);
    let stop = outdent_stop(t, start, end, width);
    if begins_indented(t, line) {
        if t[start] == ' ' {
            lemma_outdent_stop(t, start + 1, end, width - 1);
        }
        assert(stop > start);
    } else {
        assert(stop == start);
    }
}

proof fn lemma_levels_between(t: Seq<char>, from: int, to: int, alone: bool, unit: Seq<char>, width: int)
    requires
        width >= 1,
    ensures
        all_taken_off(
            t,
            indented_lines(t, from, to),
            width,
            indent_lines(t, from, to, alone, true, unit, width),
        ),
    decreases to - from,
{
    if from < to {
        lemma_levels_between(t, from, to - 1, alone, unit, width);
        lemma_one_level(t, to - 1, alone, unit, width);
        let (less, more) = (indented_lines(t, from, to - 1), indented_lines(t, from, to));
        let had = indent_lines(t, from, to - 1, alone, true, unit, width);
        let cs = indent_lines(t, from, to, alone, true, unit, width);
        assert forall|i: int| 0 <= i < more.len() implies takes_off(
            t,
            #[trigger] more[i],
            width,
            cs[i],
        ) by {
            if i < less.len() {
                assert(takes_off(t, less[i], width, had[i]));
            }
        }
    }
}

proof fn lemma_levels(t: Seq<char>, spans: Seq<(int, int)>, unit: Seq<char>, width: int)
    requires
        width >= 1,
    ensures
        all_taken_off(
            t,
            indented_lines_in(t, spans),
            width,
            indents(t, spans, true, unit, width),
        ),
    decreases spans.len(),
{
    if spans.len() > 0 {
        let s = spans.last();
        lemma_levels(t, spans.drop_last(), unit, width);
        lemma_levels_between(t, s.0, s.1 + 1, s.0 == s.1, unit, width);
        let (la, lb) = (indented_lines_in(t, spans.drop_last()), indented_lines(t, s.0, s.1 + 1));
        let a = indents(t, spans.drop_last(), true, unit, width);
        let b = indent_lines(t, s.0, s.1 + 1, s.0 == s.1, true, unit, width);
        let (ls, cs) = (indented_lines_in(t, spans), indents(t, spans, true, unit, width));
        assert forall|i: int| 0 <= i < ls.len() implies takes_off(t, #[trigger] ls[i], width, cs[i]) by {
            if i < la.len() {
                assert(takes_off(t, la[i], width, a[i]));
            } else {
                assert(takes_off(t, lb[i - la.len()], width, b[i - la.len()]));
            }
        }
    }
}

proof fn lemma_indented_lines(t: Seq<char>, from: int, to: int)
    ensures
        ({
            let ls = indented_lines(t, from, to);
            &&& forall|i: int| 0 <= i < ls.len() ==> from <= #[trigger] ls[i] < to
            &&& forall|i: int, j: int| 0 <= i < j < ls.len() ==> #[trigger] ls[i] < #[trigger] ls[j]
        }),
    decreases to - from,
{
    if from < to {
        lemma_indented_lines(t, from, to - 1);
        let (less, ls) = (indented_lines(t, from, to - 1), indented_lines(t, from, to));
        assert forall|i: int| 0 <= i < ls.len() implies from <= #[trigger] ls[i] < to && (i
            < less.len() ==> ls[i] == less[i]) by {
            if i < less.len() {
                assert(ls[i] == less[i]);
            }
        }
        assert forall|i: int, j: int| 0 <= i < j < ls.len() implies #[trigger] ls[i]
            < #[trigger] ls[j] by {
            assert(ls[i] == less[i]);
            if j < less.len() {
                assert(ls[j] == less[j]);
            }
        }
    }
}

proof fn lemma_indented_lines_hold(t: Seq<char>, from: int, to: int, line: int)
    ensures
        indented_lines(t, from, to).contains(line) <==> from <= line < to && begins_indented(
            t,
            line,
        ),
    decreases to - from,
{
    if from < to {
        lemma_indented_lines_hold(t, from, to - 1, line);
        let (less, all) = (indented_lines(t, from, to - 1), indented_lines(t, from, to));
        if all.contains(line) {
            let i = choose|i: int| 0 <= i < all.len() && all[i] == line;
            if i < less.len() {
                assert(less[i] == line);
            }
        }
        if less.contains(line) {
            let i = choose|i: int| 0 <= i < less.len() && less[i] == line;
            assert(all[i] == line);
        }
        if line == to - 1 && begins_indented(t, line) {
            assert(all[less.len() as int] == line);
        }
    }
}

proof fn lemma_indented_lines_in(t: Seq<char>, spans: Seq<(int, int)>)
    requires
        spans_ok(t, spans),
        apart(spans),
    ensures
        in_turn(t, indented_lines_in(t, spans)),
        forall|i: int|
            0 <= i < indented_lines_in(t, spans).len() ==> spans.len() > 0
                && #[trigger] indented_lines_in(t, spans)[i] <= spans.last().1,
    decreases spans.len(),
{
    if spans.len() > 0 {
        let less = spans.drop_last();
        let s = spans.last();
        let n = spans.len() - 1;
        assert(spans[n] == s);
        assert(spans_ok(t, less)) by {
            assert forall|i: int| 0 <= i < less.len() implies 0 <= (#[trigger] less[i]).0
                <= less[i].1 < line_count(t) by {
                assert(less[i] == spans[i]);
            }
        }
        assert(apart(less)) by {
            assert forall|i: int, j: int| 0 <= i < j < less.len() implies (#[trigger] less[i]).1 < (
            #[trigger] less[j]).0 by {
                assert(spans[i].1 < spans[j].0);
            }
        }
        lemma_indented_lines_in(t, less);
        lemma_indented_lines(t, s.0, s.1 + 1);
        let (a, b) = (indented_lines_in(t, less), indented_lines(t, s.0, s.1 + 1));
        let ls = indented_lines_in(t, spans);
        if less.len() > 0 {
            assert(less.last() == spans[n - 1]);
            assert(spans[n - 1].1 < spans[n].0);
        }
        assert forall|i: int| 0 <= i < ls.len() implies 0 <= #[trigger] ls[i] < line_count(t)
            && ls[i] <= s.1 && (i < a.len() ==> ls[i] < s.0) && (i >= a.len() ==> s.0 <= ls[i]) by {
            if i < a.len() {
                assert(ls[i] == a[i]);
            } else {
                assert(ls[i] == b[i - a.len()]);
            }
        }
        assert forall|i: int, j: int| 0 <= i < j < ls.len() implies #[trigger] ls[i]
            < #[trigger] ls[j] by {
            if j < a.len() {
                assert(ls[i] == a[i] && ls[j] == a[j]);
            } else if i >= a.len() {
                assert(ls[i] == b[i - a.len()] && ls[j] == b[j - a.len()]);
            }
        }
    }
}

/// The lines that a level comes off are those that are touched and begin with
/// indentation.
pub proof fn law_the_lines_that_lose_a_level(t: Seq<char>, spans: Seq<(int, int)>, line: int)
    ensures
        indented_lines_in(t, spans).contains(line) <==> is_among(spans, line) && begins_indented(
            t,
            line,
        ),
    decreases spans.len(),
{
    if spans.len() > 0 {
        let less = spans.drop_last();
        let s = spans.last();
        let n = spans.len() - 1;
        assert(spans[n] == s);
        law_the_lines_that_lose_a_level(t, less, line);
        lemma_indented_lines_hold(t, s.0, s.1 + 1, line);
        let (a, b) = (indented_lines_in(t, less), indented_lines(t, s.0, s.1 + 1));
        let ls = indented_lines_in(t, spans);
        if ls.contains(line) {
            let i = choose|i: int| 0 <= i < ls.len() && ls[i] == line;
            if i < a.len() {
                assert(a[i] == line);
                let k = choose|k: int|
                    0 <= k < less.len() && (#[trigger] less[k]).0 <= line <= less[k].1;
                assert(spans[k].0 <= line <= spans[k].1);
            } else {
                assert(b[i - a.len()] == line);
                assert(spans[n].0 <= line <= spans[n].1);
            }
        }
        if is_among(spans, line) && begins_indented(t, line) {
            let k = choose|k: int|
                0 <= k < spans.len() && (#[trigger] spans[k]).0 <= line <= spans[k].1;
            if k < n {
                assert(less[k].0 <= line <= less[k].1);
                let i = choose|i: int| 0 <= i < a.len() && a[i] == line;
                assert(ls[i] == line);
            } else {
                let i = choose|i: int| 0 <= i < b.len() && b[i] == line;
                assert(ls[a.len() + i] == line);
            }
        }
    }
}

/// Taking a level off takes it off every line that is touched and begins with
/// indentation, as much of a level as is there, and changes nothing else.
#[verifier::rlimit(40)]
pub proof fn law_a_level_comes_off_every_line(
    was: Document,
    is: Document,
    before: Pane,
    after: Pane,
    tab_width: usize,
    now: u64,
    edits: Seq<AppliedEdit>,
)
    requires
        ready(was, before),
        lines_indented(was, is, before, after, tab_width, true, now, edits),
    ensures
        ({
            let t = was.content();
            let spans = touched(t, before.sel.ranges@);
            let width = most(1, was.indent.columns(tab_width) as int);
            exists|cs: Seq<Patch>|
                #[trigger] all_taken_off(t, indented_lines_in(t, spans), width, cs) && is.content()
                    == rewritten(t, cs)
        }),
{
    let t = was.content();
    let spans = touched(t, before.sel.ranges@);
    let width = level(was.indent, tab_width) as int;
    law_touched_lines_are_in_order(t, before.sel.ranges@);
    assert(apart(spans));
    lemma_levels(t, spans, was.indent.written(), width);
    lemma_indented_lines_in(t, spans);
    let ls = indented_lines_in(t, spans);
    let cs = indents(t, spans, true, was.indent.written(), width);
    assert forall|i: int| 0 <= i < cs.len() implies 0 <= (#[trigger] cs[i]).from <= cs[i].to
        <= t.len() && cs[i].to <= end_of_line(t, ls[i] as nat) by {
        assert(takes_off(t, ls[i], width, cs[i]));
        lemma_line_bounds(t, ls[i] as nat);
    }
    assert forall|i: int, j: int| 0 <= i < j < cs.len() implies (#[trigger] cs[i]).to <= (
    #[trigger] cs[j]).from by {
        assert(takes_off(t, ls[j], width, cs[j]));
        assert(ls[i] < ls[j]);
        lemma_further_on(t, ls[i], ls[j]);
    }
    lemma_committed(was, is, before, after, cs, false, now, edits);
    assert(all_taken_off(t, ls, width, cs));
}

/// Whether changes put the mark of a comment and a space into each of some lines,
/// no further on than where its text begins, and at one column in all of them: the
/// least that the text of any of them is drawn at, or as near before it as a line
/// comes.
pub open spec fn puts_marks(
    t: Seq<char>,
    ls: Seq<int>,
    marker: Seq<char>,
    tab: int,
    column: int,
    cs: Seq<Patch>,
) -> bool {
    &&& cs.len() == ls.len()
    &&& forall|i: int| 0 <= i < ls.len() ==> column <= text_column(t, #[trigger] ls[i], tab)
    &&& ls.len() > 0 ==> exists|i: int|
        0 <= i < ls.len() && column == text_column(t, #[trigger] ls[i], tab)
    &&& forall|i: int|
        0 <= i < ls.len() ==> {
            let start = start_of_line(t, (#[trigger] ls[i]) as nat);
            &&& cs[i].text == marker + seq![' ']
            &&& cs[i].from == cs[i].to
            &&& start <= cs[i].from <= text_of_line(t, ls[i] as nat)
            &&& column_of(t, start, cs[i].from, tab) <= column
            &&& cs[i].from < end_of_line(t, ls[i] as nat) ==> column_of(
                t,
                start,
                cs[i].from + 1,
                tab,
            ) > column
        }
}

/// Whether changes take the mark of a comment, and one space behind it, off each of
/// some lines.
pub open spec fn takes_marks(t: Seq<char>, ls: Seq<int>, marker: Seq<char>, cs: Seq<Patch>) -> bool {
    &&& cs.len() == ls.len()
    &&& forall|i: int|
        0 <= i < ls.len() ==> {
            let at = text_of_line(t, (#[trigger] ls[i]) as nat);
            let to = at + marker.len();
            &&& cs[i].text.len() == 0
            &&& cs[i].from == at
            &&& t.subrange(at, to) == marker
            &&& cs[i].to == if to < t.len() && t[to] == ' ' { to + 1 } else { to }
        }
}

proof fn lemma_least_is_one(t: Seq<char>, ls: Seq<int>, tab: int)
    requires
        ls.len() > 0,
    ensures
        exists|i: int|
            0 <= i < ls.len() && least_column(t, ls, tab) == text_column(t, #[trigger] ls[i], tab),
    decreases ls.len(),
{
    if ls.len() == 1 {
        assert(least_column(t, ls, tab) == text_column(t, ls[0], tab));
    } else {
        let less = ls.drop_last();
        lemma_least_is_one(t, less, tab);
        let i = choose|i: int|
            0 <= i < less.len() && least_column(t, less, tab) == text_column(
                t,
                #[trigger] less[i],
                tab,
            );
        assert(less[i] == ls[i]);
        assert(ls.last() == ls[ls.len() - 1]);
    }
}

/// The furthest position that is drawn no further along than a column is one that is,
/// and the next is not.
pub proof fn lemma_reaches(t: Seq<char>, start: int, i: int, end: int, goal: int, tab: int)
    requires
        start <= i <= end,
        column_of(t, start, i, tab) <= goal,
    ensures
        ({
            let at = reach(t, i, end, column_of(t, start, i, tab), goal, tab);
            &&& i <= at <= end
            &&& column_of(t, start, at, tab) <= goal
            &&& at < end ==> column_of(t, start, at + 1, tab) > goal
        }),
    decreases end - i,
{
    let col = column_of(t, start, i, tab);
    if i < end {
        assert(column_of(t, start, i + 1, tab) == next_column(col, t[i], tab));
        if next_column(col, t[i], tab) <= goal {
            lemma_reaches(t, start, i + 1, end, goal, tab);
        }
    }
}

/// Where every line that is touched and has something on it begins with the mark of
/// a comment, the mark comes off each of them. Otherwise it goes onto each of them,
/// with a space behind it, at one column. Nothing else changes.
#[verifier::rlimit(40)]
pub proof fn law_comments_go_onto_every_line_or_off_it(
    was: Document,
    is: Document,
    before: Pane,
    after: Pane,
    marker: Seq<char>,
    tab_width: usize,
    now: u64,
    edits: Seq<AppliedEdit>,
)
    requires
        ready(was, before),
        comments_toggled(was, is, before, after, marker, tab_width, now, edits),
        ({
            let t = was.content();
            least_column(t, seen(t, touched(t, before.sel.ranges@)), tab_stop(tab_width))
                < usize::MAX
        }),
    ensures
        ({
            let t = was.content();
            let ls = seen(t, touched(t, before.sel.ranges@));
            let tab = tab_stop(tab_width);
            if forall|i: int| 0 <= i < ls.len() ==> commented(t, #[trigger] ls[i], marker) {
                exists|cs: Seq<Patch>|
                    #[trigger] takes_marks(t, ls, marker, cs) && is.content() == rewritten(t, cs)
            } else {
                exists|column: int, cs: Seq<Patch>|
                    #[trigger] puts_marks(t, ls, marker, tab, column, cs) && is.content()
                        == rewritten(t, cs)
            }
        }),
{
    let t = was.content();
    let spans = touched(t, before.sel.ranges@);
    let ls = seen(t, spans);
    let tab = tab_stop(tab_width);
    law_touched_lines_are_in_order(t, before.sel.ranges@);
    assert(apart(spans));
    lemma_seen(t, spans);
    let cs = toggled(t, ls, marker, tab);
    let column = least_column(t, ls, tab);
    lemma_least_column_kept(t, ls, tab);
    let out = all_commented(t, ls, marker);
    assert forall|i: int| 0 <= i < ls.len() implies start_of_line(t, (#[trigger] ls[i]) as nat)
        <= cs[i].from <= cs[i].to && cs[i].from <= text_of_line(t, ls[i] as nat) && (out
        ==> cs[i].to <= after_line(t, ls[i] as nat)) && (!out ==> cs[i].to == cs[i].from) by {
        lemma_one_mark(t, ls, marker, tab, i);
    }
    assert(fits(cs, t.len() as int)) by {
        assert forall|i: int| 0 <= i < cs.len() implies 0 <= (#[trigger] cs[i]).from <= cs[i].to
            <= t.len() by {
            lemma_line_bounds(t, ls[i] as nat);
            lemma_text_of_line(t, ls[i] as nat);
        }
        assert forall|i: int, j: int| 0 <= i < j < cs.len() implies (#[trigger] cs[i]).to <= (
        #[trigger] cs[j]).from by {
            assert(ls[i] < ls[j]);
            lemma_line_bounds(t, ls[i] as nat);
            lemma_text_of_line(t, ls[i] as nat);
            crate::rope::lemma_after_lines_grows(t, (ls[i] + 1) as nat, ls[j] as nat, 0);
        }
    }
    lemma_committed(was, is, before, after, cs, false, now, edits);
    if out {
        assert(takes_marks(t, ls, marker, cs)) by {
            assert forall|i: int| 0 <= i < ls.len() implies {
                let at = text_of_line(t, (#[trigger] ls[i]) as nat);
                let to = at + marker.len();
                &&& cs[i].text.len() == 0
                &&& cs[i].from == at
                &&& t.subrange(at, to) == marker
                &&& cs[i].to == if to < t.len() && t[to] == ' ' { to + 1 } else { to }
            } by {
                assert(commented(t, ls[i], marker));
            }
        }
    } else {
        assert(puts_marks(t, ls, marker, tab, column, cs)) by {
            if ls.len() > 0 {
                lemma_least_is_one(t, ls, tab);
            }
            assert forall|i: int| 0 <= i < ls.len() implies column <= text_column(
                t,
                #[trigger] ls[i],
                tab,
            ) by {
                lemma_least_column(t, ls, tab, i);
            }
            assert forall|i: int| 0 <= i < ls.len() implies {
                let start = start_of_line(t, (#[trigger] ls[i]) as nat);
                &&& cs[i].text == marker + seq![' ']
                &&& cs[i].from == cs[i].to
                &&& start <= cs[i].from <= text_of_line(t, ls[i] as nat)
                &&& column_of(t, start, cs[i].from, tab) <= column
                &&& cs[i].from < end_of_line(t, ls[i] as nat) ==> column_of(
                    t,
                    start,
                    cs[i].from + 1,
                    tab,
                ) > column
            } by {
                let (start, end) = (start_of_line(t, ls[i] as nat), end_of_line(t, ls[i] as nat));
                lemma_line_bounds(t, ls[i] as nat);
                lemma_reaches(t, start, start, end, column, tab);
                assert(cs[i].text =~= marker + seq![' ']);
            }
        }
    }
}

proof fn lemma_one_mark(t: Seq<char>, ls: Seq<int>, marker: Seq<char>, tab: int, i: int)
    requires
        in_turn(t, ls),
        0 <= i < ls.len(),
        tab >= 1,
        least_column(t, ls, tab) < usize::MAX,
    ensures
        ({
            let c = toggled(t, ls, marker, tab)[i];
            &&& start_of_line(t, ls[i] as nat) <= c.from <= c.to
            &&& c.from <= text_of_line(t, ls[i] as nat)
            &&& all_commented(t, ls, marker) ==> c.to <= after_line(t, ls[i] as nat)
            &&& !all_commented(t, ls, marker) ==> c.to == c.from
        }),
{
    let line = ls[i];
    let (start, end) = (start_of_line(t, line as nat), end_of_line(t, line as nat));
    let text = text_of_line(t, line as nat);
    lemma_line_bounds(t, line as nat);
    lemma_text_of_line(t, line as nat);
    if all_commented(t, ls, marker) {
        assert(commented(t, line, marker));
        let to = text + marker.len();
        if to < t.len() && t[to] == ' ' && to == end {
            crate::text::lemma_inside_line(t, line as nat);
            lemma_past_the_end(t, line);
        }
    } else {
        let column = least_column(t, ls, tab);
        lemma_least_column_kept(t, ls, tab);
        lemma_on_line(t, line as nat, text);
        lemma_least_column(t, ls, tab, i);
        lemma_reach_before(t, start, start, end, column, tab, text);
    }
}

/// What stands where the text of a line ends is no space.
proof fn lemma_past_the_end(t: Seq<char>, line: int)
    requires
        0 <= line < line_count(t),
        end_of_line(t, line as nat) < t.len(),
    ensures
        t[end_of_line(t, line as nat)] != ' ',
{
    crate::text::lemma_inside_line(t, line as nat);
    lemma_line_bounds(t, line as nat);
    let (start, end, after) = (
        start_of_line(t, line as nat),
        end_of_line(t, line as nat),
        after_line(t, line as nat),
    );
    if line + 1 < line_count(t) {
        assert(ends_line(t, after - 1));
        assert(end == after - 1 || end == after - 2);
    }
}

/// The lines that comments go onto or come off are those that are touched and have
/// something on them.
pub proof fn law_the_lines_that_are_commented(t: Seq<char>, spans: Seq<(int, int)>, line: int)
    ensures
        seen(t, spans).contains(line) <==> is_among(spans, line) && !blank_line(t, line),
    decreases spans.len(),
{
    if spans.len() > 0 {
        let less = spans.drop_last();
        let s = spans.last();
        let n = spans.len() - 1;
        assert(spans[n] == s);
        law_the_lines_that_are_commented(t, less, line);
        lemma_seen_between(t, s.0, s.1 + 1);
        let (a, b) = (seen(t, less), seen_between(t, s.0, s.1 + 1));
        let ls = seen(t, spans);
        if ls.contains(line) {
            let i = choose|i: int| 0 <= i < ls.len() && ls[i] == line;
            if i < a.len() {
                assert(a[i] == line);
                let k = choose|k: int|
                    0 <= k < less.len() && (#[trigger] less[k]).0 <= line <= less[k].1;
                assert(spans[k].0 <= line <= spans[k].1);
            } else {
                assert(b[i - a.len()] == line);
                assert(b.contains(line));
                assert(spans[n].0 <= line <= spans[n].1);
            }
        }
        if is_among(spans, line) && !blank_line(t, line) {
            let k = choose|k: int|
                0 <= k < spans.len() && (#[trigger] spans[k]).0 <= line <= spans[k].1;
            if k < n {
                assert(less[k].0 <= line <= less[k].1);
                let i = choose|i: int| 0 <= i < a.len() && a[i] == line;
                assert(ls[i] == line);
            } else {
                assert(b.contains(line));
                let i = choose|i: int| 0 <= i < b.len() && b[i] == line;
                assert(ls[a.len() + i] == line);
            }
        }
    }
}

} // verus!
