//! What editing comes to: the text that is left and where the cursors are, said
//! of the text and the cursors that there were.
use vstd::prelude::*;

use crate::change::{changed, edited, fits, made, Patch};
use crate::doc::{applied, recorded, AppliedEdit, Document};
use crate::chars::whitespace;
use crate::edit::{
    all_before, asked, closer, closes, closings, deed, did_each, done_at, done_at_each, inside_word,
    law_what_fits_is_planned_as_it_is, outdented, performed, plan_end, planned, pushed_along, quotes,
    ready, set_apart, some_selected, stepped, typed, welcome, wrappings, Act, Deed,
};
use crate::pane::{selects, Pane};
use crate::rope::{line_at, start_of_line};
use crate::text::{
    back_over, class, column_of, end_of_line, is_indent, least, lemma_line_bounds, lemma_line_of, most,
    on_over, past_indent, tab_stop, text_of_line, word_after, word_before, Class, Range,
};

verus! {

// ---------------------------------------------------------------------------
// Several changes at once
// ---------------------------------------------------------------------------

/// A text with what stands from `from` up to `to` replaced.
pub open spec fn replaced(t: Seq<char>, from: int, to: int, x: Seq<char>) -> Seq<char> {
    t.subrange(0, from) + x + t.subrange(to, t.len() as int)
}

/// Where the last of some changes ends.
pub open spec fn last_end(cs: Seq<Patch>) -> int {
    if cs.len() == 0 { 0 } else { cs.last().to }
}

/// What changes make of a text up to where the last of them ends.
pub open spec fn written_up_to(t: Seq<char>, cs: Seq<Patch>) -> Seq<char>
    decreases cs.len(),
{
    if cs.len() == 0 {
        Seq::empty()
    } else {
        let less = cs.drop_last();
        written_up_to(t, less) + t.subrange(last_end(less), cs.last().from) + cs.last().text
    }
}

/// A text with changes made to it, read from the front: what lies between two of
/// them as it was, and in place of what each of them takes what it gives.
pub open spec fn rewritten(t: Seq<char>, cs: Seq<Patch>) -> Seq<char> {
    written_up_to(t, cs) + t.subrange(last_end(cs), t.len() as int)
}

proof fn lemma_fits_less(cs: Seq<Patch>, len: int)
    requires
        cs.len() > 0,
        fits(cs, len),
    ensures
        fits(cs.drop_last(), len),
        0 <= last_end(cs.drop_last()) <= cs.last().from <= cs.last().to <= len,
{
    let less = cs.drop_last();
    let n = cs.len() - 1;
    assert(cs[n] == cs.last());
    assert forall|i: int| 0 <= i < less.len() implies 0 <= (#[trigger] less[i]).from <= less[i].to
        <= len by {
        assert(less[i] == cs[i]);
    }
    assert forall|i: int, j: int| 0 <= i < j < less.len() implies (#[trigger] less[i]).to <= (
    #[trigger] less[j]).from by {
        assert(less[i] == cs[i] && less[j] == cs[j]);
    }
    if n > 0 {
        assert(less.last() == cs[n - 1]);
        assert(cs[n - 1].to <= cs[n].from);
    }
}

proof fn lemma_made_after_last(t: Seq<char>, cs: Seq<Patch>, k: nat)
    requires
        k < cs.len(),
    ensures
        made(t, cs, k + 1) == made(edited(t, cs.last()), cs.drop_last(), k),
    decreases k,
{
    if k > 0 {
        lemma_made_after_last(t, cs, (k - 1) as nat);
        assert(cs[cs.len() - (k + 1)] == cs.drop_last()[cs.drop_last().len() - k]);
    } else {
        assert(made(t, cs, 1) == edited(made(t, cs, 0), cs[cs.len() - 1]));
    }
}

proof fn lemma_written_same(t: Seq<char>, u: Seq<char>, cs: Seq<Patch>, at: int)
    requires
        fits(cs, at),
        at <= t.len(),
        at <= u.len(),
        forall|i: int| 0 <= i < at ==> t[i] == u[i],
    ensures
        written_up_to(t, cs) == written_up_to(u, cs),
    decreases cs.len(),
{
    if cs.len() > 0 {
        lemma_fits_less(cs, at);
        lemma_written_same(t, u, cs.drop_last(), at);
        let (from, to) = (last_end(cs.drop_last()), cs.last().from);
        assert(t.subrange(from, to) =~= u.subrange(from, to));
    }
}

/// Changes that are in order and apart leave everything outside of them alone:
/// made back to front they give what they say when they are read from the front.
pub proof fn law_changes_leave_the_rest_alone(t: Seq<char>, cs: Seq<Patch>)
    requires
        fits(cs, t.len() as int),
    ensures
        changed(t, cs) == rewritten(t, cs),
    decreases cs.len(),
{
    if cs.len() == 0 {
        assert(rewritten(t, cs) =~= t);
    } else {
        let less = cs.drop_last();
        let c = cs.last();
        lemma_fits_less(cs, t.len() as int);
        let u = edited(t, c);
        lemma_made_after_last(t, cs, (cs.len() - 1) as nat);
        assert(fits(less, c.from)) by {
            assert forall|i: int| 0 <= i < less.len() implies 0 <= (#[trigger] less[i]).from
                <= less[i].to <= c.from by {
                assert(cs[i].to <= cs[cs.len() - 1].from);
            }
        }
        assert(fits(less, u.len() as int));
        law_changes_leave_the_rest_alone(u, less);
        lemma_written_same(t, u, less, c.from);
        let e = last_end(less);
        assert(u.subrange(e, u.len() as int) =~= t.subrange(e, c.from) + c.text + t.subrange(
            c.to,
            t.len() as int,
        ));
        assert(rewritten(t, cs) =~= rewritten(u, less));
    }
}

/// Planning changes that are in order and apart takes nothing away but changes
/// that do nothing.
proof fn lemma_planned_does_the_same(t: Seq<char>, cs: Seq<Patch>)
    requires
        fits(cs, t.len() as int),
    ensures
        fits(planned(cs), t.len() as int),
        last_end(planned(cs)) == plan_end(cs),
        0 <= plan_end(cs) <= last_end(cs),
        written_up_to(t, cs) == written_up_to(t, planned(cs)) + t.subrange(
            plan_end(cs),
            last_end(cs),
        ),
    decreases cs.len(),
{
    if cs.len() == 0 {
        assert(written_up_to(t, cs) =~= written_up_to(t, planned(cs)) + t.subrange(0, 0));
    } else {
        let less = cs.drop_last();
        let c = cs.last();
        let p = planned(less);
        lemma_fits_less(cs, t.len() as int);
        lemma_planned_does_the_same(t, less);
        let (e, f) = (plan_end(less), last_end(less));
        assert(t.subrange(e, f) + t.subrange(f, c.from) =~= t.subrange(e, c.from));
        if crate::edit::dropped(c, e) {
            assert(written_up_to(t, cs) =~= written_up_to(t, p) + t.subrange(e, c.to));
        } else {
            let q = p.push(Patch { from: most(c.from, e), ..c });
            assert(q.drop_last() =~= p);
            assert(q.last() == c);
            assert(written_up_to(t, q) =~= written_up_to(t, p) + t.subrange(e, c.from) + c.text);
            assert(written_up_to(t, cs) =~= written_up_to(t, q) + t.subrange(c.to, c.to));
            assert(fits(q, t.len() as int)) by {
                assert forall|i: int, j: int| 0 <= i < j < q.len() implies (#[trigger] q[i]).to <= (
                #[trigger] q[j]).from by {
                    if j < p.len() {
                        assert(q[i] == p[i] && q[j] == p[j]);
                    } else if i < p.len() - 1 {
                        assert(p[i].to <= p[p.len() - 1].from);
                        assert(p[p.len() - 1].from <= p[p.len() - 1].to);
                    }
                }
            }
        }
    }
}

/// Changes that are in order and apart, planned and then made, leave everything
/// outside of them alone.
pub proof fn law_planned_changes_leave_the_rest_alone(t: Seq<char>, cs: Seq<Patch>)
    requires
        fits(cs, t.len() as int),
    ensures
        changed(t, planned(cs)) == rewritten(t, cs),
{
    lemma_planned_does_the_same(t, cs);
    law_changes_leave_the_rest_alone(t, planned(cs));
    let (e, f) = (plan_end(cs), last_end(cs));
    if cs.len() > 0 {
        lemma_fits_less(cs, t.len() as int);
    }
    assert(rewritten(t, cs) =~= rewritten(t, planned(cs)));
}

// ---------------------------------------------------------------------------
// At every cursor
// ---------------------------------------------------------------------------

/// A text from `at` on with what each of the ranges from the `i`th on covers
/// replaced by the same.
pub open spec fn each_replaced(
    t: Seq<char>,
    rs: Seq<Range>,
    x: Seq<char>,
    i: int,
    at: int,
) -> Seq<char>
    decreases rs.len() - i,
{
    if i < 0 || i >= rs.len() {
        t.subrange(at, t.len() as int)
    } else {
        t.subrange(at, rs[i].lo()) + x + each_replaced(t, rs, x, i + 1, rs[i].hi())
    }
}

/// The changes that replace what each range covers.
spec fn replacements(rs: Seq<Range>, x: Seq<char>) -> Seq<Patch> {
    rs.map_values(|r: Range| Patch { from: r.lo(), to: r.hi(), text: x })
}

proof fn lemma_asked_all(rs: Seq<Range>, t: Seq<char>, x: Seq<char>)
    ensures
        asked(done_at_each(Act::Insert(x), t, rs)) == replacements(rs, x),
    decreases rs.len(),
{
    let ds = done_at_each(Act::Insert(x), t, rs);
    if rs.len() > 0 {
        lemma_asked_all(rs.drop_last(), t, x);
        assert(ds.drop_last() =~= done_at_each(Act::Insert(x), t, rs.drop_last()));
        assert(ds.last() == deed(rs.last().lo(), rs.last().hi(), x));
    }
    assert(asked(ds) =~= replacements(rs, x));
}

proof fn lemma_each_replaced(t: Seq<char>, rs: Seq<Range>, x: Seq<char>, i: int)
    requires
        0 <= i <= rs.len(),
        fits(replacements(rs, x), t.len() as int),
    ensures
        rewritten(t, replacements(rs, x)) == written_up_to(t, replacements(rs.take(i), x))
            + each_replaced(t, rs, x, i, last_end(replacements(rs.take(i), x))),
    decreases rs.len() - i,
{
    let cs = replacements(rs, x);
    if i == rs.len() {
        assert(rs.take(i) =~= rs);
    } else {
        lemma_each_replaced(t, rs, x, i + 1);
        let (a, b) = (replacements(rs.take(i), x), replacements(rs.take(i + 1), x));
        assert(b.drop_last() =~= a);
        assert(b.last() == (Patch { from: rs[i].lo(), to: rs[i].hi(), text: x }));
        assert(written_up_to(t, b) + each_replaced(t, rs, x, i + 1, rs[i].hi())
            =~= written_up_to(t, a) + each_replaced(t, rs, x, i, last_end(a)));
    }
}

/// The text that a change at every cursor leaves.
proof fn lemma_content_after(
    was: Document,
    is: Document,
    before: Pane,
    after: Pane,
    atomic: bool,
    ds: Seq<Option<Deed>>,
    now: u64,
    edits: Seq<AppliedEdit>,
)
    requires
        did_each(was, is, before, after, atomic, ds, now, edits),
        fits(asked(ds), was.content().len() as int),
    ensures
        is.content() == rewritten(was.content(), asked(ds)),
        planned(asked(ds)).len() > 0 ==> is.content().len() <= usize::MAX,
{
    let t = was.content();
    let cs = planned(asked(ds));
    law_planned_changes_leave_the_rest_alone(t, asked(ds));
    if cs.len() > 0 {
        let mid = choose|mid: Document|
            {
                &&& applied(was, mid, cs, before.sel, !atomic, now, edits)
                &&& #[trigger] recorded(mid, is, after.sel)
            };
        assert(is.content() == mid.content());
    } else {
        assert(changed(t, cs) == t);
    }
}

/// Putting a text in replaces what is selected at every cursor, and leaves
/// everything else as it was.
pub proof fn law_what_is_selected_is_replaced(
    was: Document,
    is: Document,
    before: Pane,
    after: Pane,
    atomic: bool,
    x: Seq<char>,
    now: u64,
    edits: Seq<AppliedEdit>,
)
    requires
        ready(was, before),
        performed(was, is, before, after, atomic, Act::Insert(x), now, edits),
    ensures
        is.content() == each_replaced(was.content(), before.sel.ranges@, x, 0, 0),
        before.sel.ranges@.len() == 1 ==> is.content() == replaced(
            was.content(),
            before.sel.ranges@[0].lo(),
            before.sel.ranges@[0].hi(),
            x,
        ),
{
    let t = was.content();
    let rs = before.sel.ranges@;
    lemma_asked_all(rs, t, x);
    let cs = replacements(rs, x);
    assert(fits(cs, t.len() as int)) by {
        assert forall|i: int| 0 <= i < cs.len() implies 0 <= (#[trigger] cs[i]).from <= cs[i].to
            <= t.len() by {
            assert(rs[i].anchor <= t.len() && rs[i].head <= t.len());
        }
        assert forall|i: int, j: int| 0 <= i < j < cs.len() implies (#[trigger] cs[i]).to <= (
        #[trigger] cs[j]).from by {
            assert(rs[i].hi() <= rs[j].lo());
        }
    }
    lemma_content_after(
        was,
        is,
        before,
        after,
        atomic,
        done_at_each(Act::Insert(x), t, rs),
        now,
        edits,
    );
    lemma_each_replaced(t, rs, x, 0);
    assert(replacements(rs.take(0), x) =~= Seq::<Patch>::empty());
    assert(is.content() =~= each_replaced(t, rs, x, 0, 0));
    if rs.len() == 1 {
        assert(each_replaced(t, rs, x, 1, rs[0].hi()) == t.subrange(rs[0].hi(), t.len() as int));
        assert(is.content() =~= replaced(t, rs[0].lo(), rs[0].hi(), x));
    }
}

// ---------------------------------------------------------------------------
// With one cursor
// ---------------------------------------------------------------------------

/// Two documents and two panes, before and after a command at one cursor.
pub ghost struct Step {
    pub was: Document,
    pub is: Document,
    pub before: Pane,
    pub after: Pane,
    pub now: u64,
    pub edits: Seq<AppliedEdit>,
}

impl Step {
    /// The text there was.
    pub open spec fn text(self) -> Seq<char> {
        self.was.content()
    }

    /// The one range there was.
    pub open spec fn range(self) -> Range {
        self.before.sel.ranges@[0]
    }

    /// Whether there was one cursor, in the text, and a command was carried out at
    /// it.
    pub open spec fn does(self, act: Act) -> bool {
        &&& ready(self.was, self.before)
        &&& self.before.sel.ranges@.len() == 1
        &&& performed(self.was, self.is, self.before, self.after, false, act, self.now, self.edits)
    }

    /// Whether what stood from `from` up to `to` has given way to a text, and the
    /// cursor is as far into that.
    pub open spec fn leaves(self, from: int, to: int, x: Seq<char>, cursor: int) -> bool {
        &&& 0 <= from <= to <= self.text().len()
        &&& self.is.content() == replaced(self.text(), from, to, x)
        &&& self.after.sel.ranges@.len() == 1
        &&& self.after.sel.ranges@[0].anchor == from + cursor
        &&& self.after.sel.ranges@[0].head == from + cursor
    }

    /// Whether nothing has happened.
    pub open spec fn leaves_alone(self) -> bool {
        self.is == self.was && self.after == self.before
    }
}

proof fn lemma_settled_one(r: Range)
    ensures
        crate::text::settled(seq![r]) == seq![r],
{
    let one = seq![r];
    assert(one.drop_last() =~= Seq::<Range>::empty());
    assert(crate::text::in_order(one.drop_last()) =~= Seq::<Range>::empty());
    assert(crate::text::in_order(one) =~= one);
    assert(crate::text::apart(one.drop_last()) =~= Seq::<Range>::empty());
    assert(crate::text::apart(one) =~= one);
}

proof fn lemma_one_deed(s: Step, act: Act, d: Deed)
    requires
        s.does(act),
        done_at(act, s.text(), s.range()) == Some(d),
        0 <= d.from <= d.to <= s.text().len(),
        0 <= d.cursor <= d.text.len(),
        d.from < d.to || d.text.len() > 0,
    ensures
        s.leaves(d.from, d.to, d.text, d.cursor),
{
    let t = s.text();
    let rs = s.before.sel.ranges@;
    let ds = done_at_each(act, t, rs);
    assert(ds.drop_last() =~= Seq::<Option<Deed>>::empty());
    assert(asked(ds.drop_last()) =~= Seq::<Patch>::empty());
    let c = Patch { from: d.from, to: d.to, text: d.text };
    assert(asked(ds) =~= seq![c]);
    assert(rs[0].anchor <= t.len());
    lemma_content_after(s.was, s.is, s.before, s.after, false, ds, s.now, s.edits);
    law_what_fits_is_planned_as_it_is(asked(ds), t.len() as int);
    let one = seq![c];
    assert(one.drop_last() =~= Seq::<Patch>::empty());
    assert(written_up_to(t, one.drop_last()) =~= Seq::<char>::empty());
    assert(s.is.content() =~= replaced(t, d.from, d.to, d.text));
    let given = crate::edit::landed(rs, ds, s.is.content().len() as int);
    let at = (d.from + d.cursor) as usize;
    assert(crate::edit::drift(ds, 0) == 0);
    assert(given =~= seq![Range { anchor: at, head: at }]);
    lemma_settled_one(given[0]);
}

proof fn lemma_no_deed(s: Step, act: Act)
    requires
        s.does(act),
        match done_at(act, s.text(), s.range()) {
            Some(d) => d.from == d.to && d.text.len() == 0 && 0 <= d.from,
            None => true,
        },
    ensures
        s.leaves_alone(),
{
    let t = s.text();
    let rs = s.before.sel.ranges@;
    let ds = done_at_each(act, t, rs);
    assert(ds.drop_last() =~= Seq::<Option<Deed>>::empty());
    let none = Seq::<Patch>::empty();
    assert(asked(ds.drop_last()) =~= none);
    assert(planned(none) =~= none);
    if done_at(act, t, rs[0]) is Some {
        assert(asked(ds).drop_last() =~= none);
        assert(planned(asked(ds)) =~= none);
    } else {
        assert(asked(ds) =~= none);
    }
}

/// A text put in leaves the cursor behind it.
pub proof fn law_the_cursor_is_behind_what_was_put_in(s: Step, x: Seq<char>)
    requires
        s.does(Act::Insert(x)),
    ensures
        if s.range().lo() < s.range().hi() || x.len() > 0 {
            s.leaves(s.range().lo(), s.range().hi(), x, x.len() as int)
        } else {
            s.leaves_alone()
        },
{
    let r = s.range();
    assert(r.anchor <= s.text().len() && r.head <= s.text().len());
    if r.lo() < r.hi() || x.len() > 0 {
        lemma_one_deed(s, Act::Insert(x), deed(r.lo(), r.hi(), x)->0);
    } else {
        lemma_no_deed(s, Act::Insert(x));
    }
}

/// Deleting forward takes out what is selected, or else the one character behind
/// the cursor, or nothing at the end of the text.
pub proof fn law_delete_takes_what_comes_next(s: Step)
    requires
        s.does(Act::Delete),
    ensures
        ({
            let r = s.range();
            let none = Seq::<char>::empty();
            if r.anchor != r.head {
                s.leaves(r.lo(), r.hi(), none, 0)
            } else if r.head < s.text().len() {
                s.leaves(r.head as int, r.head + 1, none, 0)
            } else {
                s.leaves_alone()
            }
        }),
{
    let r = s.range();
    let none = Seq::<char>::empty();
    assert(r.anchor <= s.text().len() && r.head <= s.text().len());
    if r.anchor != r.head {
        lemma_one_deed(s, Act::Delete, deed(r.lo(), r.hi(), none)->0);
    } else if r.head < s.text().len() {
        lemma_one_deed(s, Act::Delete, deed(r.head as int, r.head + 1, none)->0);
    } else {
        lemma_no_deed(s, Act::Delete);
    }
}

/// Deleting backward takes out what is selected. With nothing selected it takes
/// out nothing at the beginning of the text, and both halves of a pair that the
/// cursor is between. Where there are only spaces before the cursor on its line it
/// goes back to a multiple of the width of a level, by a level at the most, and
/// anywhere else over one character.
pub proof fn law_backspace_takes_what_comes_before(s: Step, width: int, ps: Seq<(char, char)>)
    requires
        s.does(Act::Backspace { width, pairs: ps }),
        width >= 1,
    ensures
        ({
            let (t, r) = (s.text(), s.range());
            let at = r.head as int;
            let start = start_of_line(t, line_at(t, at));
            let none = Seq::<char>::empty();
            if r.anchor != r.head {
                s.leaves(r.lo(), r.hi(), none, 0)
            } else if at == 0 {
                s.leaves_alone()
            } else if at < t.len() && ps.contains((t[at - 1], t[at])) {
                s.leaves(at - 1, at + 1, none, 0)
            } else if start < at && forall|i: int| start <= i < at ==> #[trigger] t[i] == ' ' {
                exists|from: int|
                    start <= from < at && at - from <= width && (from - start) % width == 0
                        && #[trigger] s.leaves(from, at, none, 0)
            } else {
                s.leaves(at - 1, at, none, 0)
            }
        }),
{
    let act = Act::Backspace { width, pairs: ps };
    let (t, r) = (s.text(), s.range());
    let at = r.head as int;
    let start = start_of_line(t, line_at(t, at));
    let none = Seq::<char>::empty();
    assert(r.anchor <= t.len() && r.head <= t.len());
    if r.anchor != r.head {
        lemma_one_deed(s, act, deed(r.lo(), r.hi(), none)->0);
    } else if at == 0 {
        lemma_no_deed(s, act);
    } else if at < t.len() && crate::edit::is_pair(ps, t[at - 1], t[at]) {
        let i = choose|i: int| 0 <= i < ps.len() && #[trigger] ps[i] == (t[at - 1], t[at]);
        assert(ps.contains((t[at - 1], t[at])));
        lemma_one_deed(s, act, deed(at - 1, at + 1, none)->0);
    } else {
        lemma_line_of(t, at);
        if at < t.len() && ps.contains((t[at - 1], t[at])) {
            let i = choose|i: int| 0 <= i < ps.len() && ps[i] == (t[at - 1], t[at]);
            assert(ps[i] == (t[at - 1], t[at]));
        }
        lemma_line_bounds(t, line_at(t, at));
        let from = crate::edit::back_to(t, at, width);
        let col = at - start - 1;
        if at > start {
            assert(0 <= col % width < width && (col - col % width) % width == 0 && col % width
                <= col) by (nonlinear_arith)
                requires
                    width >= 1,
                    col >= 0,
            ;
        }
        lemma_one_deed(s, act, deed(from, at, none)->0);
        assert(s.leaves(from, at, none, 0));
    }
}

/// Whether what lies from `from` up to `at` is what taking back a word takes: a
/// run of one kind, as long as it goes back, and the blanks behind it.
pub open spec fn is_word_back(t: Seq<char>, from: int, at: int) -> bool {
    exists|mid: int|
        #![trigger t.subrange(mid, at)]
        {
            &&& 0 <= from <= mid <= at
            &&& forall|i: int| mid <= i < at ==> class(#[trigger] t[i]) == Class::Blank
            &&& mid > 0 ==> from < mid && class(t[mid - 1]) != Class::Blank
            &&& forall|i: int| from <= i < mid ==> class(#[trigger] t[i]) == class(t[mid - 1])
            &&& 0 < from < mid ==> class(t[from - 1]) != class(t[mid - 1])
        }
}

/// Whether what lies from `at` up to `to` is what deleting a word takes: blanks,
/// and a run of one kind behind them, as long as it goes on.
pub open spec fn is_word_on(t: Seq<char>, at: int, to: int) -> bool {
    exists|mid: int|
        #![trigger t.subrange(at, mid)]
        {
            &&& at <= mid <= to <= t.len()
            &&& forall|i: int| at <= i < mid ==> class(#[trigger] t[i]) == Class::Blank
            &&& mid < t.len() ==> mid < to && class(t[mid]) != Class::Blank
            &&& forall|i: int| mid <= i < to ==> class(#[trigger] t[i]) == class(t[mid])
            &&& mid < to < t.len() ==> class(t[to]) != class(t[mid])
        }
}

proof fn lemma_back_over(t: Seq<char>, i: int, k: Class)
    requires
        0 <= i <= t.len(),
    ensures
        0 <= back_over(t, i, k) <= i,
        forall|j: int| back_over(t, i, k) <= j < i ==> class(#[trigger] t[j]) == k,
        back_over(t, i, k) > 0 ==> class(t[back_over(t, i, k) - 1]) != k,
    decreases i,
{
    if i > 0 && class(t[i - 1]) == k {
        lemma_back_over(t, i - 1, k);
    }
}

proof fn lemma_on_over(t: Seq<char>, i: int, k: Class)
    requires
        0 <= i <= t.len(),
    ensures
        i <= on_over(t, i, k) <= t.len(),
        forall|j: int| i <= j < on_over(t, i, k) ==> class(#[trigger] t[j]) == k,
        on_over(t, i, k) < t.len() ==> class(t[on_over(t, i, k)]) != k,
    decreases t.len() - i,
{
    if i < t.len() && class(t[i]) == k {
        lemma_on_over(t, i + 1, k);
    }
}

/// The word before a position is a run of one kind with the blanks behind it, and
/// the one after it is blanks with a run of one kind behind them.
pub proof fn law_a_word_is_a_run_of_one_kind(t: Seq<char>, at: int)
    requires
        0 <= at <= t.len(),
    ensures
        is_word_back(t, word_before(t, at), at),
        is_word_on(t, at, word_after(t, at)),
{
    let i = back_over(t, at, Class::Blank);
    lemma_back_over(t, at, Class::Blank);
    if i > 0 {
        lemma_back_over(t, i, class(t[i - 1]));
    }
    assert(t.subrange(i, at) == t.subrange(i, at));
    let j = on_over(t, at, Class::Blank);
    lemma_on_over(t, at, Class::Blank);
    if j < t.len() {
        lemma_on_over(t, j, class(t[j]));
    }
    assert(t.subrange(at, j) == t.subrange(at, j));
}

/// Taking back a word, or deleting one, takes out what is selected, or else the
/// word before the cursor or after it, and nothing where there is none.
pub proof fn law_a_word_goes_whole(s: Step, back: bool)
    requires
        s.does(if back { Act::BackspaceWord } else { Act::DeleteWord }),
    ensures
        ({
            let (t, r) = (s.text(), s.range());
            let at = r.head as int;
            let none = Seq::<char>::empty();
            if r.anchor != r.head {
                s.leaves(r.lo(), r.hi(), none, 0)
            } else if back && at == 0 || !back && at == t.len() {
                s.leaves_alone()
            } else if back {
                exists|from: int|
                    from < at && is_word_back(t, from, at) && #[trigger] s.leaves(from, at, none, 0)
            } else {
                exists|to: int|
                    at < to && is_word_on(t, at, to) && #[trigger] s.leaves(at, to, none, 0)
            }
        }),
{
    let act = if back { Act::BackspaceWord } else { Act::DeleteWord };
    let (t, r) = (s.text(), s.range());
    let at = r.head as int;
    let none = Seq::<char>::empty();
    assert(r.anchor <= t.len() && r.head <= t.len());
    if r.anchor != r.head {
        lemma_one_deed(s, act, deed(r.lo(), r.hi(), none)->0);
    } else {
        law_a_word_is_a_run_of_one_kind(t, at);
        lemma_back_over(t, at, Class::Blank);
        lemma_on_over(t, at, Class::Blank);
        let (i, j) = (back_over(t, at, Class::Blank), on_over(t, at, Class::Blank));
        if i > 0 {
            lemma_back_over(t, i, class(t[i - 1]));
            assert(back_over(t, i, class(t[i - 1])) < i);
        }
        if j < t.len() {
            lemma_on_over(t, j, class(t[j]));
            assert(on_over(t, j, class(t[j])) > j);
        }
        let (from, to) = if back { (word_before(t, at), at) } else { (at, word_after(t, at)) };
        if back && at == 0 || !back && at == t.len() {
            lemma_no_deed(s, act);
        } else {
            lemma_one_deed(s, act, deed(from, to, none)->0);
            assert(s.leaves(from, to, none, 0));
        }
    }
}

/// Deleting to the beginning of a line takes out what lies between the cursor and
/// the text of the line, or the margin where the cursor is not past that.
/// Deleting to its end takes out what lies up to there, or the character behind
/// the cursor where it is at the end already. Nothing else goes.
#[verifier::rlimit(40)]
pub proof fn law_the_rest_of_a_line_goes(s: Step, back: bool)
    requires
        s.does(if back { Act::ToLineStart } else { Act::ToLineEnd }),
    ensures
        ({
            let t = s.text();
            let at = s.range().head as int;
            let line = line_at(t, at);
            let (start, end) = (start_of_line(t, line), end_of_line(t, line));
            let none = Seq::<char>::empty();
            if back {
                if start == at {
                    s.leaves_alone()
                } else if exists|i: int| start <= i < at && i < end && !is_indent(#[trigger] t[i]) {
                    exists|from: int|
                        start <= from < at && from < end && !is_indent(t[from]) && (forall|i: int|
                            start <= i < from ==> is_indent(#[trigger] t[i]))
                            && #[trigger] s.leaves(from, at, none, 0)
                } else {
                    at <= end ==> s.leaves(start, at, none, 0)
                }
            } else if at < end {
                s.leaves(at, end, none, 0)
            } else if at == end < t.len() {
                s.leaves(at, at + 1, none, 0)
            } else {
                at == t.len() ==> s.leaves_alone()
            }
        }),
{
    let act = if back { Act::ToLineStart } else { Act::ToLineEnd };
    let t = s.text();
    let r = s.range();
    let at = r.head as int;
    let line = line_at(t, at);
    let (start, end) = (start_of_line(t, line), end_of_line(t, line));
    let first = text_of_line(t, line);
    let none = Seq::<char>::empty();
    assert(r.anchor <= t.len() && r.head <= t.len());
    lemma_line_of(t, at);
    lemma_line_bounds(t, line);
    lemma_past(t, start, end);
    if back {
        let from = if at > first { first } else { start };
        if from < at {
            lemma_one_deed(s, act, deed(from, at, none)->0);
            assert(s.leaves(from, at, none, 0));
        } else {
            lemma_no_deed(s, act);
        }
        if exists|i: int| start <= i < at && i < end && !is_indent(#[trigger] t[i]) {
            let i = choose|i: int| start <= i < at && i < end && !is_indent(#[trigger] t[i]);
            assert(first <= i);
            assert(first < end);
        } else if at <= end && at > first {
            assert(!is_indent(t[first]));
        }
    } else {
        let to = if at >= end { least(end + 1, t.len() as int) } else { end };
        if at < to {
            lemma_one_deed(s, act, deed(at, to, none)->0);
        } else {
            lemma_no_deed(s, act);
        }
    }
}

/// Past the indentation there is none, and before that nothing else.
pub proof fn lemma_past(t: Seq<char>, i: int, end: int)
    requires
        i <= end,
    ensures
        i <= past_indent(t, i, end) <= end,
        forall|k: int| i <= k < past_indent(t, i, end) ==> is_indent(#[trigger] t[k]),
        past_indent(t, i, end) < end ==> !is_indent(t[past_indent(t, i, end)]),
    decreases end - i,
{
    if i < end && is_indent(t[i]) {
        lemma_past(t, i + 1, end);
    }
}

/// Whether a text is the indentation of a line: what it begins with of spaces and
/// tabs, and all of that.
pub open spec fn is_indentation(t: Seq<char>, line: nat, x: Seq<char>) -> bool {
    let (start, end) = (start_of_line(t, line), end_of_line(t, line));
    &&& start + x.len() <= end
    &&& x == t.subrange(start, start + x.len())
    &&& forall|k: int| 0 <= k < x.len() ==> is_indent(#[trigger] x[k])
    &&& start + x.len() < end ==> !is_indent(t[start + x.len()])
}

/// A new line begins where the selection did, with the indentation that the line
/// has, and a level more where a bracket that opens comes just before. What was
/// selected is gone.
pub proof fn law_a_new_line_is_indented_like_this_one(
    s: Step,
    unit: Seq<char>,
    brackets: Seq<(char, char)>,
)
    requires
        s.does(Act::Newline { unit, brackets }),
    ensures
        ({
            let (t, r) = (s.text(), s.range());
            let deeper = r.lo() > 0 && exists|i: int|
                0 <= i < brackets.len() && (#[trigger] brackets[i]).0 == t[r.lo() - 1];
            exists|indent: Seq<char>|
                {
                    &&& #[trigger] is_indentation(t, line_at(t, r.lo()), indent)
                    &&& s.leaves(
                        r.lo(),
                        r.hi(),
                        seq!['\n'] + indent + if deeper { unit } else { Seq::empty() },
                        1 + indent.len() + if deeper { unit.len() as int } else { 0 },
                    )
                }
        }),
{
    let act = Act::Newline { unit, brackets };
    let (t, r) = (s.text(), s.range());
    assert(r.anchor <= t.len() && r.head <= t.len());
    let line = line_at(t, r.lo());
    let (start, end) = (start_of_line(t, line), end_of_line(t, line));
    let n = text_of_line(t, line);
    lemma_line_bounds(t, line);
    lemma_past(t, start, end);
    let deeper = r.lo() > 0 && exists|i: int|
        0 <= i < brackets.len() && (#[trigger] brackets[i]).0 == t[r.lo() - 1];
    let indent = t.subrange(start, n);
    let x = seq!['\n'] + indent + if deeper { unit } else { Seq::empty() };
    if !deeper {
        assert(x =~= seq!['\n'] + indent);
    }
    lemma_one_deed(s, act, deed(r.lo(), r.hi(), x)->0);
    assert(is_indentation(t, line, indent)) by {
        assert forall|k: int| 0 <= k < indent.len() implies is_indent(#[trigger] indent[k]) by {
            assert(indent[k] == t[start + k]);
        }
    }
}

/// Filling up to the next stop puts in a tab, or as many spaces as lead to a
/// column that is a multiple of the width of a level, one level at the most.
pub proof fn law_a_stop_is_a_multiple_of_a_level(s: Step, tabs: bool, width: int, tab_width: usize)
    requires
        s.does(Act::Tab { tabs, width, tab_width }),
        width >= 1,
    ensures
        ({
            let (t, r) = (s.text(), s.range());
            let col = column_of(
                t,
                start_of_line(t, line_at(t, r.head as int)),
                r.head as int,
                tab_stop(tab_width),
            );
            if tabs {
                s.leaves(r.lo(), r.hi(), seq!['\t'], 1)
            } else {
                exists|x: Seq<char>|
                    {
                        &&& 1 <= x.len() <= width
                        &&& (col + x.len()) % width == 0
                        &&& forall|i: int| 0 <= i < x.len() ==> #[trigger] x[i] == ' '
                        &&& #[trigger] s.leaves(r.lo(), r.hi(), x, x.len() as int)
                    }
            }
        }),
{
    let act = Act::Tab { tabs, width, tab_width };
    let (t, r) = (s.text(), s.range());
    assert(r.anchor <= t.len() && r.head <= t.len());
    let col = column_of(
        t,
        start_of_line(t, line_at(t, r.head as int)),
        r.head as int,
        tab_stop(tab_width),
    );
    let x = if tabs { seq!['\t'] } else { crate::edit::spaces((width - col % width) as nat) };
    let rest = col % width;
    assert(0 <= rest < width && (col + (width - rest)) % width == 0) by (nonlinear_arith)
        requires
            width >= 1,
            rest == col % width,
    ;
    lemma_one_deed(s, act, deed(r.lo(), r.hi(), x)->0);
    assert(s.leaves(r.lo(), r.hi(), x, x.len() as int));
}

// ---------------------------------------------------------------------------
// Typing
// ---------------------------------------------------------------------------

impl Step {
    /// Whether there was one cursor, in the text, and a character was typed at it.
    pub open spec fn types(self, c: char, ps: Seq<(char, char)>) -> bool {
        &&& ready(self.was, self.before)
        &&& self.before.sel.ranges@.len() == 1
        &&& typed(self.was, self.is, self.before, self.after, c, ps, self.now, self.edits)
    }
}

/// Whether a character is the first of a pair.
pub open spec fn is_first(ps: Seq<(char, char)>, c: char) -> bool {
    exists|close: char| #[trigger] ps.contains((c, close))
}

/// Whether a character is the second of a pair.
pub open spec fn is_second(ps: Seq<(char, char)>, c: char) -> bool {
    exists|open: char| #[trigger] ps.contains((open, c))
}

proof fn lemma_closer(ps: Seq<(char, char)>, c: char)
    ensures
        closer(ps, c) is Some <==> is_first(ps, c),
        closer(ps, c) is Some ==> ps.contains((c, closer(ps, c)->0)),
    decreases ps.len(),
{
    if ps.len() > 0 {
        if ps[0].0 == c {
            assert(ps[0] == (c, ps[0].1));
            assert(ps.contains((c, ps[0].1)));
        } else {
            let more = ps.skip(1);
            lemma_closer(more, c);
            if closer(more, c) is Some {
                let i = choose|i: int| 0 <= i < more.len() && more[i] == (c, closer(more, c)->0);
                assert(ps[i + 1] == more[i]);
                assert(ps.contains((c, closer(more, c)->0)));
            }
            if is_first(ps, c) {
                let close = choose|close: char| #[trigger] ps.contains((c, close));
                let i = choose|i: int| 0 <= i < ps.len() && ps[i] == (c, close);
                assert(more[i - 1] == ps[i]);
                assert(more.contains((c, close)));
            }
        }
    }
}

proof fn lemma_closes(ps: Seq<(char, char)>, c: char)
    ensures
        closes(ps, c) <==> is_second(ps, c),
{
    if closes(ps, c) {
        let i = choose|i: int| 0 <= i < ps.len() && (#[trigger] ps[i]).1 == c;
        assert(ps[i] == (ps[i].0, c));
        assert(ps.contains((ps[i].0, c)));
    }
    if is_second(ps, c) {
        let open = choose|open: char| #[trigger] ps.contains((open, c));
        let i = choose|i: int| 0 <= i < ps.len() && ps[i] == (open, c);
        assert(ps[i].1 == c);
    }
}

/// A character that is in no pair replaces what is selected, and the cursor is
/// behind it. So does any other that is the first of none, where something is
/// selected.
pub proof fn law_a_plain_character_is_typed_as_it_is(s: Step, c: char, ps: Seq<(char, char)>)
    requires
        s.types(c, ps),
        !is_first(ps, c),
        !is_second(ps, c) || s.range().anchor != s.range().head,
    ensures
        s.leaves(s.range().lo(), s.range().hi(), seq![c], 1),
{
    let r = s.range();
    lemma_closer(ps, c);
    lemma_closes(ps, c);
    assert(r.anchor <= s.text().len() && r.head <= s.text().len());
    assert(s.before.sel.ranges@[0] == r);
    let act = Act::Type { c, pairs: ps };
    lemma_one_deed(s, act, deed(r.lo(), r.hi(), seq![c])->0);
}

/// With nothing selected, the second of a pair steps over itself where it is
/// there already. The first of one brings the second along and leaves the cursor
/// between the two, where the text ends, or a blank, the second of a pair or a
/// comma comes next, unless it is a quote behind a word. Anything else is typed
/// as it is.
#[verifier::rlimit(40)]
pub proof fn law_pairs_close_themselves(s: Step, c: char, ps: Seq<(char, char)>)
    requires
        s.types(c, ps),
        s.range().anchor == s.range().head,
        s.text().len() <= usize::MAX,
    ensures
        ({
            let t = s.text();
            let at = s.range().head as int;
            let room = at == t.len() || whitespace(t[at]) || is_second(ps, t[at]) || t[at] == ',';
            let apostrophe = (c == '"' || c == '\'' || c == '`') && at > 0 && class(t[at - 1])
                == Class::Word;
            if is_second(ps, c) && at < t.len() && t[at] == c {
                &&& s.is.content() == t
                &&& s.after.sel.ranges@.len() == 1
                &&& s.after.sel.ranges@[0].anchor == at + 1
                &&& s.after.sel.ranges@[0].head == at + 1
            } else if is_first(ps, c) && room && !apostrophe {
                exists|close: char|
                    #[trigger] ps.contains((c, close)) && s.leaves(at, at, seq![c, close], 1)
            } else {
                s.leaves(at, at, seq![c], 1)
            }
        }),
{
    let t = s.text();
    let r = s.range();
    let at = r.head as int;
    lemma_closer(ps, c);
    lemma_closes(ps, c);
    assert(r.anchor <= t.len() && r.head <= t.len());
    assert(s.before.sel.ranges@[0] == r);
    assert(!some_selected(s.before.sel));
    if at < t.len() {
        lemma_closes(ps, t[at]);
    }
    assert(quotes()[0].0 == '"' && quotes()[1].0 == '\'' && quotes()[2].0 == '`');
    let act = Act::Type { c, pairs: ps };
    if is_second(ps, c) && at < t.len() && t[at] == c {
        assert(all_before(s.before.sel, t, c));
        let next = (r.head + 1) as usize;
        let given = stepped(s.before.sel.ranges@);
        assert(given =~= seq![Range { anchor: next, head: next }]);
        lemma_settled_one(given[0]);
        assert(at + 1 <= usize::MAX) by {
            assert(r.head < t.len());
        }
    } else if closer(ps, c) is Some && welcome(ps, t, at) && !inside_word(t, at, c) {
        lemma_one_deed(
            s,
            act,
            Deed { from: at, to: at, text: seq![c, closer(ps, c)->0], cursor: 1 },
        );
    } else {
        lemma_one_deed(s, act, deed(at, at, seq![c])->0);
    }
}

/// The first of a pair, typed with something selected, goes before it and the
/// second behind it, and the same stays selected.
#[verifier::rlimit(40)]
pub proof fn law_a_selection_is_wrapped(s: Step, c: char, ps: Seq<(char, char)>)
    requires
        s.types(c, ps),
        s.range().anchor != s.range().head,
        is_first(ps, c),
        s.text().len() < usize::MAX,
    ensures
        exists|close: char|
            {
                let (t, r) = (s.text(), s.range());
                &&& #[trigger] ps.contains((c, close))
                &&& s.is.content() == t.subrange(0, r.lo()) + seq![c] + t.subrange(r.lo(), r.hi())
                    + seq![close] + t.subrange(r.hi(), t.len() as int)
                &&& s.after.sel.ranges@.len() == 1
                &&& s.after.sel.ranges@[0].anchor == r.anchor + 1
                &&& s.after.sel.ranges@[0].head == r.head + 1
            },
{
    let (t, r) = (s.text(), s.range());
    let rs = s.before.sel.ranges@;
    lemma_closer(ps, c);
    let close = closer(ps, c)->0;
    assert(r.anchor <= t.len() && r.head <= t.len());
    assert(some_selected(s.before.sel));
    let a = Patch { from: r.lo(), to: r.lo(), text: seq![c] };
    let b = Patch { from: r.hi(), to: r.hi(), text: seq![close] };
    let none = Seq::<Patch>::empty();
    assert(rs.drop_last() =~= Seq::<Range>::empty());
    assert(wrappings(rs.drop_last(), c, close) =~= none);
    let cs = seq![a, b];
    assert(wrappings(rs, c, close) =~= cs);
    law_planned_changes_leave_the_rest_alone(t, cs);
    law_what_fits_is_planned_as_it_is(cs, t.len() as int);
    let mid = choose|mid: Document|
        {
            &&& applied(s.was, mid, planned(cs), s.before.sel, false, s.now, s.edits)
            &&& #[trigger] recorded(mid, s.is, s.after.sel)
        };
    assert(s.is.content() == mid.content());
    assert(cs.drop_last() =~= seq![a]);
    assert(seq![a].drop_last() =~= none);
    assert(written_up_to(t, none) =~= Seq::<char>::empty());
    assert(written_up_to(t, seq![a]) =~= t.subrange(0, r.lo()) + seq![c]);
    assert(s.is.content() =~= t.subrange(0, r.lo()) + seq![c] + t.subrange(r.lo(), r.hi())
        + seq![close] + t.subrange(r.hi(), t.len() as int));
    let given = pushed_along(rs);
    assert(given =~= seq![given[0]]);
    lemma_settled_one(given[0]);
    assert(ps.contains((c, close)));
}

/// A closing bracket that the one cursor stands before goes onto a line of its
/// own, with the indentation that the line has and without one level of it. Where
/// there is no such bracket nothing happens.
pub proof fn law_a_closing_bracket_goes_below(s: Step, brackets: Seq<(char, char)>)
    requires
        ready(s.was, s.before),
        s.before.sel.ranges@.len() == 1,
        set_apart(s.was, s.is, s.before, brackets, s.now, s.edits),
    ensures
        ({
            let t = s.text();
            let at = s.range().head as int;
            let unit = s.was.indent.written();
            if at < t.len() && is_second(brackets, t[at]) {
                exists|indent: Seq<char>, outer: Seq<char>|
                    {
                        &&& #[trigger] is_indentation(t, line_at(t, at), indent)
                        &&& indent == outer + unit || indent == outer
                        &&& indent == outer ==> !unit.is_suffix_of(indent) || unit.len() == 0
                        &&& s.is.content() == #[trigger] replaced(t, at, at, seq!['\n'] + outer)
                    }
            } else {
                s.is == s.was
            }
        }),
{
    let (t, r) = (s.text(), s.range());
    let rs = s.before.sel.ranges@;
    let at = r.head as int;
    let unit = s.was.indent.written();
    assert(r.anchor <= t.len() && r.head <= t.len());
    let none = Seq::<Patch>::empty();
    assert(rs.drop_last() =~= Seq::<Range>::empty());
    assert(closings(t, rs.drop_last(), unit, brackets) =~= none);
    if at < t.len() {
        lemma_closes(brackets, t[at]);
    }
    if at < t.len() && is_second(brackets, t[at]) {
        let line = line_at(t, at);
        let (start, end) = (start_of_line(t, line), end_of_line(t, line));
        let first = text_of_line(t, line);
        lemma_line_bounds(t, line);
        lemma_past(t, start, end);
        let indent = t.subrange(start, first);
        let outer = outdented(indent, unit);
        assert(is_indentation(t, line, indent)) by {
            assert forall|k: int| 0 <= k < indent.len() implies is_indent(#[trigger] indent[k]) by {
                assert(indent[k] == t[start + k]);
            }
        }
        let n = indent.len() - unit.len();
        if n >= 0 && indent.skip(n) == unit {
            assert(indent =~= outer + unit);
            if indent == outer {
                assert(unit.len() == 0);
            }
        } else if unit.is_suffix_of(indent) {
            assert(indent.skip(n) =~= unit);
        }
        let c = Patch { from: at, to: at, text: seq!['\n'] + outer };
        let cs = seq![c];
        assert(closings(t, rs, unit, brackets) =~= cs);
        law_planned_changes_leave_the_rest_alone(t, cs);
        law_what_fits_is_planned_as_it_is(cs, t.len() as int);
        let mid = choose|mid: Document|
            {
                &&& applied(s.was, mid, planned(cs), s.before.sel, true, s.now, s.edits)
                &&& #[trigger] recorded(mid, s.is, s.before.sel)
            };
        assert(s.is.content() == mid.content());
        assert(cs.drop_last() =~= none);
        assert(written_up_to(t, none) =~= Seq::<char>::empty());
        assert(s.is.content() =~= replaced(t, at, at, seq!['\n'] + outer));
    } else {
        assert(closings(t, rs, unit, brackets) =~= none);
    }
}

/// The characters of words are letters, digits and the underscore. In ASCII there are no
/// others, and what is blank there is the space and what comes from the tab to the
/// carriage return.
pub proof fn law_words_are_letters_digits_and_underscores(c: char)
    requires
        (c as u32) < 0x80,
    ensures
        ({
            let n = c as u32;
            let word = 0x41 <= n <= 0x5a || 0x61 <= n <= 0x7a || 0x30 <= n <= 0x39 || c == '_';
            &&& class(c) == Class::Word <==> word
            &&& class(c) == Class::Blank <==> c == ' ' || 0x09 <= n <= 0x0d
        }),
{
}

/// What closes itself is a language's brackets, and the three quotes.
pub proof fn law_brackets_and_quotes_close_themselves(
    brackets: Seq<(char, char)>,
    open: char,
    close: char,
)
    ensures
        crate::edit::pairs(brackets).contains((open, close)) <==> brackets.contains((open, close))
            || open == close && (open == '"' || open == '\'' || open == '`'),
{
    let ps = crate::edit::pairs(brackets);
    let n = brackets.len() as int;
    let p = (open, close);
    assert(ps[n] == ('"', '"') && ps[n + 1] == ('\'', '\'') && ps[n + 2] == ('`', '`'));
    if ps.contains(p) {
        let i = choose|i: int| 0 <= i < ps.len() && ps[i] == p;
        if i < n {
            assert(brackets[i] == p);
        }
    }
    if brackets.contains(p) {
        let i = choose|i: int| 0 <= i < n && brackets[i] == p;
        assert(ps[i] == p);
    }
}

// ---------------------------------------------------------------------------
// Where every cursor is
// ---------------------------------------------------------------------------

/// Every cursor has done at it what would be done if it were the only one.
pub proof fn law_every_cursor_does_the_same(act: Act, t: Seq<char>, rs: Seq<Range>, i: int)
    requires
        0 <= i < rs.len(),
    ensures
        done_at_each(act, t, rs).len() == rs.len(),
        done_at_each(act, t, rs)[i] == done_at_each(act, t, seq![rs[i]])[0],
{
}

proof fn lemma_drift(t: Seq<char>, rs: Seq<Range>, x: Seq<char>, i: int)
    requires
        0 <= i <= rs.len(),
        fits(replacements(rs, x), t.len() as int),
    ensures
        ({
            let cs = replacements(rs.take(i), x);
            let ds = done_at_each(Act::Insert(x), t, rs);
            &&& 0 <= last_end(cs) <= t.len()
            &&& i < rs.len() ==> last_end(cs) <= rs[i].lo()
            &&& written_up_to(t, cs).len() == last_end(cs) + crate::edit::drift(ds, i as nat)
        }),
    decreases i,
{
    let all = replacements(rs, x);
    let cs = replacements(rs.take(i), x);
    let ds = done_at_each(Act::Insert(x), t, rs);
    if i > 0 {
        lemma_drift(t, rs, x, i - 1);
        let less = replacements(rs.take(i - 1), x);
        assert(cs.drop_last() =~= less);
        let r = rs[i - 1];
        assert(all[i - 1] == (Patch { from: r.lo(), to: r.hi(), text: x }));
        assert(0 <= all[i - 1].from <= all[i - 1].to <= t.len());
        assert(cs.last() == all[i - 1]);
        assert(ds[i - 1] == deed(r.lo(), r.hi(), x));
        if i < rs.len() {
            assert(all[i - 1].to <= all[i].from);
        }
    } else if i < rs.len() {
        assert(0 <= all[0].from);
    }
}

/// Once a text has been put in at every cursor, each cursor is just behind the copy that
/// was put in at it.
pub proof fn law_every_cursor_is_behind_its_own_text(
    was: Document,
    is: Document,
    before: Pane,
    after: Pane,
    atomic: bool,
    x: Seq<char>,
    now: u64,
    edits: Seq<AppliedEdit>,
)
    requires
        ready(was, before),
        x.len() > 0,
        performed(was, is, before, after, atomic, Act::Insert(x), now, edits),
    ensures
        exists|given: Seq<Range>|
            {
                &&& #[trigger] selects(after.sel, given, before.sel.primary as int)
                &&& given.len() == before.sel.ranges@.len()
                &&& forall|i: int|
                    0 <= i < given.len() ==> is_behind(is.content(), x, #[trigger] given[i])
            },
{
    let t = was.content();
    let rs = before.sel.ranges@;
    let ds = done_at_each(Act::Insert(x), t, rs);
    let cs = replacements(rs, x);
    let u = is.content();
    law_what_is_selected_is_replaced(was, is, before, after, atomic, x, now, edits);
    lemma_asked_all(rs, t, x);
    assert(fits(cs, t.len() as int)) by {
        assert forall|i: int| 0 <= i < cs.len() implies 0 <= (#[trigger] cs[i]).from <= cs[i].to
            <= t.len() by {
            assert(rs[i].anchor <= t.len() && rs[i].head <= t.len());
        }
        assert forall|i: int, j: int| 0 <= i < j < cs.len() implies (#[trigger] cs[i]).to <= (
        #[trigger] cs[j]).from by {
            assert(rs[i].hi() <= rs[j].lo());
        }
    }
    lemma_content_after(was, is, before, after, atomic, ds, now, edits);
    law_what_fits_is_planned_as_it_is(cs, t.len() as int);
    assert(planned(cs).len() > 0) by {
        assert(before.sel.primary < rs.len());
    }
    let given = crate::edit::landed(rs, ds, u.len() as int);
    assert forall|i: int| 0 <= i < given.len() implies is_behind(u, x, #[trigger] given[i]) by {
        lemma_behind(t, rs, x, i);
    }
}

/// Whether a cursor is just behind a copy of a text.
pub open spec fn is_behind(u: Seq<char>, x: Seq<char>, r: Range) -> bool {
    &&& r.anchor == r.head
    &&& x.len() <= r.head <= u.len()
    &&& u.subrange(r.head - x.len(), r.head as int) == x
}

proof fn lemma_behind(t: Seq<char>, rs: Seq<Range>, x: Seq<char>, i: int)
    requires
        0 <= i < rs.len(),
        fits(replacements(rs, x), t.len() as int),
        rewritten(t, replacements(rs, x)).len() <= usize::MAX,
    ensures
        ({
            let u = rewritten(t, replacements(rs, x));
            let ds = done_at_each(Act::Insert(x), t, rs);
            is_behind(u, x, crate::edit::landed(rs, ds, u.len() as int)[i])
        }),
{
    let cs = replacements(rs, x);
    let u = rewritten(t, cs);
    let ds = done_at_each(Act::Insert(x), t, rs);
    let given = crate::edit::landed(rs, ds, u.len() as int);
    lemma_drift(t, rs, x, i);
    lemma_each_replaced(t, rs, x, i + 1);
    let (a, b) = (replacements(rs.take(i), x), replacements(rs.take(i + 1), x));
    assert(b.drop_last() =~= a);
    assert(b.last() == cs[i]);
    assert(ds[i] == deed(rs[i].lo(), rs[i].hi(), x));
    let w = written_up_to(t, b);
    assert(0 <= cs[i].from <= cs[i].to <= t.len());
    assert(w.len() == rs[i].lo() + crate::edit::drift(ds, i as nat) + x.len());
    assert(u.len() >= w.len());
    assert(given[i].head == w.len());
    assert(w.subrange(w.len() - x.len(), w.len() as int) =~= x);
    assert forall|k: int| 0 <= k < w.len() implies #[trigger] u[k] == w[k] by {}
    assert(u.subrange(w.len() - x.len(), w.len() as int) =~= w.subrange(
        w.len() - x.len(),
        w.len() as int,
    ));
}

} // verus!
