//! Changes to a text, and what takes them back.
use vstd::prelude::*;

use crate::text::{least, most};

verus! {

/// One replacement: the characters from `from` to `to` become `text`.
///
/// An insertion is a change with `from == to`, and a deletion is one with an
/// empty `text`.
#[derive(Clone, Debug, PartialEq, Eq)]
pub struct Change {
    pub from: usize,
    pub to: usize,
    pub text: String,
}

/// A change, as a contract speaks of one.
pub ghost struct Patch {
    pub from: int,
    pub to: int,
    pub text: Seq<char>,
}

impl View for Change {
    type V = Patch;

    open spec fn view(&self) -> Patch {
        Patch { from: self.from as int, to: self.to as int, text: self.text@ }
    }
}

/// What a list of changes says.
pub open spec fn patches(cs: Seq<Change>) -> Seq<Patch> {
    cs.map_values(|c: Change| c@)
}

impl Change {
    pub fn insert(at: usize, text: String) -> (c: Self)
        ensures
            c == (Change { from: at, to: at, text }),
    {
        Change { from: at, to: at, text }
    }

    pub fn delete(from: usize, to: usize) -> (c: Self)
        ensures
            c@ == (Patch { from: from as int, to: to as int, text: Seq::empty() }),
    {
        Change { from, to, text: String::new() }
    }

    pub fn replace(from: usize, to: usize, text: String) -> (c: Self)
        ensures
            c == (Change { from, to, text }),
    {
        Change { from, to, text }
    }
}

// ---------------------------------------------------------------------------
// What changes do to a text
// ---------------------------------------------------------------------------

/// Where a change begins in a text: no further on than its end.
pub open spec fn begins(t: Seq<char>, c: Patch) -> int {
    least(c.from, t.len() as int)
}

/// Where a change stops in a text: no further on than its end, and no
/// further back than where the change begins.
pub open spec fn stops(t: Seq<char>, c: Patch) -> int {
    most(begins(t, c), least(c.to, t.len() as int))
}

/// A text with one change made to it.
pub open spec fn edited(t: Seq<char>, c: Patch) -> Seq<char> {
    t.subrange(0, begins(t, c)) + c.text + t.subrange(stops(t, c), t.len() as int)
}

/// A text with the last `k` of some changes made to it, the last one first.
pub open spec fn made(t: Seq<char>, cs: Seq<Patch>, k: nat) -> Seq<char>
    decreases k,
{
    if k == 0 {
        t
    } else {
        edited(made(t, cs, (k - 1) as nat), cs[cs.len() - k])
    }
}

/// A text with all of some changes made to it, back to front.
pub open spec fn changed(t: Seq<char>, cs: Seq<Patch>) -> Seq<char> {
    made(t, cs, cs.len())
}

/// The changes that take others back: each puts back what was there, where
/// the changes before it in the text have left it.
pub open spec fn inverse(t: Seq<char>, cs: Seq<Patch>) -> Seq<Patch> {
    Seq::new(
        cs.len(),
        |i: int|
            {
                let k = (cs.len() - 1 - i) as nat;
                let was = made(t, cs, k);
                let shift = changed(t, cs).len() - made(t, cs, k + 1).len();
                Patch {
                    from: (begins(was, cs[i]) + shift) as usize as int,
                    to: (begins(was, cs[i]) + cs[i].text.len() + shift) as usize as int,
                    text: was.subrange(begins(was, cs[i]), stops(was, cs[i])),
                }
            },
    )
}

/// Whether changes are in order, do not overlap, and lie within a text of
/// that length.
pub open spec fn fits(cs: Seq<Patch>, len: int) -> bool {
    &&& forall|i: int| 0 <= i < cs.len() ==> 0 <= (#[trigger] cs[i]).from <= cs[i].to <= len
    &&& forall|i: int, j: int|
        0 <= i < j < cs.len() ==> (#[trigger] cs[i]).to <= (#[trigger] cs[j]).from
}

// ---------------------------------------------------------------------------
// Taking changes back
// ---------------------------------------------------------------------------

/// The first change made is the last of them.
proof fn lemma_made_first(t: Seq<char>, cs: Seq<Patch>, k: nat)
    requires
        k < cs.len(),
    ensures
        made(t, cs, k + 1) == made(edited(t, cs.last()), cs.drop_last(), k),
    decreases k,
{
    if k > 0 {
        lemma_made_first(t, cs, (k - 1) as nat);
        assert(cs[cs.len() - (k + 1)] == cs.drop_last()[cs.drop_last().len() - k]);
    } else {
        assert(made(t, cs, 1) == edited(made(t, cs, 0), cs[cs.len() - 1]));
    }
}

/// Changes leave what comes after them alone.
proof fn lemma_changed_prefix(t: Seq<char>, cs: Seq<Patch>, p: int)
    requires
        0 <= p <= t.len(),
        fits(cs, p),
    ensures
        changed(t, cs) == changed(t.take(p), cs) + t.skip(p),
    decreases cs.len(),
{
    if cs.len() == 0 {
        assert(t =~= t.take(p) + t.skip(p));
    } else {
        let c = cs.last();
        let less = cs.drop_last();
        let u = t.take(p);
        lemma_made_first(t, cs, less.len());
        lemma_made_first(u, cs, less.len());
        lemma_fits_less(cs, p);
        let t1 = edited(t, c);
        let u1 = edited(u, c);
        assert(t1.take(c.from) =~= t.take(c.from));
        assert(u1.take(c.from) =~= t.take(c.from));
        lemma_changed_prefix(t1, less, c.from);
        lemma_changed_prefix(u1, less, c.from);
        assert(t1.skip(c.from) =~= u1.skip(c.from) + t.skip(p));
        assert(changed(t.take(c.from), less) + t1.skip(c.from) =~= (changed(t.take(c.from), less)
            + u1.skip(c.from)) + t.skip(p));
    }
}

/// All but the last of some changes lie before it.
proof fn lemma_fits_less(cs: Seq<Patch>, p: int)
    requires
        cs.len() > 0,
        fits(cs, p),
    ensures
        fits(cs.drop_last(), cs.last().from),
        0 <= cs.last().from <= cs.last().to <= p,
{
    let less = cs.drop_last();
    let n = cs.len() - 1;
    assert(cs[n] == cs.last());
    assert forall|i: int| 0 <= i < less.len() implies 0 <= (#[trigger] less[i]).from <= less[i].to
        <= cs.last().from by {
        assert(less[i] == cs[i]);
        assert(cs[i].to <= cs[n].from);
    }
    assert forall|i: int, j: int| 0 <= i < j < less.len() implies (#[trigger] less[i]).to <= (
    #[trigger] less[j]).from by {
        assert(less[i] == cs[i] && less[j] == cs[j]);
    }
}

/// What takes changes back, worked out one change at a time.
spec fn undoing(t: Seq<char>, cs: Seq<Patch>) -> Seq<Patch>
    decreases cs.len(),
{
    if cs.len() == 0 {
        Seq::empty()
    } else {
        let c = cs.last();
        let from = changed(t.take(c.from), cs.drop_last()).len() as int;
        undoing(t, cs.drop_last()).push(
            Patch { from, to: from + c.text.len(), text: t.subrange(c.from, c.to) },
        )
    }
}

proof fn lemma_undoing_undoes(t: Seq<char>, cs: Seq<Patch>)
    requires
        fits(cs, t.len() as int),
    ensures
        changed(changed(t, cs), undoing(t, cs)) == t,
    decreases cs.len(),
{
    if cs.len() > 0 {
        let c = cs.last();
        let less = cs.drop_last();
        lemma_fits_less(cs, t.len() as int);
        let a = t.take(c.from);
        let t1 = edited(t, c);
        let last = changed(t, cs);
        lemma_made_first(t, cs, less.len());
        assert(t1.take(c.from) =~= a);
        lemma_changed_prefix(t1, less, c.from);
        lemma_changed_prefix(t, less, c.from);
        let u = undoing(t, cs);
        assert(u.drop_last() =~= undoing(t, less));
        lemma_made_first(last, u, u.drop_last().len());
        let back = edited(last, u.last());
        assert(t1.skip(c.from) =~= c.text + t.skip(c.to));
        assert(last =~= changed(a, less) + (c.text + t.skip(c.to)));
        assert(t.skip(c.from) =~= t.subrange(c.from, c.to) + t.skip(c.to));
        assert(back =~= changed(a, less) + t.skip(c.from));
        assert(fits(less, t.len() as int)) by {
            assert forall|i: int| 0 <= i < less.len() implies 0 <= (#[trigger] less[i]).from
                <= less[i].to <= t.len() by {}
        }
        lemma_undoing_undoes(t, less);
    } else {
        assert(undoing(t, cs).len() == 0);
    }
}

/// What takes changes back depends only on the text up to where they end.
proof fn lemma_undoing_prefix(t: Seq<char>, u: Seq<char>, cs: Seq<Patch>, p: int)
    requires
        0 <= p <= t.len(),
        p <= u.len(),
        t.take(p) == u.take(p),
        fits(cs, p),
    ensures
        undoing(t, cs) == undoing(u, cs),
    decreases cs.len(),
{
    if cs.len() > 0 {
        let c = cs.last();
        lemma_fits_less(cs, p);
        assert(t.take(c.from) =~= t.take(p).take(c.from));
        assert(u.take(c.from) =~= u.take(p).take(c.from));
        assert(t.subrange(c.from, c.to) =~= t.take(p).subrange(c.from, c.to));
        assert(u.subrange(c.from, c.to) =~= u.take(p).subrange(c.from, c.to));
        lemma_undoing_prefix(t, u, cs.drop_last(), c.from);
    }
}

/// What takes changes back is itself in order, and lies within the text that
/// the changes left.
proof fn lemma_undoing_fits(t: Seq<char>, cs: Seq<Patch>, p: int)
    requires
        0 <= p <= t.len(),
        fits(cs, p),
    ensures
        fits(undoing(t, cs), changed(t.take(p), cs).len() as int),
        undoing(t, cs).len() == cs.len(),
    decreases cs.len(),
{
    if cs.len() > 0 {
        let c = cs.last();
        let less = cs.drop_last();
        lemma_fits_less(cs, p);
        lemma_undoing_fits(t, less, c.from);
        let v = t.take(p);
        let v1 = edited(v, c);
        lemma_made_first(v, cs, less.len());
        assert(v1.take(c.from) =~= t.take(c.from));
        lemma_changed_prefix(v1, less, c.from);
        let u = undoing(t, cs);
        let w = undoing(t, less);
        assert forall|i: int| 0 <= i < u.len() implies 0 <= (#[trigger] u[i]).from <= u[i].to
            <= changed(v, cs).len() by {
            if i < w.len() {
                assert(u[i] == w[i]);
            }
        }
        assert forall|i: int, j: int| 0 <= i < j < u.len() implies (#[trigger] u[i]).to <= (
        #[trigger] u[j]).from by {
            assert(u[i] == w[i]);
            if j < w.len() {
                assert(u[j] == w[j]);
            }
        }
    }
}

/// What takes changes back, before a position is made a machine number.
spec fn shifted(t: Seq<char>, cs: Seq<Patch>) -> Seq<Patch> {
    Seq::new(
        cs.len(),
        |i: int|
            {
                let k = (cs.len() - 1 - i) as nat;
                let was = made(t, cs, k);
                let shift = changed(t, cs).len() - made(t, cs, k + 1).len();
                Patch {
                    from: begins(was, cs[i]) + shift,
                    to: begins(was, cs[i]) + cs[i].text.len() + shift,
                    text: was.subrange(begins(was, cs[i]), stops(was, cs[i])),
                }
            },
    )
}

proof fn lemma_shifted(t: Seq<char>, cs: Seq<Patch>)
    requires
        fits(cs, t.len() as int),
    ensures
        shifted(t, cs) == undoing(t, cs),
    decreases cs.len(),
{
    if cs.len() == 0 {
        assert(shifted(t, cs) =~= undoing(t, cs));
    } else {
        let n = cs.len();
        let c = cs.last();
        let less = cs.drop_last();
        lemma_fits_less(cs, t.len() as int);
        let t1 = edited(t, c);
        assert(t1.take(c.from) =~= t.take(c.from));
        assert(fits(less, t1.len() as int)) by {
            assert forall|i: int| 0 <= i < less.len() implies 0 <= (#[trigger] less[i]).from
                <= less[i].to <= t1.len() by {}
        }
        lemma_shifted(t1, less);
        lemma_undoing_prefix(t1, t, less, c.from);
        lemma_undoing_fits(t, less, c.from);
        lemma_made_first(t, cs, less.len());
        lemma_changed_prefix(t1, less, c.from);
        assert forall|i: int| 0 <= i < n implies shifted(t, cs)[i] == #[trigger] undoing(t, cs)[i] by {
            let k = (n - 1 - i) as nat;
            if i < n - 1 {
                lemma_made_first(t, cs, (k - 1) as nat);
                lemma_made_first(t, cs, k);
                assert(less[i] == cs[i]);
                assert(shifted(t, cs)[i] == shifted(t1, less)[i]);
                assert(undoing(t, cs)[i] == undoing(t, less)[i]);
            } else {
                lemma_made_first(t, cs, 0);
                assert(made(t, cs, 1) == t1);
                assert(t1.skip(c.from) =~= c.text + t.skip(c.to));
            }
        }
        assert(shifted(t, cs) =~= undoing(t, cs));
    }
}

/// What an edit did can be undone: changes in order and within the text are
/// taken back by their inverse, exactly.
pub proof fn law_undo_puts_the_text_back(t: Seq<char>, cs: Seq<Patch>)
    requires
        fits(cs, t.len() as int),
        changed(t, cs).len() <= usize::MAX,
    ensures
        changed(changed(t, cs), inverse(t, cs)) == t,
        fits(inverse(t, cs), changed(t, cs).len() as int),
{
    lemma_shifted(t, cs);
    lemma_undoing_fits(t, cs, t.len() as int);
    lemma_undoing_undoes(t, cs);
    assert(t.take(t.len() as int) =~= t);
    assert(inverse(t, cs) =~= undoing(t, cs)) by {
        assert forall|i: int| 0 <= i < cs.len() implies inverse(t, cs)[i] == #[trigger] undoing(t, cs)[i] by {
            assert(shifted(t, cs)[i] == undoing(t, cs)[i]);
        }
    }
}

} // verus!
