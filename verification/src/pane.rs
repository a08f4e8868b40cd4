//! A pane showing a document: where its cursors are.
use vstd::prelude::*;

use crate::doc::{mapped, AppliedEdit};
use crate::text::{begun, least, settled, Range, Selections};

verus! {

/// What the editing commands know of a pane: its cursors, and the column that
/// moving up and down tries to keep to.
#[derive(Debug)]
pub struct Pane {
    pub sel: Selections,
    pub goal: Option<usize>,
}

/// Whether selections are those that ranges come to, the primary among them.
pub open spec fn selects(s: Selections, given: Seq<Range>, primary: int) -> bool {
    &&& s.ranges@ == settled(given)
    &&& s.primary + 1 == begun(settled(given), given[primary].lo())
    &&& s.wf()
}

/// A position carried through the first `k` edits, and no further than a
/// `usize` goes.
pub open spec fn carried(es: Seq<AppliedEdit>, at: int, k: nat) -> int
    decreases k,
{
    if k == 0 {
        at
    } else {
        let e = es[k - 1];
        least(
            usize::MAX as int,
            mapped(e.from as int, e.to as int, e.inserted as int, carried(es, at, (k - 1) as nat)),
        )
    }
}

/// Ranges carried through edits, and brought back to the end of the text.
pub open spec fn absorbed(rs: Seq<Range>, es: Seq<AppliedEdit>, len: usize) -> Seq<Range> {
    rs.map_values(
        |r: Range|
            Range {
                anchor: least(len as int, carried(es, r.anchor as int, es.len())) as usize,
                head: least(len as int, carried(es, r.head as int, es.len())) as usize,
            },
    )
}

fn carry(es: &Vec<AppliedEdit>, at: usize, len: usize) -> (r: usize)
    requires
        forall|i: int| 0 <= i < es@.len() ==> (#[trigger] es@[i]).from <= es@[i].to,
    ensures
        r == least(len as int, carried(es@, at as int, es@.len())),
{
    let mut r: usize = at;
    let mut k: usize = 0;
    while k < es.len()
        invariant
            k <= es@.len(),
            forall|i: int| 0 <= i < es@.len() ==> (#[trigger] es@[i]).from <= es@[i].to,
            r == carried(es@, at as int, k as nat),
        decreases es@.len() - k,
    {
        let e = &es[k];
        if r > e.from {
            if r >= e.to {
                r = (r - (e.to - e.from)).saturating_add(e.inserted);
            } else {
                r = e.from.saturating_add(e.inserted);
            }
        }
        k = k + 1;
    }
    if r <= len { r } else { len }
}

impl Pane {
    pub fn new(at: usize) -> (v: Self)
        ensures
            v.sel.ranges@ == seq![Range { anchor: at, head: at }],
            v.sel.wf(),
            v.goal is None,
    {
        Pane { sel: Selections::single(Range::point(at)), goal: None }
    }

    /// Where the primary cursor is.
    pub fn cursor(&self) -> (at: usize)
        requires
            self.sel.wf(),
        ensures
            at == self.sel.ranges@[self.sel.primary as int].head,
    {
        self.sel.primary().head
    }

    /// Carry the cursors through edits that left the text that long.
    pub fn absorb(&mut self, edits: &Vec<AppliedEdit>, len: usize)
        requires
            old(self).sel.primary < old(self).sel.ranges@.len(),
            forall|i: int| 0 <= i < edits@.len() ==> (#[trigger] edits@[i]).from <= edits@[i].to,
        ensures
            selects(
                final(self).sel,
                absorbed(old(self).sel.ranges@, edits@, len),
                old(self).sel.primary as int,
            ),
            final(self).goal == old(self).goal,
    {
        let mut given: Vec<Range> = Vec::new();
        let mut n: usize = 0;
        while n < self.sel.ranges.len()
            invariant
                n <= self.sel.ranges@.len(),
                forall|i: int| 0 <= i < edits@.len() ==> (#[trigger] edits@[i]).from <= edits@[i].to,
                given@ == absorbed(self.sel.ranges@, edits@, len).take(n as int),
            decreases self.sel.ranges@.len() - n,
        {
            let r = self.sel.ranges[n];
            given.push(Range { anchor: carry(edits, r.anchor, len), head: carry(edits, r.head, len) });
            n = n + 1;
            assert(given@ =~= absorbed(self.sel.ranges@, edits@, len).take(n as int));
        }
        assert(given@ =~= absorbed(self.sel.ranges@, edits@, len));
        self.sel = Selections::many(&given, self.sel.primary);
    }
}

} // verus!
