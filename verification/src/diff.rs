//! Two panes, compared: each is marked against the other, and the one without
//! the keyboard is scrolled so that the lines they share are side by side.
use vstd::prelude::*;

use crate::align::lined_up;
use crate::chars::same;
use crate::doc::{DocId, Document};
use crate::git::{
    aligned, int_marks, last_block, law_no_marks_means_the_same_lines, mark_at, marked, marks,
    next_block, ready_marks, step_change, Mark,
};
use crate::lines::whole;
use crate::split::lines_of;

verus! {

/// Which of the two panes.
#[derive(Clone, Copy, PartialEq, Eq, Structural, Debug)]
pub enum Side {
    Left,
    Right,
}

/// One pane of a comparison: which pane it is on the screen, and what is in
/// it.
#[derive(Clone, Copy, PartialEq, Eq, Structural, Debug)]
pub struct Half {
    pub pane: usize,
    pub doc: DocId,
    /// The version of the document that the comparison was made from.
    pub version: i32,
}

/// Two panes being compared.
#[derive(Debug)]
pub struct Diff {
    pub left: Half,
    pub right: Half,
    /// The lines that differ, in each side's own numbering.
    pub left_marks: Vec<(usize, Mark)>,
    pub right_marks: Vec<(usize, Mark)>,
    /// The lines the two have in common, as pairs that go up in both.
    pub pairs: Vec<(usize, usize)>,
    /// Whether the two hold the same text, to the last line feed.
    pub equal: bool,
}

/// The numbers on one side of pairs of lines.
pub open spec fn side(p: (usize, usize), s: Side) -> usize {
    match s {
        Side::Left => p.0,
        Side::Right => p.1,
    }
}

/// How many of the pairs are at a line of one side or before it.
pub open spec fn pairs_by(pairs: Seq<(usize, usize)>, s: Side, line: usize) -> nat
    decreases pairs.len(),
{
    if pairs.len() == 0 {
        0
    } else if side(pairs.last(), s) <= line {
        pairs.len()
    } else {
        pairs_by(pairs.drop_last(), s, line)
    }
}

/// The line that belongs beside one: as far below the last line that the two
/// have in common as that one is.
pub open spec fn belongs_beside(pairs: Seq<(usize, usize)>, s: Side, line: usize) -> int {
    let n = pairs_by(pairs, s, line);
    if n == 0 {
        line as int
    } else {
        side(pairs[n - 1], other_side(s)) + (line - side(pairs[n - 1], s))
    }
}

/// The other side.
pub open spec fn other_side(s: Side) -> Side {
    match s {
        Side::Left => Side::Right,
        Side::Right => Side::Left,
    }
}

/// The side that a pane is.
pub open spec fn side_in(d: Diff, pane: usize) -> Option<Side> {
    if pane == d.left.pane {
        Some(Side::Left)
    } else if pane == d.right.pane {
        Some(Side::Right)
    } else {
        None
    }
}

/// The marks of a side.
pub open spec fn marks_of(d: Diff, s: Side) -> Seq<(usize, Mark)> {
    match s {
        Side::Left => d.left_marks@,
        Side::Right => d.right_marks@,
    }
}

/// Whether one of the panes shows what a half holds.
pub open spec fn shows(panes: Seq<(usize, DocId)>, h: Half) -> bool {
    exists|i: int| 0 <= i < panes.len() && (#[trigger] panes[i]) == (h.pane, h.doc)
}

impl Side {
    fn other(self) -> (s: Side)
        ensures
            s == other_side(self),
    {
        match self {
            Side::Left => Side::Right,
            Side::Right => Side::Left,
        }
    }
}

impl Diff {
    /// Whether the marks can be looked into and the pairs go up on both
    /// sides.
    pub open spec fn wf(self) -> bool {
        &&& ready_marks(self.left_marks@)
        &&& ready_marks(self.right_marks@)
        &&& forall|i: int, j: int|
            0 <= i < j < self.pairs@.len() ==> (#[trigger] self.pairs@[i]).0 < (
            #[trigger] self.pairs@[j]).0 && self.pairs@[i].1 < self.pairs@[j].1
    }

    /// Compare what is in two panes.
    pub fn new(left: (usize, &Document), right: (usize, &Document)) -> (d: Diff)
        ensures
            d.wf(),
            d.left == (Half { pane: left.0, doc: left.1.id, version: left.1.version }),
            d.right == (Half { pane: right.0, doc: right.1.id, version: right.1.version }),
            int_marks(d.left_marks@) == marked(right.1.content(), left.1.content()),
            int_marks(d.right_marks@) == marked(left.1.content(), right.1.content()),
            whole(d.pairs@) == lined_up(
                lines_of(left.1.content()),
                lines_of(right.1.content()),
            ),
            d.left_marks@.len() == 0 && d.right_marks@.len() == 0 <==> lines_of(left.1.content())
                == lines_of(right.1.content()),
            d.equal == (left.1.content() == right.1.content()),
    {
        let a = left.1.text();
        let b = right.1.text();
        let right_marks = marks(a.as_str(), b.as_str());
        let left_marks = marks(b.as_str(), a.as_str());
        let pairs = aligned(a.as_str(), b.as_str());
        proof {
            law_no_marks_means_the_same_lines(a@, b@);
            law_no_marks_means_the_same_lines(b@, a@);
            let ps = whole(pairs@);
            assert forall|i: int, j: int| 0 <= i < j < pairs@.len() implies (#[trigger] pairs@[i]).0
                < (#[trigger] pairs@[j]).0 && pairs@[i].1 < pairs@[j].1 by {
                assert(ps[i].0 < ps[j].0 && ps[i].1 < ps[j].1);
            }
            assert(int_marks(left_marks@).len() == left_marks@.len());
            assert(int_marks(right_marks@).len() == right_marks@.len());
        }
        Diff {
            left: Half { pane: left.0, doc: left.1.id, version: left.1.version },
            right: Half { pane: right.0, doc: right.1.id, version: right.1.version },
            left_marks,
            right_marks,
            pairs,
            equal: same(a.as_str(), b.as_str()),
        }
    }

    /// The panes being compared, in screen order.
    pub fn panes(&self) -> (r: (usize, usize))
        ensures
            r == (self.left.pane, self.right.pane),
    {
        (self.left.pane, self.right.pane)
    }

    /// Which side a pane is, or none for one that is not in this comparison.
    pub fn side_of(&self, pane: usize) -> (r: Option<Side>)
        ensures
            r == side_in(*self, pane),
    {
        if pane == self.left.pane {
            Some(Side::Left)
        } else if pane == self.right.pane {
            Some(Side::Right)
        } else {
            None
        }
    }

    fn marks(&self, side: Side) -> (ms: &Vec<(usize, Mark)>)
        ensures
            ms@ == marks_of(*self, side),
    {
        match side {
            Side::Left => &self.left_marks,
            Side::Right => &self.right_marks,
        }
    }

    /// What to draw in the gutter beside a line of a pane.
    pub fn mark(&self, pane: usize, line: usize) -> (r: Option<Mark>)
        requires
            self.wf(),
        ensures
            match side_in(*self, pane) {
                Some(s) => match r {
                    Some(mark) => marks_of(*self, s).contains((line, mark)),
                    None => forall|i: int|
                        0 <= i < marks_of(*self, s).len() ==> (#[trigger] marks_of(*self, s)[i]).0
                            != line,
                },
                None => r is None,
            },
    {
        match self.side_of(pane) {
            Some(side) => mark_at(self.marks(side), line),
            None => None,
        }
    }

    /// How many lines differ.
    pub fn differing(&self) -> (n: usize)
        ensures
            n == if self.left_marks@.len() < self.right_marks@.len() {
                self.right_marks@.len()
            } else {
                self.left_marks@.len()
            },
    {
        let a = self.left_marks.len();
        let b = self.right_marks.len();
        if a < b {
            b
        } else {
            a
        }
    }

    /// Whether the two panes hold the same text. Texts with the same lines may
    /// still differ in how those end, and then nothing is marked.
    pub fn same(&self) -> (yes: bool)
        ensures
            yes == self.equal,
    {
        self.equal
    }

    /// Whether this comparison still describes what is on the screen: both
    /// panes are there, with the same documents in them.
    pub fn describes(&self, panes: &[(usize, DocId)]) -> (yes: bool)
        ensures
            yes == (shows(panes@, self.left) && shows(panes@, self.right)),
    {
        is_shown(panes, &self.left) && is_shown(panes, &self.right)
    }

    /// Whether it is still up to date with the text in those documents.
    pub fn current_for(&self, left: &Document, right: &Document) -> (yes: bool)
        ensures
            yes == (self.left.version == left.version && self.right.version == right.version),
    {
        self.left.version == left.version && self.right.version == right.version
    }

    /// The line in the other pane that belongs beside one. Inside a block
    /// that differs the two sides move together line for line.
    pub fn beside(&self, pane: usize, line: usize) -> (r: Option<usize>)
        requires
            self.wf(),
            side_in(*self, pane) is Some ==> belongs_beside(
                self.pairs@,
                side_in(*self, pane)->0,
                line,
            ) <= usize::MAX,
        ensures
            match side_in(*self, pane) {
                Some(s) => r is Some && r->0 == belongs_beside(self.pairs@, s, line),
                None => r is None,
            },
    {
        let s = match self.side_of(pane) {
            Some(s) => s,
            None => {
                return None;
            },
        };
        let mut lo: usize = 0;
        let mut hi: usize = self.pairs.len();
        while lo < hi
            invariant
                lo <= hi <= self.pairs@.len(),
                self.wf(),
                forall|i: int| 0 <= i < lo ==> side(#[trigger] self.pairs@[i], s) <= line,
                forall|i: int| hi <= i < self.pairs@.len() ==> side(#[trigger] self.pairs@[i], s) > line,
            decreases hi - lo,
        {
            let mid = lo + (hi - lo) / 2;
            let pair = self.pairs[mid];
            let here = match s {
                Side::Left => pair.0,
                Side::Right => pair.1,
            };
            if here <= line {
                assert forall|i: int| 0 <= i < mid + 1 implies side(#[trigger] self.pairs@[i], s)
                    <= line by {
                    if i < mid {
                        assert(self.pairs@[i].0 < self.pairs@[mid as int].0);
                    }
                }
                lo = mid + 1;
            } else {
                assert forall|i: int| mid <= i < self.pairs@.len() implies side(
                    #[trigger] self.pairs@[i],
                    s,
                ) > line by {
                    if mid < i {
                        assert(self.pairs@[mid as int].0 < self.pairs@[i].0);
                    }
                }
                hi = mid;
            }
        }
        proof {
            lemma_pairs_by(self.pairs@, s, line, lo as int);
        }
        if lo == 0 {
            return Some(line);
        }
        let pair = self.pairs[lo - 1];
        match s {
            Side::Left => Some(pair.1 + (line - pair.0)),
            Side::Right => Some(pair.0 + (line - pair.1)),
        }
    }

    /// The pane on the other side.
    pub fn other_pane(&self, pane: usize) -> (r: Option<usize>)
        ensures
            match side_in(*self, pane) {
                Some(Side::Left) => r == Some(self.right.pane),
                Some(Side::Right) => r == Some(self.left.pane),
                None => r is None,
            },
    {
        match self.side_of(pane) {
            Some(side) => match side.other() {
                Side::Left => Some(self.left.pane),
                Side::Right => Some(self.right.pane),
            },
            None => None,
        }
    }

    /// The line of a pane where the next block of lines begins that differ.
    pub fn next_change(&self, pane: usize, from: usize, forwards: bool) -> (r: Option<usize>)
        requires
            self.wf(),
        ensures
            match side_in(*self, pane) {
                Some(s) => match r {
                    Some(line) => if forwards {
                        next_block(marks_of(*self, s), from as int, line as int)
                    } else {
                        last_block(marks_of(*self, s), from as int, line as int)
                    },
                    None => marks_of(*self, s).len() == 0,
                },
                None => r is None,
            },
    {
        match self.side_of(pane) {
            Some(side) => step_change(self.marks(side), from, forwards),
            None => None,
        }
    }
}

fn is_shown(panes: &[(usize, DocId)], h: &Half) -> (yes: bool)
    ensures
        yes == shows(panes@, *h),
{
    let mut i: usize = 0;
    while i < panes.len()
        invariant
            i <= panes@.len(),
            forall|j: int| 0 <= j < i ==> (#[trigger] panes@[j]) != (h.pane, h.doc),
        decreases panes@.len() - i,
    {
        if panes[i].0 == h.pane && panes[i].1 == h.doc {
            assert(panes@[i as int] == (h.pane, h.doc));
            return true;
        }
        i = i + 1;
    }
    false
}

proof fn lemma_pairs_by(pairs: Seq<(usize, usize)>, s: Side, line: usize, n: int)
    requires
        0 <= n <= pairs.len(),
        n > 0 ==> side(pairs[n - 1], s) <= line,
        forall|i: int| n <= i < pairs.len() ==> side(#[trigger] pairs[i], s) > line,
    ensures
        pairs_by(pairs, s, line) == n,
    decreases pairs.len(),
{
    if n < pairs.len() {
        assert(side(pairs[pairs.len() - 1], s) > line);
        assert forall|i: int| n <= i < pairs.len() - 1 implies side(
            #[trigger] pairs.drop_last()[i],
            s,
        ) > line by {
            assert(pairs.drop_last()[i] == pairs[i]);
        }
        lemma_pairs_by(pairs.drop_last(), s, line, n);
    }
}

/// A line that both sides have in common is beside itself, from either side.
pub proof fn law_lines_in_common_are_beside_each_other(d: Diff, k: int)
    requires
        d.wf(),
        0 <= k < d.pairs@.len(),
    ensures
        belongs_beside(d.pairs@, Side::Left, d.pairs@[k].0) == d.pairs@[k].1,
        belongs_beside(d.pairs@, Side::Right, d.pairs@[k].1) == d.pairs@[k].0,
{
    let p = d.pairs@;
    assert forall|i: int| k + 1 <= i < p.len() implies side(#[trigger] p[i], Side::Left) > p[k].0 by {
        assert(p[k].0 < p[i].0);
    }
    assert forall|i: int| k + 1 <= i < p.len() implies side(#[trigger] p[i], Side::Right) > p[k].1 by {
        assert(p[k].1 < p[i].1);
    }
    lemma_pairs_by(p, Side::Left, p[k].0, k + 1);
    lemma_pairs_by(p, Side::Right, p[k].1, k + 1);
}

} // verus!
