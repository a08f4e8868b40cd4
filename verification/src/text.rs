//! Places in a text: lines and their ends, words, columns, and the
//! selections that the editing commands work from.
use vstd::prelude::*;

use crate::chars::{alphanumeric, whitespace};
use crate::rope::{
    after_lines, ends_line, lemma_after_lines_bounds, lemma_after_lines_grows,
    lemma_line_at_grows, lemma_line_starts_before, line_at, line_count, rope_text, slice,
    start_of_line,
};

verus! {

/// A selection: where it was begun and where the cursor is. The two are the
/// same where nothing is selected.
#[derive(Clone, Copy, PartialEq, Eq, Debug, Structural)]
pub struct Range {
    pub anchor: usize,
    pub head: usize,
}

pub open spec fn least(a: int, b: int) -> int {
    if a <= b { a } else { b }
}

pub open spec fn most(a: int, b: int) -> int {
    if a <= b { b } else { a }
}

impl Range {
    /// The end of it nearer the start of the text.
    pub open spec fn lo(self) -> int {
        least(self.anchor as int, self.head as int)
    }

    /// The end of it nearer the end of the text.
    pub open spec fn hi(self) -> int {
        most(self.anchor as int, self.head as int)
    }

    pub fn new(anchor: usize, head: usize) -> (r: Self)
        ensures
            r == (Range { anchor, head }),
    {
        Range { anchor, head }
    }

    pub fn point(at: usize) -> (r: Self)
        ensures
            r == (Range { anchor: at, head: at }),
    {
        Range { anchor: at, head: at }
    }

    pub fn start(&self) -> (at: usize)
        ensures
            at == self.lo(),
    {
        if self.anchor <= self.head { self.anchor } else { self.head }
    }

    pub fn end(&self) -> (at: usize)
        ensures
            at == self.hi(),
    {
        if self.anchor <= self.head { self.head } else { self.anchor }
    }

    pub fn is_empty(&self) -> (yes: bool)
        ensures
            yes == (self.anchor == self.head),
    {
        self.anchor == self.head
    }

    /// Whether the two share a character or touch.
    pub fn overlaps(&self, other: &Range) -> (yes: bool)
        ensures
            yes == (self.lo() <= other.hi() && other.lo() <= self.hi()),
    {
        self.start() <= other.end() && other.start() <= self.end()
    }
}

/// Every cursor there is. One of them, the primary, is the one that the view
/// follows.
#[derive(Debug)]
pub struct Selections {
    pub ranges: Vec<Range>,
    pub primary: usize,
}

/// A range put among others that are in order, after those that begin where
/// it does.
pub open spec fn placed(rs: Seq<Range>, r: Range) -> Seq<Range>
    decreases rs.len(),
{
    if rs.len() == 0 || rs.last().lo() <= r.lo() {
        rs.push(r)
    } else {
        placed(rs.drop_last(), r).push(rs.last())
    }
}

/// Ranges in the order in which they begin. Those that begin together keep
/// the order they were given in.
pub open spec fn in_order(rs: Seq<Range>) -> Seq<Range>
    decreases rs.len(),
{
    if rs.len() == 0 {
        rs
    } else {
        placed(in_order(rs.drop_last()), rs.last())
    }
}

/// Whether a range that begins no earlier than `a` gets in its way.
pub open spec fn collides(a: Range, r: Range) -> bool {
    r.lo() < a.hi() || r.lo() == a.lo()
}

/// One range over both, facing the way the first one does.
pub open spec fn union(a: Range, r: Range) -> Range {
    let from = least(a.lo(), r.lo()) as usize;
    let to = most(a.hi(), r.hi()) as usize;
    if a.anchor <= a.head {
        Range { anchor: from, head: to }
    } else {
        Range { anchor: to, head: from }
    }
}

/// Ranges with those that collide made one.
pub open spec fn apart(rs: Seq<Range>) -> Seq<Range>
    decreases rs.len(),
{
    if rs.len() == 0 {
        rs
    } else {
        let m = apart(rs.drop_last());
        if m.len() > 0 && collides(m.last(), rs.last()) {
            m.drop_last().push(union(m.last(), rs.last()))
        } else {
            m.push(rs.last())
        }
    }
}

/// What a set of ranges comes to as selections: in order, and apart.
pub open spec fn settled(rs: Seq<Range>) -> Seq<Range> {
    apart(in_order(rs))
}

/// How many of the ranges begin at or before a position.
pub open spec fn begun(rs: Seq<Range>, at: int) -> nat
    decreases rs.len(),
{
    if rs.len() == 0 {
        0
    } else {
        begun(rs.drop_last(), at) + if rs.last().lo() <= at { 1nat } else { 0nat }
    }
}

/// Whether the ranges begin in order.
pub open spec fn sorted(rs: Seq<Range>) -> bool {
    forall|i: int, j: int| 0 <= i < j < rs.len() ==> (#[trigger] rs[i]).lo() <= (#[trigger] rs[j]).lo()
}

/// Whether each range ends before the next begins.
pub open spec fn separate(rs: Seq<Range>) -> bool {
    forall|i: int, j: int| 0 <= i < j < rs.len() ==> (#[trigger] rs[i]).hi() <= (#[trigger] rs[j]).lo()
}

proof fn lemma_placed_sorted(rs: Seq<Range>, r: Range)
    requires
        sorted(rs),
    ensures
        sorted(placed(rs, r)),
        placed(rs, r).len() == rs.len() + 1,
        forall|i: int| 0 <= i < placed(rs, r).len() ==> (#[trigger] placed(rs, r)[i]) == r || rs.contains(placed(rs, r)[i]),
    decreases rs.len(),
{
    if rs.len() == 0 || rs.last().lo() <= r.lo() {
        assert forall|i: int| 0 <= i < placed(rs, r).len() implies (#[trigger] placed(rs, r)[i]) == r
            || rs.contains(placed(rs, r)[i]) by {
            if i < rs.len() {
                assert(rs[i] == placed(rs, r)[i]);
            }
        }
    } else {
        let less = rs.drop_last();
        lemma_placed_sorted(less, r);
        let p = placed(less, r);
        assert forall|i: int| 0 <= i < p.len() implies (#[trigger] p[i]).lo() <= rs.last().lo() by {
            if p[i] != r {
                let k = choose|k: int| 0 <= k < less.len() && less[k] == p[i];
                assert(rs[k] == less[k]);
                assert(rs[rs.len() - 1].lo() >= rs[k].lo());
            }
        }
        assert forall|i: int| 0 <= i < placed(rs, r).len() implies (#[trigger] placed(rs, r)[i]) == r
            || rs.contains(placed(rs, r)[i]) by {
            if i < p.len() {
                assert(placed(rs, r)[i] == p[i]);
                if p[i] != r {
                    let k = choose|k: int| 0 <= k < less.len() && less[k] == p[i];
                    assert(rs[k] == p[i]);
                }
            } else {
                assert(rs[rs.len() - 1] == placed(rs, r)[i]);
            }
        }
    }
}

proof fn lemma_in_order_sorted(rs: Seq<Range>)
    ensures
        sorted(in_order(rs)),
        in_order(rs).len() == rs.len(),
    decreases rs.len(),
{
    if rs.len() > 0 {
        lemma_in_order_sorted(rs.drop_last());
        lemma_placed_sorted(in_order(rs.drop_last()), rs.last());
    }
}

proof fn lemma_apart_separate(rs: Seq<Range>)
    requires
        sorted(rs),
    ensures
        separate(apart(rs)),
        rs.len() > 0 ==> apart(rs).len() > 0,
        rs.len() > 0 ==> apart(rs).last().lo() <= rs.last().lo(),
        rs.len() > 0 ==> apart(rs)[0].lo() == rs[0].lo(),
    decreases rs.len(),
{
    if rs.len() > 0 {
        let less = rs.drop_last();
        assert(sorted(less));
        lemma_apart_separate(less);
        let m = apart(less);
        let r = rs.last();
        if m.len() > 0 {
            assert(less.last().lo() <= r.lo()) by {
                assert(less.last() == rs[rs.len() - 2]);
                assert(r == rs[rs.len() - 1]);
            }
            assert forall|i: int| 0 <= i < m.len() - 1 implies (#[trigger] m[i]).hi() <= m.last().lo() by {
                assert(m[m.len() - 1].lo() >= m[i].hi());
            }
        }
    }
}

impl Selections {
    /// There is a cursor, the primary is one of them, and they are in order
    /// and apart.
    pub open spec fn wf(&self) -> bool {
        &&& self.primary < self.ranges@.len()
        &&& separate(self.ranges@)
    }

    pub fn single(range: Range) -> (s: Self)
        ensures
            s.ranges@ == seq![range],
            s.primary == 0,
            s.wf(),
    {
        let mut ranges: Vec<Range> = Vec::new();
        ranges.push(range);
        Selections { ranges, primary: 0 }
    }

    /// Several cursors at once. They are put in order and those that collide
    /// become one; the primary is the one that the range of that number went
    /// into.
    pub fn many(given: &Vec<Range>, primary: usize) -> (s: Self)
        requires
            primary < given@.len(),
        ensures
            s.ranges@ == settled(given@),
            s.primary + 1 == begun(settled(given@), given@[primary as int].lo()),
            s.wf(),
    {
        let mut ordered: Vec<Range> = Vec::new();
        let mut n: usize = 0;
        while n < given.len()
            invariant
                n <= given@.len(),
                ordered@ == in_order(given@.take(n as int)),
            decreases given@.len() - n,
        {
            let r = given[n];
            let mut i: usize = ordered.len();
            let ghost full = ordered@;
            assert(full.take(i as int) =~= full);
            assert(placed(full, r) =~= placed(full, r) + full.skip(i as int));
            while i > 0 && ordered[i - 1].start() > r.start()
                invariant
                    i <= ordered@.len(),
                    ordered@ == full,
                    placed(full, r) == placed(full.take(i as int), r) + full.skip(i as int),
                decreases i,
            {
                proof {
                    let head = full.take(i as int);
                    assert(head.drop_last() =~= full.take(i - 1));
                    assert(placed(head, r) == placed(full.take(i - 1), r).push(full[i - 1]));
                    assert(placed(full.take(i - 1), r).push(full[i - 1]) + full.skip(i as int)
                        =~= placed(full.take(i - 1), r) + full.skip(i - 1));
                }
                i = i - 1;
            }
            ordered.insert(i, r);
            proof {
                assert(placed(full.take(i as int), r) =~= full.take(i as int).push(r));
                assert(ordered@ =~= full.take(i as int).push(r) + full.skip(i as int));
                assert(given@.take(n + 1).drop_last() =~= given@.take(n as int));
                assert(given@.take(n + 1).last() == r);
            }
            n = n + 1;
        }
        assert(given@.take(n as int) =~= given@);
        proof {
            lemma_in_order_sorted(given@);
            lemma_apart_separate(in_order(given@));
        }
        let mut ranges: Vec<Range> = Vec::new();
        let mut n: usize = 0;
        while n < ordered.len()
            invariant
                n <= ordered@.len(),
                ranges@ == apart(ordered@.take(n as int)),
            decreases ordered@.len() - n,
        {
            let r = ordered[n];
            proof {
                assert(ordered@.take(n + 1).drop_last() =~= ordered@.take(n as int));
            }
            let ghost was = ranges@;
            let joins = match ranges.last() {
                Some(last) => r.start() < last.end() || r.start() == last.start(),
                None => false,
            };
            if joins {
                let at = ranges.len() - 1;
                let a = ranges[at];
                let from: usize = if a.start() <= r.start() { a.start() } else { r.start() };
                let to: usize = if a.end() <= r.end() { r.end() } else { a.end() };
                let both = if a.anchor <= a.head {
                    Range { anchor: from, head: to }
                } else {
                    Range { anchor: to, head: from }
                };
                ranges.set(at, both);
                assert(ranges@ =~= was.drop_last().push(union(was.last(), r)));
            } else {
                ranges.push(r);
            }
            n = n + 1;
        }
        assert(ordered@.take(n as int) =~= ordered@);
        let p = given[primary];
        let mut count: usize = 0;
        let mut n: usize = 0;
        while n < ranges.len()
            invariant
                n <= ranges@.len(),
                count <= n,
                count == begun(ranges@.take(n as int), p.lo()),
                n > 0 && ranges@[0].lo() <= p.lo() ==> count > 0,
            decreases ranges@.len() - n,
        {
            assert(ranges@.take(n + 1).drop_last() =~= ranges@.take(n as int));
            if ranges[n].start() <= p.start() {
                count = count + 1;
            }
            n = n + 1;
        }
        assert(ranges@.take(n as int) =~= ranges@);
        proof {
            lemma_first_is_least(given@, primary as int);
        }
        Selections { ranges, primary: count - 1 }
    }

    pub fn ranges(&self) -> (r: &Vec<Range>)
        ensures
            r@ == self.ranges@,
    {
        &self.ranges
    }

    pub fn primary(&self) -> (r: Range)
        requires
            self.wf(),
        ensures
            r == self.ranges@[self.primary as int],
    {
        self.ranges[self.primary]
    }

    pub fn primary_index(&self) -> (n: usize)
        ensures
            n == self.primary,
    {
        self.primary
    }

    pub fn len(&self) -> (n: usize)
        ensures
            n == self.ranges@.len(),
    {
        self.ranges.len()
    }

    /// The same selections, held separately.
    pub fn copy(&self) -> (s: Self)
        ensures
            s.ranges@ == self.ranges@,
            s.primary == self.primary,
    {
        let mut ranges: Vec<Range> = Vec::new();
        let mut n: usize = 0;
        while n < self.ranges.len()
            invariant
                n <= self.ranges@.len(),
                ranges@ == self.ranges@.take(n as int),
            decreases self.ranges@.len() - n,
        {
            ranges.push(self.ranges[n]);
            n = n + 1;
        }
        assert(ranges@ =~= self.ranges@);
        Selections { ranges, primary: self.primary }
    }

    /// One more cursor, which becomes the primary.
    pub fn push(&mut self, range: Range)
        ensures
            final(self).ranges@ == settled(old(self).ranges@.push(range)),
            final(self).primary + 1 == begun(final(self).ranges@, range.lo()),
            final(self).wf(),
    {
        let mut given = self.copy();
        let at = given.ranges.len();
        given.ranges.push(range);
        *self = Selections::many(&given.ranges, at);
    }

    /// Bring every cursor back to the end of a text that long.
    pub fn clamp(&mut self, len: usize)
        requires
            old(self).primary < old(self).ranges@.len(),
        ensures
            final(self).ranges@ == settled(clamped(old(self).ranges@, len)),
            final(self).primary + 1 == begun(
                final(self).ranges@,
                clamped(old(self).ranges@, len)[old(self).primary as int].lo(),
            ),
            final(self).wf(),
    {
        let mut given: Vec<Range> = Vec::new();
        let mut n: usize = 0;
        while n < self.ranges.len()
            invariant
                n <= self.ranges@.len(),
                given@ == clamped(self.ranges@, len).take(n as int),
            decreases self.ranges@.len() - n,
        {
            let r = self.ranges[n];
            given.push(Range {
                anchor: if r.anchor <= len { r.anchor } else { len },
                head: if r.head <= len { r.head } else { len },
            });
            n = n + 1;
            assert(given@ =~= clamped(self.ranges@, len).take(n as int));
        }
        assert(given@ =~= clamped(self.ranges@, len));
        *self = Selections::many(&given, self.primary);
    }

    /// Let go of what is selected and keep the cursors.
    pub fn collapse_selections(&mut self)
        requires
            old(self).primary < old(self).ranges@.len(),
        ensures
            final(self).ranges@ == settled(collapsed(old(self).ranges@)),
            final(self).primary + 1 == begun(
                final(self).ranges@,
                old(self).ranges@[old(self).primary as int].head as int,
            ),
            final(self).wf(),
    {
        let mut given: Vec<Range> = Vec::new();
        let mut n: usize = 0;
        while n < self.ranges.len()
            invariant
                n <= self.ranges@.len(),
                given@ == collapsed(self.ranges@).take(n as int),
            decreases self.ranges@.len() - n,
        {
            given.push(Range::point(self.ranges[n].head));
            n = n + 1;
            assert(given@ =~= collapsed(self.ranges@).take(n as int));
        }
        assert(given@ =~= collapsed(self.ranges@));
        *self = Selections::many(&given, self.primary);
    }
}

/// Ranges brought back to the end of a text.
pub open spec fn clamped(rs: Seq<Range>, len: usize) -> Seq<Range> {
    rs.map_values(
        |r: Range|
            Range {
                anchor: least(r.anchor as int, len as int) as usize,
                head: least(r.head as int, len as int) as usize,
            },
    )
}

/// Ranges with nothing selected.
pub open spec fn collapsed(rs: Seq<Range>) -> Seq<Range> {
    rs.map_values(|r: Range| Range { anchor: r.head, head: r.head })
}

proof fn lemma_placed_first(rs: Seq<Range>, r: Range)
    requires
        sorted(rs),
    ensures
        placed(rs, r)[0].lo() == if rs.len() == 0 { r.lo() } else { least(rs[0].lo(), r.lo()) },
    decreases rs.len(),
{
    if rs.len() > 0 {
        if rs.last().lo() <= r.lo() {
            assert(rs[0].lo() <= rs[rs.len() - 1].lo());
        } else {
            lemma_placed_first(rs.drop_last(), r);
            lemma_placed_sorted(rs.drop_last(), r);
            if rs.len() > 1 {
                assert(rs[0].lo() <= rs[rs.len() - 1].lo());
            }
        }
    }
}

proof fn lemma_in_order_first(rs: Seq<Range>, at: int)
    requires
        0 <= at < rs.len(),
    ensures
        in_order(rs)[0].lo() <= rs[at].lo(),
    decreases rs.len(),
{
    let less = rs.drop_last();
    lemma_in_order_sorted(less);
    lemma_placed_first(in_order(less), rs.last());
    if at < rs.len() - 1 {
        lemma_in_order_first(less, at);
    }
}

proof fn lemma_first_is_least(rs: Seq<Range>, at: int)
    requires
        0 <= at < rs.len(),
    ensures
        settled(rs).len() > 0,
        settled(rs)[0].lo() <= rs[at].lo(),
{
    lemma_in_order_sorted(rs);
    lemma_apart_separate(in_order(rs));
    lemma_in_order_first(rs, at);
}

// ---------------------------------------------------------------------------
// Lines
// ---------------------------------------------------------------------------

/// Where the line after this one begins: the end of the text for the last.
pub open spec fn after_line(t: Seq<char>, line: nat) -> int {
    start_of_line(t, line + 1)
}

/// Where the characters that end a line begin, for a line that runs up to
/// `end`.
pub open spec fn before_ending(t: Seq<char>, start: int, end: int) -> int {
    if end > start && ends_line(t, end - 1) {
        if t[end - 1] == '\n' && end - 1 > start && t[end - 2] == '\r' {
            end - 2
        } else {
            end - 1
        }
    } else {
        end
    }
}

/// Where a line ends, before the characters that end it.
pub open spec fn end_of_line(t: Seq<char>, line: nat) -> int {
    before_ending(t, start_of_line(t, line), after_line(t, line))
}

/// A line there is not begins where the text ends.
pub proof fn lemma_past_the_last_line(t: Seq<char>, n: nat, i: int)
    requires
        0 <= i <= t.len(),
        n + line_at(t, i) > line_at(t, t.len() as int),
    ensures
        after_lines(t, n, i) == t.len(),
    decreases t.len() - i,
{
    if i < t.len() {
        lemma_line_at_grows(t, i + 1, t.len() as int);
        if ends_line(t, i) {
            lemma_past_the_last_line(t, (n - 1) as nat, i + 1);
        } else if n > 0 {
            lemma_past_the_last_line(t, n, i + 1);
        }
    }
}

/// Where lines begin and end, in order.
pub proof fn lemma_line_bounds(t: Seq<char>, line: nat)
    ensures
        0 <= start_of_line(t, line) <= end_of_line(t, line) <= after_line(t, line) <= t.len(),
{
    lemma_after_lines_bounds(t, line, 0);
    lemma_after_lines_bounds(t, line + 1, 0);
    lemma_after_lines_grows(t, line, line + 1, 0);
}

/// The line that a position is on is one of the lines, and begins at or
/// before it.
pub proof fn lemma_line_of(t: Seq<char>, at: int)
    requires
        0 <= at <= t.len(),
    ensures
        line_at(t, at) < line_count(t),
        start_of_line(t, line_at(t, at)) <= at,
{
    lemma_line_at_grows(t, at, t.len() as int);
    lemma_line_starts_before(t, 0, at);
}

/// The line that a position is on.
pub fn line_of(rope: &ropey::Rope, at: usize) -> (line: usize)
    ensures
        line == line_at(rope_text(*rope), least(at as int, rope_text(*rope).len() as int)),
        line < line_count(rope_text(*rope)),
{
    let len = rope.len_chars();
    let at: usize = if at <= len { at } else { len };
    proof {
        lemma_line_of(rope_text(*rope), at as int);
    }
    rope.char_to_line(at)
}

/// Where a line begins.
pub fn line_start(rope: &ropey::Rope, line: usize) -> (at: usize)
    ensures
        at == start_of_line(rope_text(*rope), line as nat),
        at <= rope_text(*rope).len(),
{
    let ghost t = rope_text(*rope);
    let lines = rope.len_lines();
    proof {
        lemma_line_bounds(t, line as nat);
        if line > lines {
            lemma_past_the_last_line(t, line as nat, 0);
            lemma_past_the_last_line(t, lines as nat, 0);
        }
    }
    rope.line_to_char(if line <= lines { line } else { lines })
}

/// Whether a line ends with the character at a position.
fn is_line_ending(rope: &ropey::Rope, at: usize) -> (yes: bool)
    requires
        at < rope_text(*rope).len(),
    ensures
        yes == ends_line(rope_text(*rope), at as int),
{
    let c = rope.char(at);
    if c == '\r' {
        !(at < rope.len_chars() - 1 && rope.char(at + 1) == '\n')
    } else {
        c == '\n' || c == '\u{b}' || c == '\u{c}' || c == '\u{85}' || c == '\u{2028}' || c
            == '\u{2029}'
    }
}

/// Where the line after this one begins, and the end of the text for the
/// last.
pub fn line_after(rope: &ropey::Rope, line: usize) -> (at: usize)
    ensures
        at == after_line(rope_text(*rope), line as nat),
        at <= rope_text(*rope).len(),
{
    proof {
        lemma_line_bounds(rope_text(*rope), line as nat);
        if line + 1 >= line_count(rope_text(*rope)) {
            lemma_past_the_last_line(rope_text(*rope), (line + 1) as nat, 0);
        }
    }
    if line < rope.len_lines() - 1 {
        line_start(rope, line + 1)
    } else {
        rope.len_chars()
    }
}

/// Where a line ends, before the characters that end it.
pub fn line_end(rope: &ropey::Rope, line: usize) -> (at: usize)
    ensures
        at == end_of_line(rope_text(*rope), line as nat),
        at <= rope_text(*rope).len(),
{
    proof {
        lemma_line_bounds(rope_text(*rope), line as nat);
    }
    let start = line_start(rope, line);
    let end = line_after(rope, line);
    if end > start && is_line_ending(rope, end - 1) {
        if rope.char(end - 1) == '\n' && end - 1 > start && rope.char(end - 2) == '\r' {
            end - 2
        } else {
            end - 1
        }
    } else {
        end
    }
}

/// Whether a character is what lines are indented with.
pub open spec fn is_indent(c: char) -> bool {
    c == ' ' || c == '\t'
}

/// The first position from `i` up to `end` that holds no indentation.
pub open spec fn past_indent(t: Seq<char>, i: int, end: int) -> int
    decreases end - i,
{
    if i < end && is_indent(t[i]) {
        past_indent(t, i + 1, end)
    } else {
        i
    }
}

/// Where the text of a line begins: its end, where there is none.
pub open spec fn text_of_line(t: Seq<char>, line: nat) -> int {
    past_indent(t, start_of_line(t, line), end_of_line(t, line))
}

proof fn lemma_past_indent(t: Seq<char>, i: int, end: int)
    requires
        i <= end,
    ensures
        i <= past_indent(t, i, end) <= end,
    decreases end - i,
{
    if i < end && is_indent(t[i]) {
        lemma_past_indent(t, i + 1, end);
    }
}

/// The text of a line begins between its start and its end.
pub proof fn lemma_text_of_line(t: Seq<char>, line: nat)
    ensures
        start_of_line(t, line) <= text_of_line(t, line) <= end_of_line(t, line),
{
    lemma_line_bounds(t, line);
    lemma_past_indent(t, start_of_line(t, line), end_of_line(t, line));
}

/// Where the text of a line begins, past its indentation.
pub fn first_non_blank(rope: &ropey::Rope, line: usize) -> (at: usize)
    ensures
        at == text_of_line(rope_text(*rope), line as nat),
        at <= rope_text(*rope).len(),
{
    let ghost t = rope_text(*rope);
    proof {
        lemma_line_bounds(t, line as nat);
    }
    let start = line_start(rope, line);
    let end = line_end(rope, line);
    let mut at: usize = start;
    while at < end && (rope.char(at) == ' ' || rope.char(at) == '\t')
        invariant
            t == rope_text(*rope),
            start <= at <= end <= t.len(),
            past_indent(t, start as int, end as int) == past_indent(t, at as int, end as int),
        decreases end - at,
    {
        at = at + 1;
    }
    at
}

/// What a line is indented with.
pub fn indent_of(rope: &ropey::Rope, line: usize) -> (s: String)
    ensures
        s@ == rope_text(*rope).subrange(
            start_of_line(rope_text(*rope), line as nat),
            text_of_line(rope_text(*rope), line as nat),
        ),
{
    proof {
        lemma_text_of_line(rope_text(*rope), line as nat);
    }
    slice(rope, line_start(rope, line), first_non_blank(rope, line))
}

/// The character at a position, where there is one.
pub fn char_at(rope: &ropey::Rope, at: usize) -> (c: Option<char>)
    ensures
        c == (if at < rope_text(*rope).len() {
            Some(rope_text(*rope)[at as int])
        } else {
            None
        }),
{
    if at < rope.len_chars() {
        Some(rope.char(at))
    } else {
        None
    }
}

/// Whether every character from `from` up to `to` is blank.
pub open spec fn all_blank(t: Seq<char>, from: int, to: int) -> bool {
    forall|i: int| from <= i < to ==> whitespace(#[trigger] t[i])
}

/// Whether a stretch of the text has nothing in it to see.
pub fn is_blank(rope: &ropey::Rope, from: usize, to: usize) -> (yes: bool)
    requires
        to <= rope_text(*rope).len(),
    ensures
        yes == all_blank(rope_text(*rope), from as int, to as int),
{
    let mut at: usize = from;
    while at < to
        invariant
            from <= at,
            at <= to || from > to,
            to <= rope_text(*rope).len(),
            forall|i: int| from <= i < at ==> whitespace(#[trigger] rope_text(*rope)[i]),
        decreases to - at,
    {
        if !rope.char(at).is_whitespace() {
            assert(!whitespace(rope_text(*rope)[at as int]));
            return false;
        }
        at = at + 1;
    }
    true
}

// ---------------------------------------------------------------------------
// Words
// ---------------------------------------------------------------------------

/// What kind of character one is, for telling words apart.
#[derive(Clone, Copy, PartialEq, Eq, Debug, Structural)]
pub enum Class {
    Blank,
    Word,
    Mark,
}

pub open spec fn class(c: char) -> Class {
    if whitespace(c) {
        Class::Blank
    } else if alphanumeric(c) || c == '_' {
        Class::Word
    } else {
        Class::Mark
    }
}

pub fn class_of(c: char) -> (k: Class)
    ensures
        k == class(c),
{
    if c.is_whitespace() {
        Class::Blank
    } else if c.is_alphanumeric() || c == '_' {
        Class::Word
    } else {
        Class::Mark
    }
}

/// The first position of the run of one class that ends at `i`.
pub open spec fn back_over(t: Seq<char>, i: int, k: Class) -> int
    decreases i,
{
    if i > 0 && class(t[i - 1]) == k {
        back_over(t, i - 1, k)
    } else {
        i
    }
}

/// The position after the run of one class that begins at `i`.
pub open spec fn on_over(t: Seq<char>, i: int, k: Class) -> int
    decreases t.len() - i,
{
    if i < t.len() && class(t[i]) == k {
        on_over(t, i + 1, k)
    } else {
        i
    }
}

fn run_back(rope: &ropey::Rope, from: usize, k: Class) -> (at: usize)
    requires
        from <= rope_text(*rope).len(),
    ensures
        at == back_over(rope_text(*rope), from as int, k),
        at <= from,
{
    let mut at: usize = from;
    while at > 0 && class_of(rope.char(at - 1)) == k
        invariant
            at <= from <= rope_text(*rope).len(),
            back_over(rope_text(*rope), from as int, k) == back_over(rope_text(*rope), at as int, k),
        decreases at,
    {
        at = at - 1;
    }
    at
}

fn run_on(rope: &ropey::Rope, from: usize, k: Class) -> (at: usize)
    requires
        from <= rope_text(*rope).len(),
    ensures
        at == on_over(rope_text(*rope), from as int, k),
        from <= at <= rope_text(*rope).len(),
{
    let mut at: usize = from;
    while at < rope.len_chars() && class_of(rope.char(at)) == k
        invariant
            from <= at <= rope_text(*rope).len(),
            on_over(rope_text(*rope), from as int, k) == on_over(rope_text(*rope), at as int, k),
        decreases rope_text(*rope).len() - at,
    {
        at = at + 1;
    }
    at
}

/// Where the word before a position begins: past any blanks, and then over
/// one run of characters of a kind.
pub open spec fn word_before(t: Seq<char>, at: int) -> int {
    let i = back_over(t, at, Class::Blank);
    if i > 0 {
        back_over(t, i, class(t[i - 1]))
    } else {
        i
    }
}

/// Where the word after a position ends.
pub open spec fn word_after(t: Seq<char>, at: int) -> int {
    let i = on_over(t, at, Class::Blank);
    if i < t.len() {
        on_over(t, i, class(t[i]))
    } else {
        i
    }
}

pub fn word_start(rope: &ropey::Rope, at: usize) -> (r: usize)
    ensures
        r == word_before(rope_text(*rope), least(at as int, rope_text(*rope).len() as int)),
        r <= at,
        r <= rope_text(*rope).len(),
{
    let len = rope.len_chars();
    let i = run_back(rope, if at <= len { at } else { len }, Class::Blank);
    if i > 0 {
        run_back(rope, i, class_of(rope.char(i - 1)))
    } else {
        i
    }
}

pub fn word_end(rope: &ropey::Rope, at: usize) -> (r: usize)
    ensures
        r == word_after(rope_text(*rope), least(at as int, rope_text(*rope).len() as int)),
        r <= rope_text(*rope).len(),
{
    let len = rope.len_chars();
    let i = run_on(rope, if at <= len { at } else { len }, Class::Blank);
    if i < len {
        run_on(rope, i, class_of(rope.char(i)))
    } else {
        i
    }
}

/// The kind of character that a word is looked for around a position by: a
/// word after it, or failing that before it, or failing that whatever is
/// there.
pub open spec fn class_around(t: Seq<char>, at: int) -> Option<Class> {
    if at < t.len() && class(t[at]) == Class::Word {
        Some(Class::Word)
    } else if at > 0 && class(t[at - 1]) == Class::Word {
        Some(Class::Word)
    } else if at < t.len() {
        Some(class(t[at]))
    } else if at > 0 {
        Some(class(t[at - 1]))
    } else {
        None
    }
}

pub fn word_around(rope: &ropey::Rope, at: usize) -> (r: Range)
    ensures
        ({
            let t = rope_text(*rope);
            let i = least(at as int, t.len() as int);
            match class_around(t, i) {
                Some(k) => r.anchor == back_over(t, i, k) && r.head == on_over(t, i, k),
                None => r.anchor == i && r.head == i,
            }
        }),
        r.anchor <= rope_text(*rope).len(),
        r.head <= rope_text(*rope).len(),
{
    let len = rope.len_chars();
    let at: usize = if at <= len { at } else { len };
    let k = if at < len && class_of(rope.char(at)) == Class::Word {
        Class::Word
    } else if at > 0 && class_of(rope.char(at - 1)) == Class::Word {
        Class::Word
    } else if at < len {
        class_of(rope.char(at))
    } else if at > 0 {
        class_of(rope.char(at - 1))
    } else {
        return Range::point(at);
    };
    Range { anchor: run_back(rope, at, k), head: run_on(rope, at, k) }
}

// ---------------------------------------------------------------------------
// Columns
// ---------------------------------------------------------------------------

/// The column after a character drawn at `col`: a tab runs to the next stop,
/// and anything else takes one. A column is never more than a `usize` holds.
pub open spec fn next_column(col: int, c: char, tab: int) -> int {
    least(
        usize::MAX as int,
        if c == '\t' {
            col + (tab - col % tab)
        } else {
            col + 1
        },
    )
}

/// The column that position `at` is drawn at, counting from `from`.
pub open spec fn column_of(t: Seq<char>, from: int, at: int, tab: int) -> int
    decreases at - from,
{
    if at <= from {
        0
    } else {
        next_column(column_of(t, from, at - 1, tab), t[at - 1], tab)
    }
}

/// How wide a tab is: one column at the least.
pub open spec fn tab_stop(tab_width: usize) -> int {
    most(1, tab_width as int)
}

fn column_past(col: usize, c: char, tab: usize) -> (next: usize)
    requires
        tab >= 1,
    ensures
        next == next_column(col as int, c, tab as int),
{
    if c == '\t' {
        col.saturating_add(tab - col % tab)
    } else {
        col.saturating_add(1)
    }
}

/// The column that a position is drawn at.
pub fn visual_column(rope: &ropey::Rope, at: usize, tab_width: usize) -> (col: usize)
    ensures
        ({
            let t = rope_text(*rope);
            let i = least(at as int, t.len() as int);
            col == column_of(t, start_of_line(t, line_at(t, i)), i, tab_stop(tab_width))
        }),
{
    let ghost t = rope_text(*rope);
    let len = rope.len_chars();
    let at: usize = if at <= len { at } else { len };
    proof {
        lemma_line_of(t, at as int);
    }
    let tab: usize = if tab_width >= 1 { tab_width } else { 1 };
    let start = line_start(rope, line_of(rope, at));
    let mut col: usize = 0;
    let mut i: usize = start;
    while i < at
        invariant
            t == rope_text(*rope),
            start <= i <= at <= t.len(),
            tab >= 1,
            col == column_of(t, start as int, i as int, tab as int),
        decreases at - i,
    {
        col = column_past(col, rope.char(i), tab);
        i = i + 1;
    }
    col
}

/// The furthest position from `i` up to `end` that is drawn no further along
/// than the column `goal`.
pub open spec fn reach(t: Seq<char>, i: int, end: int, col: int, goal: int, tab: int) -> int
    decreases end - i,
{
    if i < end && next_column(col, t[i], tab) <= goal {
        reach(t, i + 1, end, next_column(col, t[i], tab), goal, tab)
    } else {
        i
    }
}

/// The position on a line that is drawn at a column, or before it where the
/// line is shorter.
pub fn char_at_column(rope: &ropey::Rope, line: usize, column: usize, tab_width: usize) -> (at: usize)
    ensures
        ({
            let t = rope_text(*rope);
            at == reach(
                t,
                start_of_line(t, line as nat),
                end_of_line(t, line as nat),
                0,
                column as int,
                tab_stop(tab_width),
            )
        }),
        start_of_line(rope_text(*rope), line as nat) <= at <= end_of_line(rope_text(*rope), line as nat),
        at <= rope_text(*rope).len(),
{
    let ghost t = rope_text(*rope);
    proof {
        lemma_line_bounds(t, line as nat);
    }
    let tab: usize = if tab_width >= 1 { tab_width } else { 1 };
    let start = line_start(rope, line);
    let end = line_end(rope, line);
    let mut col: usize = 0;
    let mut i: usize = start;
    while i < end && column_past(col, rope.char(i), tab) <= column
        invariant
            t == rope_text(*rope),
            start <= i <= end <= t.len(),
            tab >= 1,
            reach(t, start as int, end as int, 0, column as int, tab as int) == reach(
                t,
                i as int,
                end as int,
                col as int,
                column as int,
                tab as int,
            ),
        decreases end - i,
    {
        col = column_past(col, rope.char(i), tab);
        i = i + 1;
    }
    i
}
// ---------------------------------------------------------------------------
// Putting something into a line
// ---------------------------------------------------------------------------

/// Whether a text holds nothing that ends a line or is part of what does.
pub open spec fn within_line(x: Seq<char>) -> bool {
    forall|k: int| 0 <= k < x.len() ==> !ends_line(x, k) && #[trigger] x[k] != '\r'
}

/// A text with something put in at a position.
pub open spec fn put_in(t: Seq<char>, p: int, x: Seq<char>) -> Seq<char> {
    t.subrange(0, p) + x + t.subrange(p, t.len() as int)
}

/// Where a line begins that something ends before.
pub proof fn lemma_start_is(t: Seq<char>, s: int, i: int)
    requires
        0 <= i <= s <= t.len(),
        s == 0 || ends_line(t, s - 1),
    ensures
        line_at(t, i) <= line_at(t, s),
        after_lines(t, (line_at(t, s) - line_at(t, i)) as nat, i) == s,
    decreases s - i,
{
    lemma_line_at_grows(t, i, s);
    if i < s {
        lemma_line_at_grows(t, i, s - 1);
        lemma_start_is(t, s, i + 1);
    }
}

/// Where so many lines have ended, one has just ended.
proof fn lemma_start_shape(t: Seq<char>, n: nat, i: int)
    requires
        0 <= i <= t.len(),
        n + line_at(t, i) <= line_at(t, t.len() as int),
    ensures
        ({
            let s = after_lines(t, n, i);
            &&& i <= s <= t.len()
            &&& line_at(t, s) == line_at(t, i) + n
            &&& n > 0 ==> s > i && ends_line(t, s - 1)
        }),
    decreases t.len() - i,
{
    if n > 0 && i < t.len() {
        if ends_line(t, i) {
            lemma_start_shape(t, (n - 1) as nat, i + 1);
        } else {
            lemma_start_shape(t, n, i + 1);
        }
    }
}

/// Nothing inside a line ends one.
pub proof fn lemma_inside_line(t: Seq<char>, line: nat)
    requires
        line < line_count(t),
    ensures
        ({
            let (start, after) = (start_of_line(t, line), after_line(t, line));
            &&& 0 <= start <= after <= t.len()
            &&& start == 0 || ends_line(t, start - 1)
            &&& line_at(t, start) == line
            &&& line + 1 < line_count(t) ==> start < after && ends_line(t, after - 1) && line_at(
                t,
                after,
            ) == line + 1 && forall|k: int| start <= k < after - 1 ==> !#[trigger] ends_line(t, k)
            &&& line + 1 == line_count(t) ==> after == t.len() && forall|k: int|
                start <= k < after ==> !#[trigger] ends_line(t, k)
        }),
{
    lemma_start_shape(t, line, 0);
    lemma_line_bounds(t, line);
    let (start, after) = (start_of_line(t, line), after_line(t, line));
    if line + 1 < line_count(t) {
        lemma_start_shape(t, line + 1, 0);
        assert(start != after);
        assert forall|k: int| start <= k < after - 1 implies !#[trigger] ends_line(t, k) by {
            lemma_line_at_grows(t, start, k);
            lemma_line_at_grows(t, k + 1, after - 1);
        }
    } else {
        lemma_past_the_last_line(t, line + 1, 0);
        assert forall|k: int| start <= k < after implies !#[trigger] ends_line(t, k) by {
            lemma_line_at_grows(t, start, k);
            lemma_line_at_grows(t, k + 1, after);
        }
    }
}

proof fn lemma_same_before(t: Seq<char>, u: Seq<char>, i: int)
    requires
        forall|k: int| 0 <= k < i ==> #[trigger] ends_line(u, k) == ends_line(t, k),
    ensures
        line_at(u, i) == line_at(t, i),
    decreases i,
{
    if i > 0 {
        assert(ends_line(u, i - 1) == ends_line(t, i - 1));
        lemma_same_before(t, u, i - 1);
    }
}

proof fn lemma_same_after(t: Seq<char>, u: Seq<char>, p: int, n: int, i: int)
    requires
        0 <= p <= i,
        0 <= n,
        line_at(u, p + n) == line_at(t, p),
        forall|k: int| p <= k < i ==> ends_line(u, k + n) == #[trigger] ends_line(t, k),
    ensures
        line_at(u, i + n) == line_at(t, i),
    decreases i - p,
{
    if i > p {
        assert(ends_line(u, i - 1 + n) == ends_line(t, i - 1));
        lemma_same_after(t, u, p, n, i - 1);
    }
}

/// What is put into a line ends none, and what ends one before still does.
proof fn lemma_put_in_ends(t: Seq<char>, line: nat, p: int, x: Seq<char>)
    requires
        line < line_count(t),
        start_of_line(t, line) <= p <= end_of_line(t, line),
        within_line(x),
        x.len() > 0,
    ensures
        ({
            let u = put_in(t, p, x);
            let n = x.len() as int;
            &&& forall|k: int| 0 <= k < p ==> u[k] == #[trigger] t[k]
            &&& forall|k: int| p <= k < t.len() ==> u[k + n] == #[trigger] t[k]
            &&& u[p + n - 1] == x[n - 1]
            &&& forall|k: int| 0 <= k < p ==> #[trigger] ends_line(u, k) == ends_line(t, k)
            &&& forall|k: int| p <= k < p + n ==> !#[trigger] ends_line(u, k)
            &&& forall|k: int|
                p <= k < t.len() ==> ends_line(u, k + n) == #[trigger] ends_line(t, k)
            &&& forall|i: int| 0 <= i <= p ==> #[trigger] line_at(u, i) == line_at(t, i)
            &&& forall|i: int| p <= i <= t.len() ==> line_at(u, i + n) == #[trigger] line_at(t, i)
            &&& line_count(u) == line_count(t)
        }),
{
    let u = put_in(t, p, x);
    let n = x.len() as int;
    let len = t.len() as int;
    lemma_inside_line(t, line);
    lemma_line_bounds(t, line);
    let (start, after) = (start_of_line(t, line), after_line(t, line));
    assert(forall|k: int| 0 <= k < n ==> u[p + k] == #[trigger] x[k]);
    assert(u[p] == x[0] && u[p + n - 1] == x[n - 1]);
    // No carriage return is parted from its line feed.
    if 0 < p < len && t[p - 1] == '\r' && t[p] == '\n' {
        assert(ends_line(t, p));
        assert(!ends_line(t, p - 1));
        assert(start < p);
        assert(after == p + 1);
        assert(false);
    }
    assert forall|k: int| 0 <= k < p implies #[trigger] ends_line(u, k) == ends_line(t, k) by {
        if k < p - 1 {
            assert(u[k + 1] == t[k + 1]);
        }
    }
    assert forall|k: int| p <= k < p + n implies !#[trigger] ends_line(u, k) by {
        assert(u[k] == x[k - p]);
        assert(!ends_line(x, k - p));
    }
    assert forall|k: int| p <= k < len implies ends_line(u, k + n) == #[trigger] ends_line(t, k) by {
        if k + 1 < len {
            assert(u[k + 1 + n] == t[k + 1]);
        }
    }
    assert forall|i: int| 0 <= i <= p implies #[trigger] line_at(u, i) == line_at(t, i) by {
        lemma_same_before(t, u, i);
    }
    lemma_none_between(u, p, p + n);
    assert forall|i: int| p <= i <= len implies line_at(u, i + n) == #[trigger] line_at(t, i) by {
        lemma_same_after(t, u, p, n, i);
    }
    assert(line_at(u, len + n) == line_at(t, len));
    assert(u.len() == len + n);
}

/// What is put into a line makes it longer by as much, and begins no other.
pub proof fn lemma_put_in_line(t: Seq<char>, line: nat, p: int, x: Seq<char>)
    requires
        line < line_count(t),
        start_of_line(t, line) <= p <= end_of_line(t, line),
        within_line(x),
    ensures
        line_count(put_in(t, p, x)) == line_count(t),
        start_of_line(put_in(t, p, x), line) == start_of_line(t, line),
        end_of_line(put_in(t, p, x), line) == end_of_line(t, line) + x.len(),
{
    let u = put_in(t, p, x);
    let n = x.len() as int;
    let len = t.len() as int;
    lemma_inside_line(t, line);
    lemma_line_bounds(t, line);
    if n == 0 {
        assert(u =~= t);
    } else {
        let (start, after) = (start_of_line(t, line), after_line(t, line));
        lemma_put_in_ends(t, line, p, x);
        lemma_start_is(u, start, 0);
        if line + 1 == line_count(t) {
            lemma_past_the_last_line(u, line + 1, 0);
            if p < len {
                assert(!ends_line(t, len - 1));
                assert(!ends_line(u, len - 1 + n));
            } else {
                assert(!ends_line(u, p + n - 1));
            }
        } else {
            assert(p <= after - 1);
            assert(line_at(u, after + n) == line_at(t, after));
            assert(ends_line(u, after - 1 + n) == ends_line(t, after - 1));
            lemma_start_is(u, after + n, 0);
            assert(u[after - 1 + n] == t[after - 1]);
            if p <= after - 2 {
                assert(u[after - 2 + n] == t[after - 2]);
            } else {
                assert(u[after - 2 + n] == x[n - 1]);
            }
        }
    }
}

/// What is put into a line leaves those before it where they are, and moves
/// those after it on by as much.
pub proof fn lemma_put_in_others(t: Seq<char>, line: nat, p: int, x: Seq<char>, other: nat)
    requires
        line < line_count(t),
        other < line_count(t),
        other != line,
        start_of_line(t, line) <= p <= end_of_line(t, line),
        within_line(x),
    ensures
        ({
            let u = put_in(t, p, x);
            let by = if other > line { x.len() as int } else { 0 };
            &&& start_of_line(u, other) == start_of_line(t, other) + by
            &&& end_of_line(u, other) == end_of_line(t, other) + by
        }),
        other < line ==> end_of_line(t, other) < start_of_line(t, line),
        other > line ==> end_of_line(t, line) < start_of_line(t, other),
{
    let u = put_in(t, p, x);
    let n = x.len() as int;
    let len = t.len() as int;
    lemma_inside_line(t, line);
    lemma_line_bounds(t, line);
    lemma_inside_line(t, other);
    lemma_line_bounds(t, other);
    let (start, after) = (start_of_line(t, other), after_line(t, other));
    if other < line {
        lemma_after_lines_grows(t, other + 1, line, 0);
    } else {
        lemma_after_lines_grows(t, line + 1, other, 0);
    }
    if n == 0 {
        assert(u =~= t);
    } else {
        lemma_put_in_ends(t, line, p, x);
        if other < line {
            assert(after <= start_of_line(t, line) <= p);
            assert(line_at(u, start) == line_at(t, start));
            lemma_start_is(u, start, 0);
            assert(line_at(u, after) == line_at(t, after));
            assert(ends_line(u, after - 1) == ends_line(t, after - 1));
            lemma_start_is(u, after, 0);
        } else {
            assert(p < start);
            assert(line_at(u, start + n) == line_at(t, start));
            assert(ends_line(u, start - 1 + n) == ends_line(t, start - 1));
            lemma_start_is(u, start + n, 0);
            if other + 1 == line_count(t) {
                lemma_past_the_last_line(u, other + 1, 0);
                if start < len {
                    assert(ends_line(u, len - 1 + n) == ends_line(t, len - 1));
                }
            } else {
                assert(line_at(u, after + n) == line_at(t, after));
                assert(ends_line(u, after - 1 + n) == ends_line(t, after - 1));
                lemma_start_is(u, after + n, 0);
                assert(u[after - 1 + n] == t[after - 1]);
                if after - 1 > start {
                    assert(u[after - 2 + n] == t[after - 2]);
                }
            }
        }
    }
}

proof fn lemma_none_between(u: Seq<char>, from: int, to: int)
    requires
        0 <= from <= to,
        forall|k: int| from <= k < to ==> !#[trigger] ends_line(u, k),
    ensures
        line_at(u, to) == line_at(u, from),
    decreases to - from,
{
    if from < to {
        assert(!ends_line(u, to - 1));
        lemma_none_between(u, from, to - 1);
    }
}

/// A position inside a line is on that line.
pub proof fn lemma_on_line(t: Seq<char>, line: nat, at: int)
    requires
        line < line_count(t),
        start_of_line(t, line) <= at <= end_of_line(t, line),
    ensures
        line_at(t, at) == line,
{
    lemma_inside_line(t, line);
    lemma_line_bounds(t, line);
    lemma_none_between(t, start_of_line(t, line), at);
}

/// A line begins on itself.
pub proof fn lemma_line_starts_on_itself(t: Seq<char>, line: nat)
    requires
        line < line_count(t),
    ensures
        0 <= start_of_line(t, line) <= t.len(),
        line_at(t, start_of_line(t, line)) == line,
{
    lemma_inside_line(t, line);
}

} // verus!
