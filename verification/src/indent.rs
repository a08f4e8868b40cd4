//! What a text is indented with.
use vstd::prelude::*;

use crate::rope::{line_count, rope_text, start_of_line};
use crate::text::{after_line, least, lemma_line_bounds, line_after, line_start};

verus! {

/// What a document is indented with.
#[derive(Clone, Copy, PartialEq, Eq, Debug, Structural)]
pub enum Indent {
    Tabs,
    Spaces(usize),
}

impl Indent {
    /// What one level is written as.
    pub open spec fn written(&self) -> Seq<char> {
        match self {
            Indent::Tabs => seq!['\t'],
            Indent::Spaces(n) => Seq::new(*n as nat, |i: int| ' '),
        }
    }

    /// How many columns one level takes.
    pub open spec fn columns(&self, tab_width: usize) -> usize {
        match self {
            Indent::Tabs => tab_width,
            Indent::Spaces(n) => *n,
        }
    }

    pub fn unit(&self) -> (s: String)
        ensures
            s@ == self.written(),
    {
        let mut s: String = String::new();
        match self {
            Indent::Tabs => {
                s.push('\t');
                assert(s@ =~= self.written());
            },
            Indent::Spaces(n) => {
                let mut i: usize = 0;
                while i < *n
                    invariant
                        i <= *n,
                        s@ == Seq::new(i as nat, |i: int| ' '),
                    decreases *n - i,
                {
                    s.push(' ');
                    i = i + 1;
                    assert(s@ =~= Seq::new(i as nat, |i: int| ' '));
                }
            },
        }
        s
    }

    pub fn width(&self, tab_width: usize) -> (n: usize)
        ensures
            n == self.columns(tab_width),
    {
        match self {
            Indent::Tabs => tab_width,
            Indent::Spaces(n) => *n,
        }
    }
}

// ---------------------------------------------------------------------------
// Telling what a text is indented with
// ---------------------------------------------------------------------------

/// How many lines are looked at.
pub const LINES_READ: usize = 400;

/// The first position from `i` up to `end` that holds no space.
pub open spec fn past_spaces(t: Seq<char>, i: int, end: int) -> int
    decreases end - i,
{
    if i < end && t[i] == ' ' {
        past_spaces(t, i + 1, end)
    } else {
        i
    }
}

/// What the lines looked at so far come to: how many begin with a tab, how
/// often a line is indented by so many spaces more than the one before, and
/// how far the last one was.
pub ghost struct Tally {
    pub tabs: nat,
    pub steps: Seq<nat>,
    pub previous: int,
}

/// A tally with the line from `start` to `end` in it. A line with nothing on
/// it says nothing.
pub open spec fn tallied_line(w: Tally, t: Seq<char>, start: int, end: int) -> Tally {
    let p = past_spaces(t, start, end);
    let by = p - start - w.previous;
    if p < end && t[p] == '\t' {
        Tally { tabs: w.tabs + 1, ..w }
    } else if p >= end || t[p] == '\n' || t[p] == '\r' {
        w
    } else {
        Tally {
            steps: if 0 < by < 9 { w.steps.update(by, w.steps[by] + 1) } else { w.steps },
            previous: p - start,
            ..w
        }
    }
}

/// What the first `n` lines come to.
pub open spec fn tallied(t: Seq<char>, n: nat) -> Tally
    decreases n,
{
    if n == 0 {
        Tally { tabs: 0, steps: Seq::new(9, |i: int| 0nat), previous: 0 }
    } else {
        tallied_line(
            tallied(t, (n - 1) as nat),
            t,
            start_of_line(t, (n - 1) as nat),
            after_line(t, (n - 1) as nat),
        )
    }
}

/// The later of two widths that is met at least as often.
pub open spec fn preferred(steps: Seq<nat>, a: int, b: int) -> int {
    if steps[b] >= steps[a] { b } else { a }
}

/// The width that is met most often.
pub open spec fn favourite(steps: Seq<nat>) -> int {
    preferred(
        steps,
        preferred(steps, preferred(steps, preferred(steps, 2, 4), 8), 3),
        6,
    )
}

pub open spec fn sum(steps: Seq<nat>) -> nat {
    steps[0] + steps[1] + steps[2] + steps[3] + steps[4] + steps[5] + steps[6] + steps[7] + steps[8]
}

/// What a text is indented with, where it has made up its mind.
pub open spec fn indentation(t: Seq<char>) -> Option<Indent> {
    let w = tallied(t, least(LINES_READ as int, line_count(t) as int) as nat);
    if w.tabs > sum(w.steps) {
        Some(Indent::Tabs)
    } else if sum(w.steps) == 0 || w.steps[favourite(w.steps)] == 0 {
        None
    } else {
        Some(Indent::Spaces(favourite(w.steps) as usize))
    }
}

fn prefer(steps: &Vec<usize>, a: usize, b: usize) -> (c: usize)
    requires
        a < steps@.len(),
        b < steps@.len(),
    ensures
        c == if steps@[b as int] >= steps@[a as int] { b } else { a },
{
    if steps[b] >= steps[a] { b } else { a }
}

/// What a text is indented with, where it has made up its mind.
pub fn detect_indent(rope: &ropey::Rope) -> (r: Option<Indent>)
    ensures
        r == indentation(rope_text(*rope)),
{
    let ghost t = rope_text(*rope);
    let lines = rope.len_lines();
    let read: usize = if lines <= LINES_READ { lines } else { LINES_READ };
    let mut tabs: usize = 0;
    let mut steps: Vec<usize> = Vec::new();
    let mut previous: usize = 0;
    let mut i: usize = 0;
    while i < 9
        invariant
            i <= 9,
            steps@.len() == i,
            forall|j: int| 0 <= j < i ==> (#[trigger] steps@[j]) == 0,
        decreases 9 - i,
    {
        steps.push(0);
        i = i + 1;
    }
    let mut n: usize = 0;
    while n < read
        invariant
            t == rope_text(*rope),
            n <= read <= LINES_READ,
            read <= line_count(t),
            steps@.len() == 9,
            tallied(t, n as nat).steps.len() == 9,
            tabs == tallied(t, n as nat).tabs,
            previous == tallied(t, n as nat).previous,
            tabs <= n,
            forall|j: int|
                0 <= j < 9 ==> (#[trigger] steps@[j]) == tallied(t, n as nat).steps[j] && steps@[j] <= n,
        decreases read - n,
    {
        proof {
            lemma_line_bounds(t, n as nat);
        }
        let start = line_start(rope, n);
        let end = line_after(rope, n);
        let mut at: usize = start;
        while at < end && rope.char(at) == ' '
            invariant
                t == rope_text(*rope),
                start <= at <= end <= t.len(),
                past_spaces(t, start as int, end as int) == past_spaces(t, at as int, end as int),
            decreases end - at,
        {
            at = at + 1;
        }
        let ghost w = tallied(t, n as nat);
        assert(tallied(t, (n + 1) as nat) == tallied_line(w, t, start as int, end as int));
        if at < end {
            let c = rope.char(at);
            let spaces = at - start;
            if c == '\t' {
                tabs = tabs + 1;
            } else if c != '\n' && c != '\r' {
                if spaces > previous && spaces - previous < 9 {
                    let by = spaces - previous;
                    let was = steps[by];
                    steps.set(by, was + 1);
                }
                previous = spaces;
            }
        }
        n = n + 1;
    }
    let total = steps[0] + steps[1] + steps[2] + steps[3] + steps[4] + steps[5] + steps[6] + steps[7]
        + steps[8];
    if tabs > total {
        return Some(Indent::Tabs);
    }
    if total == 0 {
        return None;
    }
    let best = prefer(&steps, prefer(&steps, prefer(&steps, prefer(&steps, 2, 4), 8), 3), 6);
    if steps[best] > 0 {
        Some(Indent::Spaces(best))
    } else {
        None
    }
}

} // verus!
