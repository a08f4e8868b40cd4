//! The commands that move and multiply cursors.
use vstd::prelude::*;

use crate::chars::chars_of;
use crate::doc::{selected, Document};
use crate::edit::{any_selected, ready, some_selected};
use crate::lines::{spans_ok, touched, touched_lines, whole};
use crate::outcome::{is_word_back, is_word_on, law_a_word_is_a_run_of_one_kind, lemma_past};
use crate::pane::{selects, Pane};
use crate::restore::lemma_reaches;
use crate::rope::{
    bytes_before, is_at_byte, lemma_bytes_grow, line_at, line_count, rope_text, start_of_line,
};
use crate::strings::{find_next, lemma_next_match, next_match};
use crate::text::{
    after_line, all_blank, back_over, char_at_column, class_around, column_of, end_of_line,
    first_non_blank, is_blank, least, lemma_line_bounds, lemma_line_of, line_after, line_end, line_of, line_start, most, on_over,
    reach, tab_stop, text_of_line, visual_column, word_after, word_around, word_before, word_end,
    word_start, Range, Selections,
};

verus! {

/// A way of moving a cursor.
#[derive(Clone, Copy, PartialEq, Eq, Debug, Structural)]
pub enum Motion {
    Left,
    Right,
    Up,
    Down,
    WordLeft,
    WordRight,
    LineStart,
    LineEnd,
    PageUp,
    PageDown,
    DocStart,
    DocEnd,
    ParaUp,
    ParaDown,
}

// ---------------------------------------------------------------------------
// Up and down
// ---------------------------------------------------------------------------

/// How many rows of the screen each line takes: one, unless it says. A line that
/// is folded away takes none.
#[derive(Debug)]
pub struct Layout {
    pub rows: Option<Vec<usize>>,
}

/// Where moving by rows ends: off the top, off the bottom, or on a row of a
/// line.
#[derive(Clone, Copy, PartialEq, Eq, Debug, Structural)]
pub enum Landing {
    Top,
    Bottom,
    On { line: usize, row: usize },
}

impl Layout {
    pub open spec fn height(&self, line: int) -> int {
        match self.rows {
            Some(v) => if 0 <= line < v@.len() { v@[line] as int } else { 1 },
            None => 1,
        }
    }

    pub fn rows_in(&self, line: usize) -> (n: usize)
        ensures
            n == self.height(line as int),
    {
        match &self.rows {
            Some(v) => if line < v.len() { v[line] } else { 1 },
            None => 1,
        }
    }
}

/// A row that may be above its line, counted from the line that it is on.
/// `None` where that is above the first.
pub open spec fn risen(layout: Layout, line: int, row: int) -> Option<(int, int)>
    decreases line,
{
    if row >= 0 {
        Some((line, row))
    } else if line <= 0 {
        None
    } else {
        risen(layout, line - 1, row + layout.height(line - 1))
    }
}

/// A row that may be below its line, counted from the line that it is on.
/// `None` where that is below the last.
pub open spec fn fallen(layout: Layout, lines: int, line: int, row: int) -> Option<(int, int)>
    decreases lines - line,
{
    if row < layout.height(line) {
        Some((line, row))
    } else if line + 1 >= lines {
        None
    } else {
        fallen(layout, lines, line + 1, row - layout.height(line))
    }
}

/// Where moving `by` rows from a row of a line ends.
pub open spec fn stepped_to(layout: Layout, lines: int, line: int, row: int, by: int) -> Landing {
    match risen(layout, line, row + by) {
        None => Landing::Top,
        Some((l, r)) => match fallen(layout, lines, l, r) {
            None => Landing::Bottom,
            Some((l, r)) => Landing::On { line: l as usize, row: r as usize },
        },
    }
}

/// Move by rows of the screen from one row of a line.
pub fn vertical_step(layout: &Layout, lines: usize, line: usize, row: usize, by: isize) -> (to: Landing)
    requires
        line < lines,
    ensures
        to == stepped_to(*layout, lines as int, line as int, row as int, by as int),
{
    let mut l: usize = line;
    let mut r: i128 = row as i128 + by as i128;
    while r < 0
        invariant
            l < lines,
            -0x2_0000_0000_0000_0000 <= r <= 0x4_0000_0000_0000_0000,
            risen(*layout, line as int, row + by) == risen(*layout, l as int, r as int),
        decreases l,
    {
        if l == 0 {
            return Landing::Top;
        }
        l = l - 1;
        r = r + layout.rows_in(l) as i128;
    }
    let ghost mid = (l as int, r as int);
    loop
        invariant
            l < lines,
            0 <= r <= 0x4_0000_0000_0000_0000,
            risen(*layout, line as int, row + by) == Some(mid),
            fallen(*layout, lines as int, mid.0, mid.1) == fallen(
                *layout,
                lines as int,
                l as int,
                r as int,
            ),
        ensures
            0 <= r < layout.height(l as int),
        decreases lines - l,
    {
        let rows = layout.rows_in(l) as i128;
        if r < rows {
            break;
        }
        if l >= lines - 1 {
            return Landing::Bottom;
        }
        r = r - rows;
        l = l + 1;
    }
    Landing::On { line: l, row: r as usize }
}

// ---------------------------------------------------------------------------
// Paragraphs
// ---------------------------------------------------------------------------

pub open spec fn blank(t: Seq<char>, line: int) -> bool {
    all_blank(t, start_of_line(t, line as nat), end_of_line(t, line as nat))
}

/// The first line from one on, or back, that is not the first or the last
/// and is blank or is not.
pub open spec fn run_end(t: Seq<char>, line: int, down: bool, over: bool) -> int
    decreases (if down { line_count(t) - line } else { line }),
{
    if 0 < line < line_count(t) - 1 && blank(t, line) == over {
        run_end(t, if down { line + 1 } else { line - 1 }, down, over)
    } else {
        line
    }
}

/// Where the paragraph before or after a position is reached: over the blank
/// lines next to it, and then over those that are not.
pub open spec fn paragraph_at(t: Seq<char>, at: int, down: bool) -> int {
    let line = line_at(t, at) as int;
    let next = if down { line + 1 } else { line - 1 };
    let l = run_end(t, run_end(t, next, down, true), down, false);
    start_of_line(t, most(0, least(l, line_count(t) - 1)) as nat)
}

fn over_run(rope: &ropey::Rope, from: usize, down: bool, blanks: bool) -> (line: usize)
    requires
        from <= line_count(rope_text(*rope)),
    ensures
        line == run_end(rope_text(*rope), from as int, down, blanks),
        line <= line_count(rope_text(*rope)),
{
    let ghost t = rope_text(*rope);
    let last = rope.len_lines() - 1;
    let mut line: usize = from;
    while line > 0 && line < last && is_blank(rope, line_start(rope, line), line_end(rope, line))
        == blanks
        invariant
            t == rope_text(*rope),
            last == line_count(t) - 1,
            line <= last + 1,
            run_end(t, from as int, down, blanks) == run_end(t, line as int, down, blanks),
        decreases (if down { last + 1 - line } else { line as int }),
    {
        if down {
            line = line + 1;
        } else {
            line = line - 1;
        }
    }
    line
}

fn paragraph(rope: &ropey::Rope, at: usize, down: bool) -> (to: usize)
    requires
        at <= rope_text(*rope).len(),
    ensures
        to == paragraph_at(rope_text(*rope), at as int, down),
{
    let ghost t = rope_text(*rope);
    let line = line_of(rope, at);
    let last = rope.len_lines() - 1;
    if !down && line == 0 {
        assert(run_end(t, -1, false, true) == -1);
        assert(run_end(t, -1, false, false) == -1);
        return line_start(rope, 0);
    }
    let next: usize = if down { line + 1 } else { line - 1 };
    let l = over_run(rope, over_run(rope, next, down, true), down, false);
    line_start(rope, if l <= last { l } else { last })
}

// ---------------------------------------------------------------------------
// Moving
// ---------------------------------------------------------------------------

pub open spec fn is_vertical(motion: Motion) -> bool {
    motion == Motion::Up || motion == Motion::Down || motion == Motion::PageUp || motion
        == Motion::PageDown
}

/// The position a number of lines away, at a column.
pub open spec fn lines_away(t: Seq<char>, at: int, by: int, goal: int, tab: int) -> int {
    let line = line_at(t, at) + by;
    if line < 0 {
        0
    } else if line >= line_count(t) {
        t.len() as int
    } else {
        reach(t, start_of_line(t, line as nat), end_of_line(t, line as nat), 0, goal, tab)
    }
}

/// How many lines a page is: all but two of those that fit.
pub open spec fn page(height: usize) -> int {
    most(height - 2, 1)
}

/// Where a cursor goes. One with something selected goes to the end of that
/// which it is moved towards.
pub open spec fn goes_to(
    t: Seq<char>,
    r: Range,
    motion: Motion,
    extend: bool,
    goal: int,
    tab: int,
    height: usize,
) -> int {
    let collapsing = !extend && r.anchor != r.head;
    let from = if !collapsing {
        r.head as int
    } else {
        match motion {
            Motion::Left | Motion::WordLeft | Motion::LineStart => r.lo(),
            Motion::Right | Motion::WordRight | Motion::LineEnd => r.hi(),
            _ => r.head as int,
        }
    };
    let line = line_at(t, from);
    match motion {
        Motion::Left => if collapsing { r.lo() } else { most(from - 1, 0) },
        Motion::Right => if collapsing { r.hi() } else { least(from + 1, t.len() as int) },
        Motion::WordLeft => word_before(t, from),
        Motion::WordRight => word_after(t, from),
        Motion::LineStart => {
            if from == text_of_line(t, line) {
                start_of_line(t, line)
            } else {
                text_of_line(t, line)
            }
        },
        Motion::LineEnd => end_of_line(t, line),
        Motion::Up => lines_away(t, from, -1, goal, tab),
        Motion::Down => lines_away(t, from, 1, goal, tab),
        Motion::PageUp => lines_away(t, from, -page(height), goal, tab),
        Motion::PageDown => lines_away(t, from, page(height), goal, tab),
        Motion::DocStart => 0,
        Motion::DocEnd => t.len() as int,
        Motion::ParaUp => paragraph_at(t, from, false),
        Motion::ParaDown => paragraph_at(t, from, true),
    }
}

pub open spec fn all_go(
    t: Seq<char>,
    rs: Seq<Range>,
    motion: Motion,
    extend: bool,
    goal: int,
    tab: int,
    height: usize,
) -> Seq<Range> {
    rs.map_values(
        |r: Range|
            {
                let to = goes_to(t, r, motion, extend, goal, tab, height) as usize;
                Range { anchor: if extend { r.anchor } else { to }, head: to }
            },
    )
}

/// The column that moving up and down keeps to.
pub open spec fn kept_column(t: Seq<char>, pane: Pane, tab: int) -> int {
    match pane.goal {
        Some(goal) => goal as int,
        None => column_at(t, pane.sel.ranges@[pane.sel.primary as int].head as int, tab),
    }
}

pub open spec fn column_at(t: Seq<char>, at: int, tab: int) -> int {
    column_of(t, start_of_line(t, line_at(t, at)), at, tab)
}

/// With every line on one row, moving by rows is moving by lines.
proof fn lemma_plain_rise(layout: Layout, line: int, row: int)
    requires
        layout.rows is None,
        line >= 0,
        row < 0,
    ensures
        risen(layout, line, row) == if line + row < 0 { None::<(int, int)> } else { Some((line + row, 0int)) },
    decreases line,
{
    if line > 0 && row < -1 {
        lemma_plain_rise(layout, line - 1, row + 1);
    } else if line > 0 {
        assert(risen(layout, line - 1, 0) == Some((line - 1, 0int)));
    }
}

proof fn lemma_plain_fall(layout: Layout, lines: int, line: int, row: int)
    requires
        layout.rows is None,
        0 <= line < lines,
        row >= 0,
    ensures
        fallen(layout, lines, line, row) == if line + row >= lines {
            None::<(int, int)>
        } else {
            Some((line + row, 0int))
        },
    decreases lines - line,
{
    if row > 0 && line + 1 < lines {
        lemma_plain_fall(layout, lines, line + 1, row - 1);
    }
}

/// Where a landing is: the beginning off the top, the end off the bottom, and
/// else wherever the row of the line that it is on is met.
pub open spec fn landed_at(landing: Landing, place: int, len: int) -> int {
    match landing {
        Landing::Top => 0,
        Landing::Bottom => len,
        Landing::On { line: _, row: _ } => place,
    }
}

/// Where every line takes one row, moving by rows is moving by lines, at the
/// column that is kept to.
pub proof fn law_one_row_for_each_line_moves_by_lines(
    t: Seq<char>,
    layout: Layout,
    at: int,
    by: int,
    goal: int,
    tab: int,
)
    requires
        layout.rows is None,
        0 <= at <= t.len(),
        line_count(t) <= usize::MAX,
        by != 0,
    ensures
        ({
            let to = stepped_to(layout, line_count(t) as int, line_at(t, at) as int, 0, by);
            let line = line_at(t, at) + by;
            let place = reach(
                t,
                start_of_line(t, line as nat),
                end_of_line(t, line as nat),
                0,
                goal,
                tab,
            );
            &&& to matches Landing::On { line: l, row } ==> l == line < line_count(t) && row == 0
            &&& landed_at(to, place, t.len() as int) == lines_away(t, at, by, goal, tab)
        }),
{
    let line = line_at(t, at) as int;
    let lines = line_count(t) as int;
    lemma_line_of(t, at);
    if by < 0 {
        lemma_plain_rise(layout, line, by);
        if line + by >= 0 {
            lemma_plain_fall(layout, lines, line + by, 0);
        }
    } else {
        assert(risen(layout, line, by) == Some((line, by)));
        lemma_plain_fall(layout, lines, line, by);
    }
}

/// Moving by rows inside a line that takes several stays on the line.
pub proof fn law_moving_inside_a_line_stays_on_it(
    layout: Layout,
    lines: int,
    line: int,
    row: int,
    by: int,
)
    requires
        0 <= line < lines <= usize::MAX,
        0 <= row + by < layout.height(line),
    ensures
        stepped_to(layout, lines, line, row, by) == (Landing::On {
            line: line as usize,
            row: (row + by) as usize,
        }),
{
}

fn by_lines(rope: &ropey::Rope, at: usize, by: isize, goal: usize, tab_width: usize) -> (to: usize)
    requires
        at <= rope_text(*rope).len(),
        by != 0,
    ensures
        to == lines_away(rope_text(*rope), at as int, by as int, goal as int, tab_stop(tab_width)),
{
    let ghost t = rope_text(*rope);
    let layout = Layout { rows: None };
    let line = line_of(rope, at);
    let lines = rope.len_lines();
    let len = rope.len_chars();
    proof {
        law_one_row_for_each_line_moves_by_lines(
            t,
            layout,
            at as int,
            by as int,
            goal as int,
            tab_stop(tab_width),
        );
    }
    match vertical_step(&layout, lines, line, 0, by) {
        Landing::Top => 0,
        Landing::Bottom => len,
        Landing::On { line, row: _ } => char_at_column(rope, line, goal, tab_width),
    }
}

fn destination(
    rope: &ropey::Rope,
    r: Range,
    motion: Motion,
    extend: bool,
    goal: usize,
    tab_width: usize,
    height: usize,
) -> (to: usize)
    requires
        r.anchor <= rope_text(*rope).len(),
        r.head <= rope_text(*rope).len(),
        height <= isize::MAX,
    ensures
        to == goes_to(
            rope_text(*rope),
            r,
            motion,
            extend,
            goal as int,
            tab_stop(tab_width),
            height,
        ),
{
    let ghost t = rope_text(*rope);
    let collapsing = !extend && !r.is_empty();
    let from: usize = if !collapsing {
        r.head
    } else {
        match motion {
            Motion::Left | Motion::WordLeft | Motion::LineStart => r.start(),
            Motion::Right | Motion::WordRight | Motion::LineEnd => r.end(),
            _ => r.head,
        }
    };
    let len = rope.len_chars();
    let page: isize = if height >= 3 { height as isize - 2 } else { 1 };
    match motion {
        Motion::Left => if collapsing || from == 0 { from } else { from - 1 },
        Motion::Right => if collapsing || from == len { from } else { from + 1 },
        Motion::WordLeft => word_start(rope, from),
        Motion::WordRight => word_end(rope, from),
        Motion::LineStart => {
            let line = line_of(rope, from);
            let first = first_non_blank(rope, line);
            if from == first { line_start(rope, line) } else { first }
        },
        Motion::LineEnd => line_end(rope, line_of(rope, from)),
        Motion::Up => by_lines(rope, from, -1, goal, tab_width),
        Motion::Down => by_lines(rope, from, 1, goal, tab_width),
        Motion::PageUp => by_lines(rope, from, -page, goal, tab_width),
        Motion::PageDown => by_lines(rope, from, page, goal, tab_width),
        Motion::DocStart => 0,
        Motion::DocEnd => len,
        Motion::ParaUp => paragraph(rope, from, false),
        Motion::ParaDown => paragraph(rope, from, true),
    }
}

/// Move every cursor, or the end of every selection, where each line takes
/// one row of the screen. Moving up and down keeps to a column across lines
/// that are too short for it.
pub fn move_cursors(
    doc: &Document,
    pane: &mut Pane,
    motion: Motion,
    extend: bool,
    tab_width: usize,
    height: usize,
)
    requires
        ready(*doc, *old(pane)),
        height <= isize::MAX,
    ensures
        ({
            let t = doc.content();
            let tab = tab_stop(tab_width);
            let goal = if is_vertical(motion) { kept_column(t, *old(pane), tab) } else { 0 };
            &&& selects(
                final(pane).sel,
                all_go(t, old(pane).sel.ranges@, motion, extend, goal, tab, height),
                old(pane).sel.primary as int,
            )
            &&& final(pane).goal == if is_vertical(motion) {
                Some(goal as usize)
            } else {
                None
            }
        }),
{
    let ghost t = doc.content();
    let vertical = match motion {
        Motion::Up | Motion::Down | Motion::PageUp | Motion::PageDown => true,
        _ => false,
    };
    let goal: usize = if vertical {
        match pane.goal {
            Some(goal) => goal,
            None => visual_column(&doc.rope, pane.sel.primary().head, tab_width),
        }
    } else {
        0
    };
    let ghost want = all_go(
        t,
        pane.sel.ranges@,
        motion,
        extend,
        goal as int,
        tab_stop(tab_width),
        height,
    );
    let mut given: Vec<Range> = Vec::new();
    let mut n: usize = 0;
    while n < pane.sel.ranges.len()
        invariant
            n <= pane.sel.ranges@.len(),
            *pane == *old(pane),
            ready(*doc, *pane),
            height <= isize::MAX,
            t == doc.content(),
            want == all_go(
                t,
                pane.sel.ranges@,
                motion,
                extend,
                goal as int,
                tab_stop(tab_width),
                height,
            ),
            given@ == want.take(n as int),
        decreases pane.sel.ranges@.len() - n,
    {
        let r = pane.sel.ranges[n];
        let to = destination(&doc.rope, r, motion, extend, goal, tab_width, height);
        given.push(Range { anchor: if extend { r.anchor } else { to }, head: to });
        n = n + 1;
        assert(given@ =~= want.take(n as int));
    }
    assert(given@ =~= want);
    pane.sel = Selections::many(&given, pane.sel.primary);
    pane.goal = if vertical { Some(goal) } else { None };
}

// ---------------------------------------------------------------------------
// Moving by rows
// ---------------------------------------------------------------------------

/// Where a position is drawn: on which row of its line, and how far along.
#[derive(Clone, Copy, PartialEq, Eq, Debug, Structural)]
pub struct Drawn {
    pub row: usize,
    pub column: usize,
}

/// How many rows a motion goes, down where that is more than none.
pub open spec fn rows_gone(motion: Motion, height: usize) -> int {
    match motion {
        Motion::Up => -1,
        Motion::Down => 1,
        Motion::PageUp => -page(height),
        Motion::PageDown => page(height),
        _ => 0,
    }
}

/// The row that every cursor goes to, from the one that it is drawn on.
pub open spec fn all_step(
    t: Seq<char>,
    rs: Seq<Range>,
    layout: Layout,
    drawn: Seq<Drawn>,
    by: int,
) -> Seq<Landing> {
    Seq::new(
        rs.len(),
        |i: int|
            stepped_to(
                layout,
                line_count(t) as int,
                line_at(t, rs[i].head as int) as int,
                drawn[i].row as int,
                by,
            ),
    )
}

/// The row that moving up or down by rows of the screen takes every cursor to,
/// and the column that it keeps to. `drawn` is where each of them is drawn.
pub fn step_rows(
    doc: &Document,
    pane: &Pane,
    motion: Motion,
    height: usize,
    layout: &Layout,
    drawn: &Vec<Drawn>,
) -> (r: (Vec<Landing>, usize))
    requires
        ready(*doc, *pane),
        is_vertical(motion),
        height <= isize::MAX,
        drawn@.len() == pane.sel.ranges@.len(),
    ensures
        r.0@ == all_step(
            doc.content(),
            pane.sel.ranges@,
            *layout,
            drawn@,
            rows_gone(motion, height),
        ),
        r.1 == match pane.goal {
            Some(goal) => goal,
            None => drawn@[pane.sel.primary as int].column,
        },
{
    let ghost t = doc.content();
    let page: isize = if height >= 3 { height as isize - 2 } else { 1 };
    let by: isize = match motion {
        Motion::Up => -1,
        Motion::Down => 1,
        Motion::PageUp => -page,
        _ => page,
    };
    let goal: usize = match pane.goal {
        Some(goal) => goal,
        None => drawn[pane.sel.primary].column,
    };
    let lines = doc.rope.len_lines();
    let ghost want = all_step(t, pane.sel.ranges@, *layout, drawn@, by as int);
    let mut landings: Vec<Landing> = Vec::new();
    let mut n: usize = 0;
    while n < pane.sel.ranges.len()
        invariant
            n <= pane.sel.ranges@.len(),
            ready(*doc, *pane),
            drawn@.len() == pane.sel.ranges@.len(),
            t == doc.content(),
            lines == line_count(t),
            want == all_step(t, pane.sel.ranges@, *layout, drawn@, by as int),
            landings@ == want.take(n as int),
        decreases pane.sel.ranges@.len() - n,
    {
        let line = line_of(&doc.rope, pane.sel.ranges[n].head);
        landings.push(vertical_step(layout, lines, line, drawn[n].row, by));
        n = n + 1;
        assert(landings@ =~= want.take(n as int));
    }
    assert(landings@ =~= want);
    (landings, goal)
}

/// How many rows there are above a line.
spec fn rows_above(layout: Layout, line: int) -> int
    decreases line,
{
    if line <= 0 { 0 } else { rows_above(layout, line - 1) + layout.height(line - 1) }
}

proof fn lemma_rows_above_grow(layout: Layout, a: int, b: int)
    requires
        0 <= a <= b,
    ensures
        rows_above(layout, a) <= rows_above(layout, b),
    decreases b,
{
    if a < b {
        lemma_rows_above_grow(layout, a, b - 1);
    }
}

proof fn lemma_risen(layout: Layout, line: int, row: int)
    requires
        line >= 0,
    ensures
        match risen(layout, line, row) {
            Some((l, r)) => 0 <= l <= line && r >= 0 && rows_above(layout, l) + r == rows_above(
                layout,
                line,
            ) + row,
            None => rows_above(layout, line) + row < 0,
        },
    decreases line,
{
    if row < 0 && line > 0 {
        lemma_risen(layout, line - 1, row + layout.height(line - 1));
    }
}

proof fn lemma_fallen(layout: Layout, lines: int, line: int, row: int)
    requires
        0 <= line < lines,
        row >= 0,
    ensures
        match fallen(layout, lines, line, row) {
            Some((l, r)) => line <= l < lines && 0 <= r < layout.height(l) && rows_above(layout, l)
                + r == rows_above(layout, line) + row,
            None => rows_above(layout, line) + row >= rows_above(layout, lines),
        },
    decreases lines - line,
{
    if row >= layout.height(line) && line + 1 < lines {
        lemma_fallen(layout, lines, line + 1, row - layout.height(line));
    }
}

/// Moving by rows and as far back again returns to the row that it began on.
pub proof fn law_moving_back_by_rows_returns(
    layout: Layout,
    lines: int,
    line: int,
    row: int,
    by: int,
    to: (int, int),
)
    requires
        0 <= line < lines <= usize::MAX,
        0 <= row < layout.height(line),
        0 <= to.0 <= usize::MAX,
        0 <= to.1 <= usize::MAX,
        stepped_to(layout, lines, line, row, by) == (Landing::On {
            line: to.0 as usize,
            row: to.1 as usize,
        }),
    ensures
        stepped_to(layout, lines, to.0, to.1, -by) == (Landing::On {
            line: line as usize,
            row: row as usize,
        }),
{
    lemma_risen(layout, line, row + by);
    let (a, b) = risen(layout, line, row + by)->0;
    lemma_fallen(layout, lines, a, b);
    lemma_risen(layout, to.0, to.1 - by);
    let at = rows_above(layout, line) + row;
    lemma_rows_above_grow(layout, 0, line);
    lemma_rows_above_grow(layout, line + 1, lines);
    let (c, d) = risen(layout, to.0, to.1 - by)->0;
    lemma_fallen(layout, lines, c, d);
    let (l, r) = fallen(layout, lines, c, d)->0;
    assert(rows_above(layout, l) + r == at);
    if l < line {
        lemma_rows_above_grow(layout, l + 1, line);
    } else if l > line {
        lemma_rows_above_grow(layout, line + 1, l);
    }
}

/// Cursors, or the ends of selections, where they landed.
pub open spec fn all_land(
    rs: Seq<Range>,
    extend: bool,
    landings: Seq<Landing>,
    places: Seq<usize>,
    len: int,
) -> Seq<Range> {
    Seq::new(
        rs.len(),
        |i: int|
            {
                let to = landed_at(landings[i], places[i] as int, len) as usize;
                Range { anchor: if extend { rs[i].anchor } else { to }, head: to }
            },
    )
}

/// Put every cursor, or the end of every selection, where it landed. `places` are
/// the positions on the rows that they landed on, as near as each of those comes
/// to the column that is kept to.
pub fn land(
    doc: &Document,
    pane: &mut Pane,
    extend: bool,
    goal: usize,
    landings: &Vec<Landing>,
    places: &Vec<usize>,
)
    requires
        ready(*doc, *old(pane)),
        landings@.len() == old(pane).sel.ranges@.len(),
        places@.len() == old(pane).sel.ranges@.len(),
    ensures
        selects(
            final(pane).sel,
            all_land(
                old(pane).sel.ranges@,
                extend,
                landings@,
                places@,
                doc.content().len() as int,
            ),
            old(pane).sel.primary as int,
        ),
        final(pane).goal == Some(goal),
{
    let len = doc.rope.len_chars();
    let ghost want = all_land(pane.sel.ranges@, extend, landings@, places@, len as int);
    let mut given: Vec<Range> = Vec::new();
    let mut n: usize = 0;
    while n < pane.sel.ranges.len()
        invariant
            n <= pane.sel.ranges@.len(),
            *pane == *old(pane),
            landings@.len() == pane.sel.ranges@.len(),
            places@.len() == pane.sel.ranges@.len(),
            want == all_land(pane.sel.ranges@, extend, landings@, places@, len as int),
            given@ == want.take(n as int),
        decreases pane.sel.ranges@.len() - n,
    {
        let r = pane.sel.ranges[n];
        let to: usize = match landings[n] {
            Landing::Top => 0,
            Landing::Bottom => len,
            Landing::On { line: _, row: _ } => places[n],
        };
        given.push(Range { anchor: if extend { r.anchor } else { to }, head: to });
        n = n + 1;
        assert(given@ =~= want.take(n as int));
    }
    assert(given@ =~= want);
    pane.sel = Selections::many(&given, pane.sel.primary);
    pane.goal = Some(goal);
}

/// Stepping by rows and landing, where every line takes one row and a landing is
/// placed at the column that is kept to, is moving the cursors.
pub proof fn law_stepping_and_landing_is_moving(
    t: Seq<char>,
    rs: Seq<Range>,
    layout: Layout,
    drawn: Seq<Drawn>,
    places: Seq<usize>,
    motion: Motion,
    extend: bool,
    goal: int,
    tab: int,
    height: usize,
)
    requires
        is_vertical(motion),
        layout.rows is None,
        line_count(t) <= usize::MAX,
        drawn.len() == rs.len(),
        places.len() == rs.len(),
        forall|i: int|
            0 <= i < rs.len() ==> {
                let line = line_at(t, (#[trigger] rs[i]).head as int) + rows_gone(motion, height);
                &&& rs[i].head <= t.len()
                &&& drawn[i].row == 0
                &&& 0 <= line < line_count(t) ==> places[i] == reach(
                    t,
                    start_of_line(t, line as nat),
                    end_of_line(t, line as nat),
                    0,
                    goal,
                    tab,
                )
            },
    ensures
        all_land(
            rs,
            extend,
            all_step(t, rs, layout, drawn, rows_gone(motion, height)),
            places,
            t.len() as int,
        ) == all_go(t, rs, motion, extend, goal, tab, height),
{
    let by = rows_gone(motion, height);
    let to = all_step(t, rs, layout, drawn, by);
    let landed = all_land(rs, extend, to, places, t.len() as int);
    let gone = all_go(t, rs, motion, extend, goal, tab, height);
    assert forall|i: int| 0 <= i < rs.len() implies landed[i] == gone[i] by {
        let head = rs[i].head as int;
        lemma_line_of(t, head);
        law_one_row_for_each_line_moves_by_lines(t, layout, head, by, goal, tab);
        assert(goes_to(t, rs[i], motion, extend, goal, tab, height) == lines_away(
            t,
            head,
            by,
            goal,
            tab,
        ));
        let line = line_at(t, head) + by;
        let place = reach(
            t,
            start_of_line(t, line as nat),
            end_of_line(t, line as nat),
            0,
            goal,
            tab,
        );
        assert(to[i] == stepped_to(layout, line_count(t) as int, line_at(t, head) as int, 0, by));
        assert(landed_at(to[i], places[i] as int, t.len() as int) == landed_at(
            to[i],
            place,
            t.len() as int,
        ));
    }
    assert(landed =~= gone);
}

// ---------------------------------------------------------------------------
// Selecting
// ---------------------------------------------------------------------------

pub fn select_all(doc: &Document, pane: &mut Pane)
    ensures
        final(pane).sel.ranges@ == seq![
            Range { anchor: 0, head: doc.content().len() as usize },
        ],
        final(pane).sel.wf(),
        final(pane).goal == old(pane).goal,
{
    pane.sel = Selections::single(Range::new(0, doc.rope.len_chars()));
}

/// The lines that a range is on, or one line more where it is already exactly
/// those.
pub open spec fn line_wise(t: Seq<char>, r: Range) -> Range {
    let first = line_at(t, r.lo());
    let last = line_at(t, r.hi());
    let start = start_of_line(t, first);
    let want = if r.lo() == start && r.hi() == after_line(t, last) && last + 1 < line_count(t) {
        last + 1
    } else {
        last
    };
    Range { anchor: start as usize, head: after_line(t, want) as usize }
}

/// Select the lines that the cursors are on, and a line more each time.
pub fn select_line(doc: &Document, pane: &mut Pane)
    requires
        ready(*doc, *old(pane)),
    ensures
        selects(
            final(pane).sel,
            old(pane).sel.ranges@.map_values(|r: Range| line_wise(doc.content(), r)),
            old(pane).sel.primary as int,
        ),
        final(pane).goal == old(pane).goal,
{
    let ghost t = doc.content();
    let ghost want = pane.sel.ranges@.map_values(|r: Range| line_wise(t, r));
    let mut given: Vec<Range> = Vec::new();
    let mut n: usize = 0;
    while n < pane.sel.ranges.len()
        invariant
            n <= pane.sel.ranges@.len(),
            *pane == *old(pane),
            ready(*doc, *pane),
            t == doc.content(),
            want == pane.sel.ranges@.map_values(|r: Range| line_wise(t, r)),
            given@ == want.take(n as int),
        decreases pane.sel.ranges@.len() - n,
    {
        let r = pane.sel.ranges[n];
        let first = line_of(&doc.rope, r.start());
        let last = line_of(&doc.rope, r.end());
        let lines = doc.rope.len_lines();
        let start = line_start(&doc.rope, first);
        let want: usize = if r.start() == start && r.end() == line_after(&doc.rope, last) && last
            < lines - 1 {
            last + 1
        } else {
            last
        };
        given.push(Range::new(start, line_after(&doc.rope, want)));
        n = n + 1;
        assert(given@ =~= old(pane).sel.ranges@.map_values(|r: Range| line_wise(t, r)).take(
            n as int,
        ));
    }
    assert(given@ =~= pane.sel.ranges@.map_values(|r: Range| line_wise(t, r)));
    pane.sel = Selections::many(&given, pane.sel.primary);
}

/// The word at a position.
pub open spec fn word_at(t: Seq<char>, at: int) -> Range {
    match class_around(t, at) {
        Some(k) => Range {
            anchor: back_over(t, at, k) as usize,
            head: on_over(t, at, k) as usize,
        },
        None => Range { anchor: at as usize, head: at as usize },
    }
}

/// Ranges with the word at each that has nothing selected.
pub open spec fn word_wise(t: Seq<char>, rs: Seq<Range>) -> Seq<Range> {
    rs.map_values(|r: Range| if r.anchor == r.head { word_at(t, r.head as int) } else { r })
}

/// Select the word that each cursor is in.
pub fn select_word(doc: &Document, pane: &mut Pane)
    requires
        ready(*doc, *old(pane)),
    ensures
        selects(
            final(pane).sel,
            word_wise(doc.content(), old(pane).sel.ranges@),
            old(pane).sel.primary as int,
        ),
        final(pane).goal == old(pane).goal,
{
    let ghost t = doc.content();
    let mut given: Vec<Range> = Vec::new();
    let mut n: usize = 0;
    while n < pane.sel.ranges.len()
        invariant
            n <= pane.sel.ranges@.len(),
            *pane == *old(pane),
            ready(*doc, *pane),
            t == doc.content(),
            given@ == word_wise(t, pane.sel.ranges@).take(n as int),
        decreases pane.sel.ranges@.len() - n,
    {
        let r = pane.sel.ranges[n];
        given.push(if r.is_empty() { word_around(&doc.rope, r.head) } else { r });
        n = n + 1;
        assert(given@ =~= word_wise(t, pane.sel.ranges@).take(n as int));
    }
    assert(given@ =~= word_wise(t, pane.sel.ranges@));
    pane.sel = Selections::many(&given, pane.sel.primary);
}

/// The head furthest down, or furthest up.
pub open spec fn edge(rs: Seq<Range>, down: bool) -> int
    decreases rs.len(),
{
    if rs.len() == 0 {
        0
    } else if rs.len() == 1 {
        rs[0].head as int
    } else {
        let e = edge(rs.drop_last(), down);
        if down { most(e, rs.last().head as int) } else { least(e, rs.last().head as int) }
    }
}

/// The head of the cursor furthest down, or furthest up.
pub fn edge_head(pane: &Pane, down: bool) -> (from: usize)
    requires
        pane.sel.wf(),
    ensures
        from == edge(pane.sel.ranges@, down),
        exists|i: int|
            0 <= i < pane.sel.ranges@.len() && from == (#[trigger] pane.sel.ranges@[i]).head,
{
    let ghost rs = pane.sel.ranges@;
    let mut from: usize = pane.sel.ranges[0].head;
    let mut n: usize = 1;
    assert(rs.take(1)[0] == rs[0]);
    assert(from == rs[0].head);
    while n < pane.sel.ranges.len()
        invariant
            1 <= n <= pane.sel.ranges@.len(),
            rs == pane.sel.ranges@,
            from == edge(rs.take(n as int), down),
            exists|i: int| 0 <= i < rs.len() && from == (#[trigger] rs[i]).head,
        decreases pane.sel.ranges@.len() - n,
    {
        let head = pane.sel.ranges[n].head;
        assert(rs.take(n + 1).drop_last() =~= rs.take(n as int));
        if (down && head > from) || (!down && head < from) {
            from = head;
            assert(from == rs[n as int].head);
        }
        n = n + 1;
    }
    assert(rs.take(n as int) =~= rs);
    from
}

/// What adding a cursor on the line below the lowest, or above the highest, does
/// to a pane, where the cursor that it is added next to is drawn at a column.
pub open spec fn cursor_added(
    t: Seq<char>,
    was: Pane,
    is: Pane,
    tab: int,
    down: bool,
    column: int,
) -> bool {
    let line = line_at(t, edge(was.sel.ranges@, down)) as int;
    let target = if down { line + 1 } else { line - 1 };
    let goal = match was.goal {
        Some(goal) => goal as int,
        None => column,
    };
    let at = reach(
        t,
        start_of_line(t, target as nat),
        end_of_line(t, target as nat),
        0,
        goal,
        tab,
    ) as usize;
    if target < 0 || target >= line_count(t) {
        is == was
    } else {
        &&& selects(
            is.sel,
            was.sel.ranges@.push(Range { anchor: at, head: at }),
            was.sel.ranges@.len() as int,
        )
        &&& is.goal == Some(goal as usize)
    }
}

/// Add a cursor on the line below the lowest, or above the highest, in the column
/// that moving up and down keeps to, or else in the one that the cursor next to it
/// is drawn at.
pub fn add_cursor_in_column(
    doc: &Document,
    pane: &mut Pane,
    tab_width: usize,
    down: bool,
    column: usize,
)
    requires
        ready(*doc, *old(pane)),
    ensures
        cursor_added(
            doc.content(),
            *old(pane),
            *final(pane),
            tab_stop(tab_width),
            down,
            column as int,
        ),
{
    let ghost rs = pane.sel.ranges@;
    let from = edge_head(pane, down);
    let line = line_of(&doc.rope, from);
    if (down && line >= doc.rope.len_lines() - 1) || (!down && line == 0) {
        return;
    }
    let goal: usize = match pane.goal {
        Some(goal) => goal,
        None => column,
    };
    let target: usize = if down { line + 1 } else { line - 1 };
    let at = char_at_column(&doc.rope, target, goal, tab_width);
    pane.sel.push(Range::point(at));
    pane.goal = Some(goal);
    assert(rs.push(Range { anchor: at, head: at })[rs.len() as int].lo() == at);
}

/// Add a cursor on the line below the lowest, or above the highest, in the
/// column that moving up and down keeps to, where the text is drawn as it is.
pub fn add_cursor_vertically(doc: &Document, pane: &mut Pane, tab_width: usize, down: bool)
    requires
        ready(*doc, *old(pane)),
    ensures
        ({
            let t = doc.content();
            let tab = tab_stop(tab_width);
            let from = edge(old(pane).sel.ranges@, down);
            cursor_added(t, *old(pane), *final(pane), tab, down, column_at(t, from, tab))
        }),
{
    let from = edge_head(pane, down);
    let column = visual_column(&doc.rope, from, tab_width);
    add_cursor_in_column(doc, pane, tab_width, down, column);
}

// ---------------------------------------------------------------------------
// Finding
// ---------------------------------------------------------------------------

pub open spec fn is_taken(taken: Seq<usize>, len: int, i: int) -> bool {
    exists|k: int| 0 <= k < taken.len() && least(#[trigger] taken[k] as int, len) == i
}

/// The first place from `i` on, and before `limit`, where a text is found
/// that is not taken.
pub open spec fn free_match(
    t: Seq<char>,
    needle: Seq<char>,
    i: int,
    taken: Seq<usize>,
    limit: int,
) -> Option<int>
    decreases t.len() - i,
    when needle.len() > 0 && i >= 0
    via free_match_ends
{
    match next_match(t, needle, i) {
        None => None,
        Some(f) => {
            if f >= limit {
                None
            } else if is_taken(taken, t.len() as int, f) {
                free_match(t, needle, f + needle.len(), taken, limit)
            } else {
                Some(f)
            }
        },
    }
}

#[via_fn]
proof fn free_match_ends(
    t: Seq<char>,
    needle: Seq<char>,
    i: int,
    taken: Seq<usize>,
    limit: int,
) {
    lemma_next_match(t, needle, i);
}

/// Where a text is found: from a position on, and then, going round, from the
/// start up to it.
pub open spec fn found(t: Seq<char>, needle: Seq<char>, from: int, taken: Seq<usize>, wrap: bool) -> Option<
    int,
> {
    let start = least(from, t.len() as int);
    if needle.len() == 0 {
        None
    } else {
        match free_match(t, needle, start, taken, t.len() as int + 1) {
            Some(f) => Some(f),
            None => if wrap { free_match(t, needle, 0, taken, start) } else { None },
        }
    }
}

fn in_taken(taken: &Vec<usize>, len: usize, i: usize) -> (yes: bool)
    ensures
        yes == is_taken(taken@, len as int, i as int),
{
    let mut k: usize = 0;
    while k < taken.len()
        invariant
            k <= taken@.len(),
            forall|j: int| 0 <= j < k ==> least(#[trigger] taken@[j] as int, len as int) != i,
        decreases taken@.len() - k,
    {
        let at = taken[k];
        if (if at <= len { at } else { len }) == i {
            assert(least(taken@[k as int] as int, len as int) == i);
            return true;
        }
        k = k + 1;
    }
    false
}

fn find_free(text: &Vec<char>, needle: &Vec<char>, from: usize, taken: &Vec<usize>, limit: usize, ends: bool) -> (r: Option<
    usize,
>)
    requires
        needle@.len() > 0,
        from <= text@.len(),
    ensures
        match free_match(
            text@,
            needle@,
            from as int,
            taken@,
            if ends { limit as int } else { text@.len() as int + 1 },
        ) {
            Some(f) => r == Some(f as usize) && 0 <= f && f + needle@.len() <= text@.len(),
            None => r is None,
        },
{
    let ghost stop = if ends { limit as int } else { text@.len() as int + 1 };
    let mut at: usize = from;
    let _len = text.len();
    loop
        invariant
            needle@.len() > 0,
            at <= text@.len(),
            _len == text@.len(),
            stop == if ends { limit as int } else { text@.len() as int + 1 },
            free_match(text@, needle@, from as int, taken@, stop) == free_match(
                text@,
                needle@,
                at as int,
                taken@,
                stop,
            ),
        decreases text@.len() - at,
    {
        proof {
            lemma_next_match(text@, needle@, at as int);
        }
        match find_next(text, needle, at) {
            None => {
                return None;
            },
            Some(f) => {
                if ends && f >= limit {
                    return None;
                }
                if !in_taken(taken, text.len(), f) {
                    return Some(f);
                }
                at = f + needle.len();
            },
        }
    }
}

/// Find a text from a position on, skipping the places that are taken.
pub fn find_from(
    text: &Vec<char>,
    needle: &Vec<char>,
    from: usize,
    taken: &Vec<usize>,
    wrap: bool,
) -> (r: Option<usize>)
    ensures
        match found(text@, needle@, from as int, taken@, wrap) {
            Some(f) => r == Some(f as usize) && 0 <= f && f + needle@.len() <= text@.len(),
            None => r is None,
        },
{
    if needle.len() == 0 {
        return None;
    }
    let len = text.len();
    let start: usize = if from <= len { from } else { len };
    match find_free(text, needle, start, taken, 0, false) {
        Some(f) => Some(f),
        None => if wrap { find_free(text, needle, 0, taken, start, true) } else { None },
    }
}

pub open spec fn starts(rs: Seq<Range>) -> Seq<usize> {
    rs.map_values(|r: Range| r.lo() as usize)
}

/// Select the next copy of what the primary cursor has selected, as well. The
/// first time, with nothing selected, that is the word.
pub fn add_cursor_next_match(doc: &Document, pane: &mut Pane) -> (yes: bool)
    requires
        ready(*doc, *old(pane)),
    ensures
        final(pane).goal == old(pane).goal,
        ({
            let t = doc.content();
            let rs = old(pane).sel.ranges@;
            let primary = rs[old(pane).sel.primary as int];
            let needle = selected(t, primary);
            if !some_selected(old(pane).sel) {
                yes && selects(final(pane).sel, word_wise(t, rs), old(pane).sel.primary as int)
            } else {
                match found(t, needle, primary.hi(), starts(rs), true) {
                    None => !yes && *final(pane) == *old(pane),
                    Some(at) => yes && selects(
                        final(pane).sel,
                        rs.push(
                            Range { anchor: at as usize, head: (at + needle.len()) as usize },
                        ),
                        rs.len() as int,
                    ),
                }
            }
        }),
{
    if !any_selected(&pane.sel) {
        select_word(doc, pane);
        return true;
    }
    let ghost rs = pane.sel.ranges@;
    let primary = pane.sel.primary();
    let needle = chars_of(doc.slice(primary).as_str());
    let text = chars_of(doc.text().as_str());
    let mut taken: Vec<usize> = Vec::new();
    let mut n: usize = 0;
    while n < pane.sel.ranges.len()
        invariant
            n <= pane.sel.ranges@.len(),
            *pane == *old(pane),
            rs == pane.sel.ranges@,
            taken@ == starts(rs).take(n as int),
        decreases pane.sel.ranges@.len() - n,
    {
        taken.push(pane.sel.ranges[n].start());
        n = n + 1;
        assert(taken@ =~= starts(rs).take(n as int));
    }
    assert(taken@ =~= starts(rs));
    let _len = text.len();
    match find_from(&text, &needle, primary.end(), &taken, true) {
        None => false,
        Some(at) => {
            let more = Range::new(at, at + needle.len());
            pane.sel.push(more);
            assert(rs.push(more)[rs.len() as int] == more);
            true
        },
    }
}

/// Every place from `i` on where a text is found, none overlapping the one
/// before.
pub open spec fn all_matches(t: Seq<char>, needle: Seq<char>, i: int) -> Seq<Range>
    decreases t.len() - i,
    when needle.len() > 0 && i >= 0
    via all_matches_end
{
    match next_match(t, needle, i) {
        None => Seq::empty(),
        Some(f) => seq![
            Range { anchor: f as usize, head: (f + needle.len()) as usize },
        ] + all_matches(t, needle, f + needle.len()),
    }
}

#[via_fn]
proof fn all_matches_end(t: Seq<char>, needle: Seq<char>, i: int) {
    lemma_next_match(t, needle, i);
}

/// What selecting every copy does: `mid` is what is looked for, which is the
/// word where nothing was selected.
pub open spec fn all_selected(
    t: Seq<char>,
    was: Selections,
    mid: Selections,
    is: Selections,
    count: int,
) -> bool {
    let needle = selected(t, mid.ranges@[mid.primary as int]);
    let all = all_matches(t, needle, 0);
    &&& if some_selected(was) {
        mid == was
    } else {
        selects(mid, word_wise(t, was.ranges@), was.primary as int)
    }
    &&& if needle.len() == 0 || all.len() == 0 {
        count == 0 && is == mid
    } else {
        count == all.len() && selects(is, all, 0)
    }
}

/// Select every copy of what the primary cursor has selected, and say how
/// many there are. With nothing selected, that is the word.
pub fn select_all_matches(doc: &Document, pane: &mut Pane) -> (count: usize)
    requires
        ready(*doc, *old(pane)),
    ensures
        final(pane).goal == old(pane).goal,
        exists|mid: Selections| #[trigger]
            all_selected(doc.content(), old(pane).sel, mid, final(pane).sel, count as int),
{
    if !any_selected(&pane.sel) {
        select_word(doc, pane);
    }
    let ghost mid = pane.sel;
    let ghost t = doc.content();
    assert(some_selected(old(pane).sel) || selects(
        mid,
        word_wise(t, old(pane).sel.ranges@),
        old(pane).sel.primary as int,
    ));
    let needle = chars_of(doc.slice(pane.sel.primary()).as_str());
    if needle.len() == 0 {
        assert(all_selected(t, old(pane).sel, mid, pane.sel, 0));
        return 0;
    }
    let text = chars_of(doc.text().as_str());
    let mut ranges: Vec<Range> = Vec::new();
    let mut at: usize = 0;
    let _len = text.len();
    assert(ranges@ + all_matches(t, needle@, 0) =~= all_matches(t, needle@, 0));
    loop
        invariant
            needle@.len() > 0,
            text@ == t,
            _len == text@.len(),
            at <= text@.len(),
            all_matches(t, needle@, 0) == ranges@ + all_matches(t, needle@, at as int),
        ensures
            all_matches(t, needle@, 0) == ranges@,
        decreases text@.len() - at,
    {
        proof {
            lemma_next_match(t, needle@, at as int);
        }
        match find_next(&text, &needle, at) {
            None => {
                assert(ranges@ + all_matches(t, needle@, at as int) =~= ranges@);
                break;
            },
            Some(f) => {
                let r = Range::new(f, f + needle.len());
                let ghost was = ranges@;
                ranges.push(r);
                at = f + needle.len();
                assert(was + (seq![r] + all_matches(t, needle@, at as int)) =~= ranges@
                    + all_matches(t, needle@, at as int));
            },
        }
    }
    if ranges.len() == 0 {
        assert(all_selected(t, old(pane).sel, mid, pane.sel, 0));
        return 0;
    }
    let count = ranges.len();
    pane.sel = Selections::many(&ranges, 0);
    assert(all_selected(t, old(pane).sel, mid, pane.sel, count as int));
    count
}

// ---------------------------------------------------------------------------
// A cursor at the end of every line
// ---------------------------------------------------------------------------

pub open spec fn line_ends(t: Seq<char>, from: int, to: int) -> Seq<Range>
    decreases to - from,
{
    if to <= from {
        Seq::empty()
    } else {
        let at = end_of_line(t, (to - 1) as nat) as usize;
        line_ends(t, from, to - 1).push(Range { anchor: at, head: at })
    }
}

pub open spec fn all_line_ends(t: Seq<char>, spans: Seq<(int, int)>) -> Seq<Range>
    decreases spans.len(),
{
    if spans.len() == 0 {
        Seq::empty()
    } else {
        all_line_ends(t, spans.drop_last()) + line_ends(t, spans.last().0, spans.last().1 + 1)
    }
}

/// Put a cursor at the end of every line that is selected.
pub fn cursors_to_line_ends(doc: &Document, pane: &mut Pane)
    requires
        ready(*doc, *old(pane)),
    ensures
        ({
            let all = all_line_ends(
                doc.content(),
                touched(doc.content(), old(pane).sel.ranges@),
            );
            if all.len() == 0 {
                *final(pane) == *old(pane)
            } else {
                selects(final(pane).sel, all, 0) && final(pane).goal == old(pane).goal
            }
        }),
{
    let ghost t = doc.content();
    let spans = touched_lines(&doc.rope, &pane.sel);
    let ghost ss = whole(spans@);
    let mut ranges: Vec<Range> = Vec::new();
    let mut n: usize = 0;
    assert(ranges@ =~= all_line_ends(t, ss.take(0)));
    while n < spans.len()
        invariant
            n <= spans@.len(),
            t == doc.content(),
            ss == whole(spans@),
            spans_ok(t, ss),
            ranges@ == all_line_ends(t, ss.take(n as int)),
        decreases spans@.len() - n,
    {
        let (first, last) = spans[n];
        assert(ss[n as int] == (first as int, last as int));
        let _lines = doc.rope.len_lines();
        let ghost base = ranges@;
        let mut line: usize = first;
        assert(base + line_ends(t, first as int, first as int) =~= base);
        while line <= last
            invariant
                first <= line <= last + 1,
                last < _lines,
                t == doc.content(),
                ranges@ == base + line_ends(t, first as int, line as int),
            decreases last + 1 - line,
        {
            ranges.push(Range::point(line_end(&doc.rope, line)));
            assert(ranges@ =~= base + line_ends(t, first as int, line + 1));
            line = line + 1;
        }
        assert(ss.take(n + 1).drop_last() =~= ss.take(n as int));
        n = n + 1;
    }
    assert(ss.take(n as int) =~= ss);
    if ranges.len() > 0 {
        pane.sel = Selections::many(&ranges, 0);
    }
}

/// The byte that a grammar is asked about to find the bracket matching the one
/// at a position. Past the end of the text it is the end that is asked about.
pub fn bracket_byte(doc: &Document, at: usize) -> (byte: usize)
    ensures
        ({
            let t = rope_text(doc.rope);
            byte == bytes_before(t, if at <= t.len() { at as int } else { t.len() as int })
        }),
{
    let len = doc.rope.len_chars();
    doc.rope.char_to_byte(if at <= len { at } else { len })
}

/// Where the bracket is that a grammar found to match, as a position. `found`
/// is the byte that it begins with.
pub fn match_bracket(doc: &Document, found: Option<usize>) -> (r: Option<usize>)
    requires
        match found {
            Some(byte) => byte <= bytes_before(
                rope_text(doc.rope),
                rope_text(doc.rope).len() as int,
            ),
            None => true,
        },
    ensures
        match found {
            Some(byte) => r is Some && is_at_byte(rope_text(doc.rope), byte as int, r->0 as int),
            None => r is None,
        },
{
    match found {
        Some(byte) => Some(doc.rope.byte_to_char(byte)),
        None => None,
    }
}

/// A position has one byte and a byte has one position: asking about a
/// character's own byte finds that character again.
pub proof fn law_a_byte_belongs_to_one_character(t: Seq<char>, at: int, i: int)
    requires
        0 <= at <= t.len(),
        is_at_byte(t, bytes_before(t, at) as int, i),
    ensures
        i == at,
{
    if i < at {
        lemma_bytes_grow(t, i + 1, at);
    } else if at < i {
        lemma_bytes_grow(t, at, i);
    }
}

// ---------------------------------------------------------------------------
// Where a cursor goes
// ---------------------------------------------------------------------------

/// Whether a position is the one on a line that is drawn at a column, or as near
/// before it as the line comes.
pub open spec fn is_at_column(t: Seq<char>, line: nat, at: int, goal: int, tab: int) -> bool {
    let (start, end) = (start_of_line(t, line), end_of_line(t, line));
    &&& start <= at <= end
    &&& column_of(t, start, at, tab) <= goal
    &&& at < end ==> column_of(t, start, at + 1, tab) > goal
}

/// Moving up or down by lines goes to that line, at the column that is kept to, or
/// to the beginning or the end of the text where there is no such line.
pub proof fn law_moving_by_lines_keeps_the_column(t: Seq<char>, at: int, by: int, goal: int, tab: int)
    requires
        goal >= 0,
    ensures
        ({
            let line = line_at(t, at) + by;
            let to = lines_away(t, at, by, goal, tab);
            if line < 0 {
                to == 0
            } else if line >= line_count(t) {
                to == t.len()
            } else {
                is_at_column(t, line as nat, to, goal, tab)
            }
        }),
{
    let line = line_at(t, at) + by;
    if 0 <= line < line_count(t) {
        let (start, end) = (start_of_line(t, line as nat), end_of_line(t, line as nat));
        lemma_line_bounds(t, line as nat);
        lemma_reaches(t, start, start, end, goal, tab);
    }
}

/// Where a cursor goes, motion by motion. One with something selected goes to the
/// end of it that the motion is towards, unless it is to be extended. Up and down
/// are a line, and a page is two lines less than are seen. The beginning of a line
/// is where its text begins, or the margin for a cursor that is there already.
pub proof fn law_a_cursor_goes_where_the_motion_says(
    t: Seq<char>,
    r: Range,
    extend: bool,
    goal: int,
    tab: int,
    height: usize,
)
    requires
        r.anchor <= t.len(),
        r.head <= t.len(),
    ensures
        ({
            let to = |m: Motion| goes_to(t, r, m, extend, goal, tab, height);
            let picked = !extend && r.anchor != r.head;
            let (lo, hi) = (
                if r.anchor <= r.head { r.anchor as int } else { r.head as int },
                if r.anchor <= r.head { r.head as int } else { r.anchor as int },
            );
            let head = r.head as int;
            let (left, right) = if picked { (lo, hi) } else { (head, head) };
            let far = if height >= 3 { height - 2 } else { 1 };
            &&& to(Motion::Left) == if picked { lo } else if head > 0 { head - 1 } else { 0 }
            &&& to(Motion::Right) == if picked {
                hi
            } else if head < t.len() {
                head + 1
            } else {
                head
            }
            &&& is_word_back(t, to(Motion::WordLeft), left)
            &&& is_word_on(t, right, to(Motion::WordRight))
            &&& to(Motion::LineEnd) == end_of_line(t, line_at(t, right))
            &&& to(Motion::DocStart) == 0
            &&& to(Motion::DocEnd) == t.len()
            &&& to(Motion::Up) == lines_away(t, head, -1, goal, tab)
            &&& to(Motion::Down) == lines_away(t, head, 1, goal, tab)
            &&& to(Motion::PageUp) == lines_away(t, head, -far, goal, tab)
            &&& to(Motion::PageDown) == lines_away(t, head, far, goal, tab)
            &&& is_home(t, left, to(Motion::LineStart))
        }),
{
    let picked = !extend && r.anchor != r.head;
    let left = if picked { r.lo() } else { r.head as int };
    let right = if picked { r.hi() } else { r.head as int };
    law_a_word_is_a_run_of_one_kind(t, left);
    law_a_word_is_a_run_of_one_kind(t, right);
    let line = line_at(t, left);
    lemma_line_bounds(t, line);
    lemma_past(t, start_of_line(t, line), end_of_line(t, line));
}

/// Whether a position is the beginning of the line that another is on: the first
/// character of it that is no indentation, or the margin for one that is there.
pub open spec fn is_home(t: Seq<char>, from: int, to: int) -> bool {
    let line = line_at(t, from);
    let (start, end) = (start_of_line(t, line), end_of_line(t, line));
    exists|text: int|
        {
            &&& start <= text <= end
            &&& forall|i: int| start <= i < text ==> crate::text::is_indent(#[trigger] t[i])
            &&& text < end ==> !crate::text::is_indent(#[trigger] t[text])
            &&& to == if from == text { start } else { text }
        }
}

/// Every cursor goes where its motion says, and its anchor goes with it unless what is
/// selected is to be extended.
pub proof fn law_extending_keeps_the_anchor(
    t: Seq<char>,
    rs: Seq<Range>,
    motion: Motion,
    extend: bool,
    goal: int,
    tab: int,
    height: usize,
    i: int,
)
    requires
        0 <= i < rs.len(),
        0 <= goes_to(t, rs[i], motion, extend, goal, tab, height) <= usize::MAX,
    ensures
        ({
            let now = all_go(t, rs, motion, extend, goal, tab, height);
            &&& now.len() == rs.len()
            &&& now[i].head == goes_to(t, rs[i], motion, extend, goal, tab, height)
            &&& now[i].anchor == if extend { rs[i].anchor } else { now[i].head }
        }),
{
}

/// Selecting lines selects whole lines: all of those that a range is on, and one more
/// where it is those already and there is one.
pub proof fn law_selected_lines_are_whole(t: Seq<char>, r: Range)
    requires
        r.hi() <= t.len() <= usize::MAX,
    ensures
        ({
            let now = line_wise(t, r);
            let (first, last) = (line_at(t, r.lo()), line_at(t, r.hi()));
            let all = r.lo() == start_of_line(t, first) && r.hi() == start_of_line(t, last + 1);
            &&& now.anchor == start_of_line(t, first)
            &&& now.head == start_of_line(
                t,
                if all && last + 1 < line_count(t) { last + 2 } else { last + 1 },
            )
        }),
{
    lemma_line_bounds(t, line_at(t, r.lo()));
    lemma_line_bounds(t, line_at(t, r.hi()));
    lemma_line_bounds(t, line_at(t, r.hi()) + 1);
}

// ---------------------------------------------------------------------------
// What is found
// ---------------------------------------------------------------------------

/// What is found is the first place from where it is looked for on, and where nothing
/// is found there is none.
pub proof fn law_the_first_copy_is_found(t: Seq<char>, needle: Seq<char>, i: int, k: int)
    requires
        0 <= i <= k,
        k + needle.len() <= t.len(),
        t.subrange(k, k + needle.len()) == needle,
    ensures
        next_match(t, needle, i) is Some,
        i <= next_match(t, needle, i)->0 <= k,
        ({
            let f = next_match(t, needle, i)->0;
            t.subrange(f, f + needle.len()) == needle
        }),
    decreases k - i,
{
    lemma_next_match(t, needle, i);
    if i < k && !crate::strings::match_at(t, needle, i) {
        law_the_first_copy_is_found(t, needle, i + 1, k);
    }
}

proof fn lemma_free_match(t: Seq<char>, needle: Seq<char>, i: int, taken: Seq<usize>, limit: int)
    requires
        needle.len() > 0,
        0 <= i,
    ensures
        match free_match(t, needle, i, taken, limit) {
            Some(f) => i <= f < limit && f + needle.len() <= t.len() && t.subrange(
                f,
                f + needle.len(),
            ) == needle && !is_taken(taken, t.len() as int, f),
            None => true,
        },
    decreases t.len() - i,
{
    lemma_next_match(t, needle, i);
    if let Some(f) = next_match(t, needle, i) {
        if f < limit && is_taken(taken, t.len() as int, f) {
            lemma_free_match(t, needle, f + needle.len(), taken, limit);
        }
    }
}

/// What is looked for and found reads the same, begins where nothing is selected yet,
/// and comes after where the search began, or before it where it goes round.
pub proof fn law_what_is_found_reads_the_same(
    t: Seq<char>,
    needle: Seq<char>,
    from: int,
    taken: Seq<usize>,
    wrap: bool,
)
    requires
        0 <= from <= t.len(),
    ensures
        match found(t, needle, from, taken, wrap) {
            Some(f) => {
                &&& 0 <= f && f + needle.len() <= t.len()
                &&& t.subrange(f, f + needle.len()) == needle
                &&& !is_taken(taken, t.len() as int, f)
                &&& from <= f || wrap
            },
            None => true,
        },
{
    if needle.len() > 0 {
        lemma_free_match(t, needle, from, taken, t.len() as int + 1);
        lemma_free_match(t, needle, 0, taken, from);
    }
}

/// Selecting every copy selects copies, in order and apart, and leaves none out that
/// does not reach into one that is selected.
pub proof fn law_every_copy_is_selected(t: Seq<char>, needle: Seq<char>, i: int, k: int)
    requires
        needle.len() > 0,
        0 <= i <= k,
        k + needle.len() <= t.len() <= usize::MAX,
        t.subrange(k, k + needle.len()) == needle,
    ensures
        exists|j: int|
            0 <= j < all_matches(t, needle, i).len() && (#[trigger] all_matches(t, needle, i)[j]).anchor
                <= k < all_matches(t, needle, i)[j].head,
    decreases t.len() - i,
{
    law_the_first_copy_is_found(t, needle, i, k);
    let f = next_match(t, needle, i)->0;
    let all = all_matches(t, needle, i);
    let rest = all_matches(t, needle, f + needle.len());
    if k < f + needle.len() {
        assert(all[0].anchor <= k < all[0].head);
    } else {
        law_every_copy_is_selected(t, needle, f + needle.len(), k);
        let j = choose|j: int| 0 <= j < rest.len() && (#[trigger] rest[j]).anchor <= k < rest[j].head;
        assert(all[j + 1] == rest[j]);
    }
}

/// What is selected as a copy reads the same.
pub proof fn law_a_selected_copy_reads_the_same(t: Seq<char>, needle: Seq<char>, i: int, j: int)
    requires
        needle.len() > 0,
        0 <= i,
        t.len() <= usize::MAX,
        0 <= j < all_matches(t, needle, i).len(),
    ensures
        ({
            let r = all_matches(t, needle, i)[j];
            &&& i <= r.anchor <= r.head <= t.len()
            &&& t.subrange(r.anchor as int, r.head as int) == needle
        }),
    decreases t.len() - i,
{
    lemma_next_match(t, needle, i);
    let f = next_match(t, needle, i)->0;
    if j > 0 {
        law_a_selected_copy_reads_the_same(t, needle, f + needle.len(), j - 1);
    }
}

/// A cursor that is added goes onto the line below the lowest one, or above the highest
/// one, at the column that is kept to, and the others stay. Where there is no such line
/// none is added.
pub proof fn law_a_cursor_is_added_on_the_next_line(
    t: Seq<char>,
    was: Pane,
    is: Pane,
    tab: int,
    down: bool,
    column: int,
)
    requires
        cursor_added(t, was, is, tab, down, column),
        column >= 0,
        t.len() <= usize::MAX,
        tab >= 1,
    ensures
        ({
            let line = line_at(t, edge(was.sel.ranges@, down)) + if down { 1int } else { -1int };
            if 0 <= line < line_count(t) {
                exists|at: usize|
                    {
                        &&& #[trigger] selects(
                            is.sel,
                            was.sel.ranges@.push(Range { anchor: at, head: at }),
                            was.sel.ranges@.len() as int,
                        )
                        &&& is_at_column(
                            t,
                            line as nat,
                            at as int,
                            match was.goal {
                                Some(goal) => goal as int,
                                None => column,
                            },
                            tab,
                        )
                    }
            } else {
                is == was
            }
        }),
{
    let line = line_at(t, edge(was.sel.ranges@, down)) + if down { 1int } else { -1int };
    let goal = match was.goal {
        Some(goal) => goal as int,
        None => column,
    };
    if 0 <= line < line_count(t) {
        let (start, end) = (start_of_line(t, line as nat), end_of_line(t, line as nat));
        lemma_line_bounds(t, line as nat);
        lemma_reaches(t, start, start, end, goal, tab);
        let at = reach(t, start, end, 0, goal, tab) as usize;
        assert(is_at_column(t, line as nat, at as int, goal, tab));
    }
}

/// The cursor that another is added next to is the lowest, or the highest.
pub proof fn law_the_edge_is_the_furthest_cursor(rs: Seq<Range>, down: bool, i: int)
    requires
        0 <= i < rs.len(),
    ensures
        down ==> rs[i].head <= edge(rs, down),
        !down ==> rs[i].head >= edge(rs, down),
        exists|k: int| 0 <= k < rs.len() && (#[trigger] rs[k]).head == edge(rs, down),
    decreases rs.len(),
{
    if rs.len() > 1 {
        let less = rs.drop_last();
        law_the_edge_is_the_furthest_cursor(less, down, if i < less.len() { i } else { 0 });
        let k = choose|k: int| 0 <= k < less.len() && (#[trigger] less[k]).head == edge(less, down);
        assert(rs[k] == less[k]);
        assert(rs[rs.len() - 1] == rs.last());
        if i < less.len() {
            assert(less[i] == rs[i]);
        }
    } else {
        assert(rs[0].head == edge(rs, down));
    }
}

} // verus!
