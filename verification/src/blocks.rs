//! The commands that rewrite blocks of lines: indenting, and commenting out.
use vstd::prelude::*;

use crate::align::ints;
use crate::change::{patches, Change, Patch};
use crate::chars::{chars_of, string_of};
use crate::doc::{AppliedEdit, Document};
use crate::edit::{
    any_selected, level, level_of, perform, performed, planned, ready, some_selected, Act, Command,
};
use crate::indent::Indent;
use crate::lines::{commit, committed, spans_ok, touched, touched_lines, whole};
use crate::pane::Pane;
use crate::rope::{line_at, rope_text, start_of_line};
use crate::text::{
    all_blank, char_at, char_at_column, column_of, end_of_line, first_non_blank,
    is_blank, least, lemma_line_bounds, lemma_text_of_line, line_end, line_start, reach,
    tab_stop, text_of_line, visual_column,
};

verus! {

// ---------------------------------------------------------------------------
// Indenting
// ---------------------------------------------------------------------------

/// How far one level of indentation reaches from `at`: so many spaces, or a
/// tab.
pub open spec fn outdent_stop(t: Seq<char>, at: int, end: int, left: int) -> int
    decreases end - at,
{
    if at < end && left > 0 && t[at] == ' ' {
        outdent_stop(t, at + 1, end, left - 1)
    } else if at < end && left > 0 && t[at] == '\t' {
        at + 1
    } else {
        at
    }
}

/// What indenting or outdenting does to one line. An empty line is left alone
/// among others.
pub open spec fn indent_change(
    t: Seq<char>,
    line: int,
    alone: bool,
    out: bool,
    unit: Seq<char>,
    width: int,
) -> Option<Patch> {
    let start = start_of_line(t, line as nat);
    let end = end_of_line(t, line as nat);
    let stop = outdent_stop(t, start, end, width);
    if out {
        if stop > start {
            Some(Patch { from: start, to: stop, text: Seq::empty() })
        } else {
            None
        }
    } else if start < end || alone {
        Some(Patch { from: start, to: start, text: unit })
    } else {
        None
    }
}

pub open spec fn with(cs: Seq<Patch>, c: Option<Patch>) -> Seq<Patch> {
    match c {
        Some(c) => cs.push(c),
        None => cs,
    }
}

/// The same for the lines from `from` up to `to`.
pub open spec fn indent_lines(
    t: Seq<char>,
    from: int,
    to: int,
    alone: bool,
    out: bool,
    unit: Seq<char>,
    width: int,
) -> Seq<Patch>
    decreases to - from,
{
    if to <= from {
        Seq::empty()
    } else {
        with(
            indent_lines(t, from, to - 1, alone, out, unit, width),
            indent_change(t, to - 1, alone, out, unit, width),
        )
    }
}

/// The same for spans of lines.
pub open spec fn indents(
    t: Seq<char>,
    spans: Seq<(int, int)>,
    out: bool,
    unit: Seq<char>,
    width: int,
) -> Seq<Patch>
    decreases spans.len(),
{
    if spans.len() == 0 {
        Seq::empty()
    } else {
        let s = spans.last();
        indents(t, spans.drop_last(), out, unit, width) + indent_lines(
            t,
            s.0,
            s.1 + 1,
            s.0 == s.1,
            out,
            unit,
            width,
        )
    }
}

fn indent_one(
    rope: &ropey::Rope,
    line: usize,
    alone: bool,
    out: bool,
    unit: &String,
    width: usize,
) -> (c: Option<Change>)
    ensures
        match indent_change(rope_text(*rope), line as int, alone, out, unit@, width as int) {
            Some(p) => c is Some && c->0@ == p,
            None => c is None,
        },
{
    let ghost t = rope_text(*rope);
    proof {
        lemma_line_bounds(t, line as nat);
    }
    let start = line_start(rope, line);
    let end = line_end(rope, line);
    if out {
        let mut left: usize = width;
        let mut at: usize = start;
        while at < end && left > 0 && rope.char(at) == ' '
            invariant
                t == rope_text(*rope),
                start <= at <= end <= t.len(),
                outdent_stop(t, start as int, end as int, width as int) == outdent_stop(
                    t,
                    at as int,
                    end as int,
                    left as int,
                ),
            decreases end - at,
        {
            left = left - 1;
            at = at + 1;
        }
        if at < end && left > 0 && rope.char(at) == '\t' {
            at = at + 1;
        }
        if at > start {
            Some(Change::delete(start, at))
        } else {
            None
        }
    } else if start < end || alone {
        Some(Change::insert(start, unit.clone()))
    } else {
        None
    }
}

/// What indenting, or taking a level off, does to a document and a pane.
pub open spec fn lines_indented(
    was: Document,
    is: Document,
    before: Pane,
    after: Pane,
    tab_width: usize,
    out: bool,
    now: u64,
    edits: Seq<AppliedEdit>,
) -> bool {
    let t = was.content();
    let width = level(was.indent, tab_width) as int;
    if !out && !some_selected(before.sel) {
        let act = Act::Tab { tabs: was.indent == Indent::Tabs, width, tab_width };
        performed(was, is, before, after, false, act, now, edits)
    } else {
        let cs = indents(t, touched(t, before.sel.ranges@), out, was.indent.written(), width);
        committed(was, is, before, after, planned(cs), false, now, edits)
    }
}

/// Indent the lines that are selected, or take a level off. With nothing
/// selected, fill up to the next stop.
pub fn indent(doc: &mut Document, pane: &mut Pane, tab_width: usize, out: bool, now: u64) -> (edits: Vec<
    AppliedEdit,
>)
    requires
        ready(*old(doc), *old(pane)),
    ensures
        lines_indented(
            *old(doc),
            *final(doc),
            *old(pane),
            *final(pane),
            tab_width,
            out,
            now,
            edits@,
        ),
{
    let ghost t = doc.content();
    let width = level_of(doc.indent, tab_width);
    if !out && !any_selected(&pane.sel) {
        let tabs = match doc.indent {
            Indent::Tabs => true,
            Indent::Spaces(_) => false,
        };
        let command = Command::Tab { tabs, width, tab_width };
        return perform(doc, pane, false, &command, now);
    }
    let unit = doc.indent.unit();
    let spans = touched_lines(&doc.rope, &pane.sel);
    let ghost ss = whole(spans@);
    let ghost u = unit@;
    let mut changes: Vec<Change> = Vec::new();
    let mut n: usize = 0;
    assert(patches(changes@) =~= indents(t, ss.take(0), out, u, width as int));
    while n < spans.len()
        invariant
            n <= spans@.len(),
            t == doc.content(),
            ss == whole(spans@),
            u == unit@,
            spans_ok(t, ss),
            patches(changes@) == indents(t, ss.take(n as int), out, u, width as int),
        decreases spans@.len() - n,
    {
        let (first, last) = spans[n];
        assert(ss[n as int] == (first as int, last as int));
        let alone = first == last;
        let _lines = doc.rope.len_lines();
        let ghost base = indents(t, ss.take(n as int), out, u, width as int);
        let mut line: usize = first;
        assert(base + indent_lines(t, first as int, first as int, alone, out, u, width as int)
            =~= base);
        while line <= last
            invariant
                first <= line <= last + 1,
                last < _lines,
                t == doc.content(),
                u == unit@,
                patches(changes@) == base + indent_lines(
                    t,
                    first as int,
                    line as int,
                    alone,
                    out,
                    u,
                    width as int,
                ),
            decreases last + 1 - line,
        {
            let ghost was = changes@;
            match indent_one(&doc.rope, line, alone, out, &unit, width) {
                Some(c) => {
                    changes.push(c);
                    assert(patches(changes@) =~= patches(was).push(c@));
                },
                None => {},
            }
            proof {
                assert(patches(changes@) =~= base + indent_lines(
                    t,
                    first as int,
                    line + 1,
                    alone,
                    out,
                    u,
                    width as int,
                ));
            }
            line = line + 1;
        }
        proof {
            assert(ss.take(n + 1).drop_last() =~= ss.take(n as int));
        }
        n = n + 1;
    }
    assert(ss.take(n as int) =~= ss);
    commit(doc, pane, changes, false, now)
}

// ---------------------------------------------------------------------------
// Commenting out
// ---------------------------------------------------------------------------

/// The lines from `from` up to `to` that have something on them.
pub open spec fn seen_between(t: Seq<char>, from: int, to: int) -> Seq<int>
    decreases to - from,
{
    if to <= from {
        Seq::empty()
    } else if blank_line(t, to - 1) {
        seen_between(t, from, to - 1)
    } else {
        seen_between(t, from, to - 1).push(to - 1)
    }
}

pub open spec fn blank_line(t: Seq<char>, line: int) -> bool {
    all_blank(t, start_of_line(t, line as nat), end_of_line(t, line as nat))
}

/// The lines of spans that have something on them.
pub open spec fn seen(t: Seq<char>, spans: Seq<(int, int)>) -> Seq<int>
    decreases spans.len(),
{
    if spans.len() == 0 {
        Seq::empty()
    } else {
        seen(t, spans.drop_last()) + seen_between(t, spans.last().0, spans.last().1 + 1)
    }
}

/// Whether the text of a line begins with the mark of a comment.
pub open spec fn commented(t: Seq<char>, line: int, marker: Seq<char>) -> bool {
    let at = text_of_line(t, line as nat);
    at + marker.len() <= end_of_line(t, line as nat) && t.subrange(at, at + marker.len()) == marker
}

/// The change that takes the mark of a comment off, with the space after it.
pub open spec fn uncomment(t: Seq<char>, line: int, marker: Seq<char>) -> Patch {
    let at = text_of_line(t, line as nat);
    let to = at + marker.len();
    Patch {
        from: at,
        to: if to < t.len() && t[to] == ' ' { to + 1 } else { to },
        text: Seq::empty(),
    }
}

/// The column that the text of a line is drawn at.
pub open spec fn text_column(t: Seq<char>, line: int, tab: int) -> int {
    let at = text_of_line(t, line as nat);
    column_of(t, start_of_line(t, line_at(t, at)), at, tab)
}

/// The least column that the text of any of the lines is drawn at.
pub open spec fn least_column(t: Seq<char>, lines: Seq<int>, tab: int) -> int
    decreases lines.len(),
{
    if lines.len() == 0 {
        0
    } else if lines.len() == 1 {
        text_column(t, lines[0], tab)
    } else {
        least(least_column(t, lines.drop_last(), tab), text_column(t, lines.last(), tab))
    }
}

/// The change that puts the mark of a comment in at a column.
pub open spec fn comment(t: Seq<char>, line: int, marker: Seq<char>, column: int, tab: int) -> Patch {
    let at = reach(
        t,
        start_of_line(t, line as nat),
        end_of_line(t, line as nat),
        0,
        column,
        tab,
    );
    Patch { from: at, to: at, text: marker.push(' ') }
}

pub open spec fn all_commented(t: Seq<char>, lines: Seq<int>, marker: Seq<char>) -> bool {
    forall|i: int| 0 <= i < lines.len() ==> commented(t, #[trigger] lines[i], marker)
}

/// The changes that comment lines out, or back in where all of them are out.
/// The marks go in at one column, so that the block keeps its shape.
pub open spec fn toggled(t: Seq<char>, lines: Seq<int>, marker: Seq<char>, tab: int) -> Seq<Patch> {
    if all_commented(t, lines, marker) {
        lines.map_values(|l: int| uncomment(t, l, marker))
    } else {
        lines.map_values(|l: int| comment(t, l, marker, least_column(t, lines, tab), tab))
    }
}

/// What commenting the lines that the cursors are on out, or back in, does to a
/// document and a pane.
pub open spec fn comments_toggled(
    was: Document,
    is: Document,
    before: Pane,
    after: Pane,
    marker: Seq<char>,
    tab_width: usize,
    now: u64,
    edits: Seq<AppliedEdit>,
) -> bool {
    let t = was.content();
    let lines = seen(t, touched(t, before.sel.ranges@));
    committed(
        was,
        is,
        before,
        after,
        planned(toggled(t, lines, marker, tab_stop(tab_width))),
        false,
        now,
        edits,
    )
}

fn seen_lines(rope: &ropey::Rope, spans: &Vec<(usize, usize)>) -> (lines: Vec<usize>)
    requires
        spans_ok(rope_text(*rope), whole(spans@)),
    ensures
        ints(lines@) == seen(rope_text(*rope), whole(spans@)),
{
    let ghost t = rope_text(*rope);
    let ghost ss = whole(spans@);
    let mut lines: Vec<usize> = Vec::new();
    let mut n: usize = 0;
    assert(ints(lines@) =~= seen(t, ss.take(0)));
    while n < spans.len()
        invariant
            n <= spans@.len(),
            t == rope_text(*rope),
            ss == whole(spans@),
            spans_ok(t, ss),
            ints(lines@) == seen(t, ss.take(n as int)),
        decreases spans@.len() - n,
    {
        let (first, last) = spans[n];
        assert(ss[n as int] == (first as int, last as int));
        let _count = rope.len_lines();
        let ghost base = ints(lines@);
        let mut line: usize = first;
        assert(base + seen_between(t, first as int, first as int) =~= base);
        while line <= last
            invariant
                first <= line <= last + 1,
                last < _count,
                t == rope_text(*rope),
                ints(lines@) == base + seen_between(t, first as int, line as int),
            decreases last + 1 - line,
        {
            let ghost was = lines@;
            if !is_blank(rope, line_start(rope, line), line_end(rope, line)) {
                lines.push(line);
                assert(ints(lines@) =~= ints(was).push(line as int));
            }
            assert(ints(lines@) =~= base + seen_between(t, first as int, line + 1));
            line = line + 1;
        }
        assert(ss.take(n + 1).drop_last() =~= ss.take(n as int));
        n = n + 1;
    }
    assert(ss.take(n as int) =~= ss);
    lines
}

fn is_commented(rope: &ropey::Rope, line: usize, marker: &Vec<char>) -> (yes: bool)
    ensures
        yes == commented(rope_text(*rope), line as int, marker@),
{
    let ghost t = rope_text(*rope);
    proof {
        lemma_text_of_line(t, line as nat);
        lemma_line_bounds(t, line as nat);
    }
    let at = first_non_blank(rope, line);
    let end = line_end(rope, line);
    if marker.len() > end - at {
        return false;
    }
    let mut i: usize = 0;
    while i < marker.len()
        invariant
            i <= marker@.len(),
            t == rope_text(*rope),
            at + marker@.len() <= end <= t.len(),
            at == text_of_line(t, line as nat),
            end == end_of_line(t, line as nat),
            forall|j: int| 0 <= j < i ==> t[at + j] == #[trigger] marker@[j],
        decreases marker@.len() - i,
    {
        if rope.char(at + i) != marker[i] {
            assert(t.subrange(at as int, at + marker@.len())[i as int] != marker@[i as int]);
            return false;
        }
        i = i + 1;
    }
    assert(t.subrange(at as int, at + marker@.len()) =~= marker@);
    true
}

fn every_commented(rope: &ropey::Rope, lines: &Vec<usize>, marker: &Vec<char>) -> (yes: bool)
    ensures
        yes == all_commented(rope_text(*rope), ints(lines@), marker@),
{
    let mut n: usize = 0;
    while n < lines.len()
        invariant
            n <= lines@.len(),
            forall|i: int|
                0 <= i < n ==> commented(rope_text(*rope), #[trigger] ints(lines@)[i], marker@),
        decreases lines@.len() - n,
    {
        if !is_commented(rope, lines[n], marker) {
            assert(!commented(rope_text(*rope), ints(lines@)[n as int], marker@));
            return false;
        }
        n = n + 1;
    }
    true
}

fn column_of_all(rope: &ropey::Rope, lines: &Vec<usize>, tab_width: usize) -> (column: usize)
    requires
        lines@.len() > 0,
    ensures
        column == least_column(rope_text(*rope), ints(lines@), tab_stop(tab_width)),
{
    let ghost t = rope_text(*rope);
    let ghost ls = ints(lines@);
    let mut column: usize = visual_column(rope, first_non_blank(rope, lines[0]), tab_width);
    let mut n: usize = 1;
    proof {
        assert(ls.take(1)[0] == lines@[0]);
        lemma_text_of_line(t, lines@[0] as nat);
        lemma_line_bounds(t, lines@[0] as nat);
    }
    while n < lines.len()
        invariant
            1 <= n <= lines@.len(),
            t == rope_text(*rope),
            ls == ints(lines@),
            column == least_column(t, ls.take(n as int), tab_stop(tab_width)),
        decreases lines@.len() - n,
    {
        let here = visual_column(rope, first_non_blank(rope, lines[n]), tab_width);
        proof {
            assert(ls.take(n + 1).drop_last() =~= ls.take(n as int));
            lemma_text_of_line(t, lines@[n as int] as nat);
            lemma_line_bounds(t, lines@[n as int] as nat);
        }
        if here < column {
            column = here;
        }
        n = n + 1;
    }
    assert(ls.take(n as int) =~= ls);
    column
}

/// Comment the lines that the cursors are on out, or back in. `None` for a
/// language that has no comments to the end of a line.
pub fn toggle_comment(
    doc: &mut Document,
    pane: &mut Pane,
    tab_width: usize,
    marker: &Option<String>,
    now: u64,
) -> (r: Option<Vec<AppliedEdit>>)
    requires
        ready(*old(doc), *old(pane)),
    ensures
        marker is None ==> r is None && *final(doc) == *old(doc) && *final(pane) == *old(pane),
        marker is Some ==> r is Some && comments_toggled(
            *old(doc),
            *final(doc),
            *old(pane),
            *final(pane),
            marker->0@,
            tab_width,
            now,
            (r->0)@,
        ),
{
    let marker = match marker {
        Some(marker) => chars_of(marker.as_str()),
        None => {
            return None;
        },
    };
    let ghost t = doc.content();
    let spans = touched_lines(&doc.rope, &pane.sel);
    let lines = seen_lines(&doc.rope, &spans);
    let ghost ls = ints(lines@);
    let ghost tab = tab_stop(tab_width);
    let mut changes: Vec<Change> = Vec::new();
    if lines.len() == 0 {
        assert(patches(changes@) =~= toggled(t, ls, marker@, tab));
        return Some(commit(doc, pane, changes, false, now));
    }
    if every_commented(&doc.rope, &lines, &marker) {
        let mut n: usize = 0;
        let ghost want = ls.map_values(|l: int| uncomment(t, l, marker@));
        while n < lines.len()
            invariant
                n <= lines@.len(),
                t == doc.content(),
                ls == ints(lines@),
                all_commented(t, ls, marker@),
                want == ls.map_values(|l: int| uncomment(t, l, marker@)),
                patches(changes@) =~= want.take(n as int),
            decreases lines@.len() - n,
        {
            let at = first_non_blank(&doc.rope, lines[n]);
            proof {
                assert(commented(t, ls[n as int], marker@));
                lemma_line_bounds(t, lines@[n as int] as nat);
            }
            let _len = doc.rope.len_chars();
            let mut to: usize = at + marker.len();
            match char_at(&doc.rope, to) {
                Some(c) => {
                    if c == ' ' {
                        to = to + 1;
                    }
                },
                None => {},
            }
            let c = Change::delete(at, to);
            let ghost was = changes@;
            changes.push(c);
            assert(c@ == want[n as int]);
            assert(patches(changes@) =~= patches(was).push(c@));
            n = n + 1;
            assert(patches(changes@) =~= want.take(n as int));
        }
        assert(patches(changes@) =~= toggled(t, ls, marker@, tab));
    } else {
        let column = column_of_all(&doc.rope, &lines, tab_width);
        let ghost want = ls.map_values(|l: int| comment(t, l, marker@, column as int, tab));
        let mut n: usize = 0;
        while n < lines.len()
            invariant
                n <= lines@.len(),
                t == doc.content(),
                ls == ints(lines@),
                tab == tab_stop(tab_width),
                want == ls.map_values(|l: int| comment(t, l, marker@, column as int, tab)),
                patches(changes@) =~= want.take(n as int),
            decreases lines@.len() - n,
        {
            let at = char_at_column(&doc.rope, lines[n], column, tab_width);
            let all = marker.len();
            let mut text = string_of(&marker, 0, all);
            text.push(' ');
            assert(text@ =~= marker@.push(' '));
            let c = Change::insert(at, text);
            let ghost was = changes@;
            changes.push(c);
            assert(c@ == want[n as int]);
            assert(patches(changes@) =~= patches(was).push(c@));
            n = n + 1;
            assert(patches(changes@) =~= want.take(n as int));
        }
        assert(patches(changes@) =~= toggled(t, ls, marker@, tab));
    }
    Some(commit(doc, pane, changes, false, now))
}

} // verus!
