//! Putting lines in another order, and changing the case of what is selected.
use vstd::prelude::*;

use crate::align::{first_of, lemma_first_of};
use crate::change::{fits, patches, Change, Patch};
use crate::chars::{
    all_ascii, alphanumeric, ascii, ascii_lower, ascii_upper, chars_of, large, lower_of, lowercase,
    lowercase_char, lowercased, small, string_of, upper_of, uppercase, uppercase_char, uppercased,
};
use crate::doc::{selected, AppliedEdit, Document};
use crate::edit::{any_selected, planned, ready, some_selected};
use crate::lines::{
    block, block_of, commit, committed, ends, law_touched_lines_are_in_order, span_of, spans_ok, touched,
    touched_lines, whole,
};
use crate::linewise::{lemma_committed, lemma_rewritten_one, lemma_touched_one};
use crate::outcome::{replaced, rewritten};
use crate::pane::Pane;
use crate::rope::{line_count, start_of_line};
use crate::strings::{comes_before, precedes, trim_front};
use crate::split::{copy_line, cut_lines, cut_up, deep, lemma_cut_up_some, same_line};
use crate::text::{after_line, lemma_line_bounds, line_after, line_start, Range};

verus! {

/// Which order to put lines in.
#[derive(Clone, Copy, PartialEq, Eq, Debug, Structural)]
pub enum Shuffle {
    Sort,
    SortBackwards,
    Reverse,
    /// The first of each, in the order they were in.
    Unique,
}

// ---------------------------------------------------------------------------
// Lines of characters
// ---------------------------------------------------------------------------

/// Lines put together with a line feed between each two.
pub open spec fn put_together(ls: Seq<Seq<char>>) -> Seq<char>
    decreases ls.len(),
{
    if ls.len() == 0 {
        Seq::empty()
    } else if ls.len() == 1 {
        ls[0]
    } else {
        put_together(ls.drop_last()).push('\n') + ls.last()
    }
}

fn join_up(ls: &Vec<Vec<char>>) -> (v: Vec<char>)
    ensures
        v@ == put_together(deep(ls@)),
{
    let ghost ds = deep(ls@);
    let mut v: Vec<char> = Vec::new();
    let mut n: usize = 0;
    assert(v@ =~= put_together(ds.take(0)));
    while n < ls.len()
        invariant
            n <= ls@.len(),
            ds == deep(ls@),
            v@ == put_together(ds.take(n as int)),
        decreases ls@.len() - n,
    {
        proof {
            assert(ds.take(n + 1).drop_last() =~= ds.take(n as int));
            assert(ds.take(n + 1).last() == ls@[n as int]@);
        }
        if n > 0 {
            v.push('\n');
        }
        let ghost base = v@;
        let line = &ls[n];
        let mut i: usize = 0;
        while i < line.len()
            invariant
                i <= line@.len(),
                v@ == base + line@.take(i as int),
            decreases line@.len() - i,
        {
            v.push(line[i]);
            assert(base + line@.take(i + 1) =~= (base + line@.take(i as int)).push(line@[i as int]));
            i = i + 1;
        }
        assert(line@.take(i as int) =~= line@);
        proof {
            if n == 0 {
                assert(base + line@ =~= line@);
                assert(ds.take(1)[0] == line@);
            }
        }
        n = n + 1;
    }
    assert(ds.take(n as int) =~= ds);
    v
}

// ---------------------------------------------------------------------------
// Order
// ---------------------------------------------------------------------------

/// Whether a line goes after another: by what it says, not by how far it is
/// indented.
pub open spec fn goes_after(a: Seq<char>, b: Seq<char>, backwards: bool) -> bool {
    if backwards {
        precedes(trim_front(a), trim_front(b))
    } else {
        precedes(trim_front(b), trim_front(a))
    }
}

/// A line put among others that are in order, after those it is level with.
pub open spec fn slotted(ls: Seq<Seq<char>>, x: Seq<char>, backwards: bool) -> Seq<Seq<char>>
    decreases ls.len(),
{
    if ls.len() == 0 || !goes_after(ls.last(), x, backwards) {
        ls.push(x)
    } else {
        slotted(ls.drop_last(), x, backwards).push(ls.last())
    }
}

/// Lines in order. Those that are level keep the order they were in.
pub open spec fn in_line(ls: Seq<Seq<char>>, backwards: bool) -> Seq<Seq<char>>
    decreases ls.len(),
{
    if ls.len() == 0 {
        ls
    } else {
        slotted(in_line(ls.drop_last(), backwards), ls.last(), backwards)
    }
}

/// Lines with only the first of each kept.
pub open spec fn first_of_each(ls: Seq<Seq<char>>) -> Seq<Seq<char>>
    decreases ls.len(),
{
    if ls.len() == 0 {
        ls
    } else {
        let r = first_of_each(ls.drop_last());
        if r.contains(ls.last()) {
            r
        } else {
            r.push(ls.last())
        }
    }
}

pub open spec fn arranged(ls: Seq<Seq<char>>, how: Shuffle) -> Seq<Seq<char>> {
    match how {
        Shuffle::Sort => in_line(ls, false),
        Shuffle::SortBackwards => in_line(ls, true),
        Shuffle::Reverse => ls.reverse(),
        Shuffle::Unique => first_of_each(ls),
    }
}

fn first_text(v: &Vec<char>) -> (n: usize)
    ensures
        n <= v@.len(),
        v@.skip(n as int) == trim_front(v@),
{
    let mut n: usize = 0;
    assert(v@.skip(0) =~= v@);
    while n < v.len() && v[n].is_whitespace()
        invariant
            n <= v@.len(),
            trim_front(v@) == trim_front(v@.skip(n as int)),
        decreases v@.len() - n,
    {
        assert(v@.skip(n as int).skip(1) =~= v@.skip(n + 1));
        n = n + 1;
    }
    n
}

fn is_after(a: &Vec<char>, b: &Vec<char>, backwards: bool) -> (yes: bool)
    ensures
        yes == goes_after(a@, b@, backwards),
{
    let i = first_text(a);
    let j = first_text(b);
    if backwards {
        comes_before(a, i, b, j)
    } else {
        comes_before(b, j, a, i)
    }
}

fn sort_lines(ls: &Vec<Vec<char>>, backwards: bool) -> (r: Vec<Vec<char>>)
    ensures
        deep(r@) == in_line(deep(ls@), backwards),
{
    let ghost ds = deep(ls@);
    let mut out: Vec<Vec<char>> = Vec::new();
    let mut n: usize = 0;
    assert(deep(out@) =~= in_line(ds.take(0), backwards));
    while n < ls.len()
        invariant
            n <= ls@.len(),
            ds == deep(ls@),
            deep(out@) == in_line(ds.take(n as int), backwards),
        decreases ls@.len() - n,
    {
        let x = copy_line(&ls[n]);
        let mut i: usize = out.len();
        let ghost full = deep(out@);
        let ghost held = out@;
        assert(full.take(i as int) =~= full);
        assert(slotted(full, x@, backwards) =~= slotted(full, x@, backwards) + full.skip(i as int));
        while i > 0 && is_after(&out[i - 1], &x, backwards)
            invariant
                i <= out@.len(),
                out@ == held,
                full == deep(held),
                slotted(full, x@, backwards) == slotted(full.take(i as int), x@, backwards)
                    + full.skip(i as int),
            decreases i,
        {
            proof {
                let head = full.take(i as int);
                assert(head.drop_last() =~= full.take(i - 1));
                assert(head.last() == out@[i - 1]@);
                assert(slotted(full.take(i - 1), x@, backwards).push(full[i - 1]) + full.skip(
                    i as int,
                ) =~= slotted(full.take(i - 1), x@, backwards) + full.skip(i - 1));
            }
            i = i - 1;
        }
        let ghost line = x@;
        out.insert(i, x);
        proof {
            if i > 0 {
                assert(full.take(i as int).last() == held[i - 1]@);
            }
            assert(slotted(full.take(i as int), line, backwards) =~= full.take(i as int).push(line));
            assert(deep(out@) =~= full.take(i as int).push(line) + full.skip(i as int));
            assert(ds.take(n + 1).drop_last() =~= ds.take(n as int));
            assert(ds.take(n + 1).last() == line);
        }
        n = n + 1;
    }
    assert(ds.take(n as int) =~= ds);
    out
}

fn firsts(ls: &Vec<Vec<char>>) -> (r: Vec<Vec<char>>)
    ensures
        deep(r@) == first_of_each(deep(ls@)),
{
    let ghost ds = deep(ls@);
    let mut out: Vec<Vec<char>> = Vec::new();
    let mut n: usize = 0;
    assert(deep(out@) =~= first_of_each(ds.take(0)));
    while n < ls.len()
        invariant
            n <= ls@.len(),
            ds == deep(ls@),
            deep(out@) == first_of_each(ds.take(n as int)),
        decreases ls@.len() - n,
    {
        let ghost was = out@;
        let mut met = false;
        let mut i: usize = 0;
        while i < out.len()
            invariant
                i <= out@.len(),
                n < ls@.len(),
                met == (exists|j: int| 0 <= j < i && #[trigger] deep(out@)[j] == ls@[n as int]@),
            decreases out@.len() - i,
        {
            if same_line(&out[i], &ls[n]) {
                assert(deep(out@)[i as int] == ls@[n as int]@);
                met = true;
            }
            i = i + 1;
        }
        proof {
            assert(ds.take(n + 1).drop_last() =~= ds.take(n as int));
            assert(ds.take(n + 1).last() == ls@[n as int]@);
            assert(met == deep(out@).contains(ls@[n as int]@));
        }
        if !met {
            let line = copy_line(&ls[n]);
            out.push(line);
            assert(deep(out@) =~= deep(was).push(ls@[n as int]@));
        }
        n = n + 1;
    }
    assert(ds.take(n as int) =~= ds);
    out
}

fn backwards(ls: &Vec<Vec<char>>) -> (r: Vec<Vec<char>>)
    ensures
        deep(r@) == deep(ls@).reverse(),
{
    let mut out: Vec<Vec<char>> = Vec::new();
    let all = ls.len();
    let mut n: usize = 0;
    while n < all
        invariant
            all == ls@.len(),
            n <= all,
            out@.len() == n,
            forall|j: int| 0 <= j < n ==> (#[trigger] out@[j])@ == ls@[all - 1 - j]@,
        decreases all - n,
    {
        out.push(copy_line(&ls[all - 1 - n]));
        n = n + 1;
    }
    assert(deep(out@) =~= deep(ls@).reverse());
    out
}

/// A block of lines rearranged. A line feed at its end stays at its end, and
/// where there is none, none is put after the last line.
pub open spec fn reordered(s: Seq<char>, how: Shuffle) -> Seq<char> {
    if ends(s) {
        put_together(arranged(cut_up(s).drop_last(), how)).push('\n')
    } else {
        put_together(arranged(cut_up(s), how))
    }
}

fn reorder(v: &Vec<char>, how: Shuffle) -> (r: Vec<char>)
    ensures
        r@ == reordered(v@, how),
{
    let ended = v.len() > 0 && v[v.len() - 1] == '\n';
    let mut lines = cut_lines(v);
    proof {
        lemma_cut_up_some(v@);
    }
    if ended {
        let ghost was = lines@;
        lines.pop();
        assert(deep(lines@) =~= deep(was).drop_last());
    }
    let lines = match how {
        Shuffle::Sort => sort_lines(&lines, false),
        Shuffle::SortBackwards => sort_lines(&lines, true),
        Shuffle::Reverse => backwards(&lines),
        Shuffle::Unique => firsts(&lines),
    };
    let mut text = join_up(&lines);
    if ended {
        text.push('\n');
    }
    text
}

/// The changes that rearrange spans of lines. One line is never rearranged,
/// and lines already in order are not a change.
pub open spec fn reorderings(t: Seq<char>, spans: Seq<(int, int)>, how: Shuffle) -> Seq<Patch>
    decreases spans.len(),
{
    if spans.len() == 0 {
        Seq::empty()
    } else {
        let less = reorderings(t, spans.drop_last(), how);
        let s = spans.last();
        let text = reordered(block(t, s), how);
        if s.0 == s.1 || text == block(t, s) {
            less
        } else {
            less.push(
                Patch {
                    from: start_of_line(t, s.0 as nat),
                    to: after_line(t, s.1 as nat),
                    text,
                },
            )
        }
    }
}

/// The lines to rearrange: those selected, or all there are.
pub open spec fn to_reorder(t: Seq<char>, s: crate::text::Selections) -> Seq<(int, int)> {
    if some_selected(s) {
        touched(t, s.ranges@)
    } else {
        seq![(0, line_count(t) - 1)]
    }
}

/// What putting lines in another order does to a document and a pane.
pub open spec fn lines_shuffled(
    was: Document,
    is: Document,
    before: Pane,
    after: Pane,
    how: Shuffle,
    now: u64,
    edits: Seq<AppliedEdit>,
) -> bool {
    let t = was.content();
    let cs = reorderings(t, to_reorder(t, before.sel), how);
    committed(was, is, before, after, planned(cs), false, now, edits)
}

/// Put the lines that are selected in another order, or all of them where
/// nothing is.
pub fn shuffle_lines(doc: &mut Document, pane: &mut Pane, how: Shuffle, now: u64) -> (edits: Vec<
    AppliedEdit,
>)
    requires
        ready(*old(doc), *old(pane)),
    ensures
        lines_shuffled(
            *old(doc),
            *final(doc),
            *old(pane),
            *final(pane),
            how,
            now,
            edits@,
        ),
{
    let ghost t = doc.content();
    let spans = if any_selected(&pane.sel) {
        touched_lines(&doc.rope, &pane.sel)
    } else {
        let mut spans: Vec<(usize, usize)> = Vec::new();
        spans.push((0, doc.rope.len_lines() - 1));
        assert(whole(spans@) =~= seq![(0int, line_count(t) - 1)]);
        spans
    };
    let ghost ss = whole(spans@);
    assert(spans_ok(t, ss));
    let mut changes: Vec<Change> = Vec::new();
    let mut n: usize = 0;
    assert(patches(changes@) =~= reorderings(t, ss.take(0), how));
    while n < spans.len()
        invariant
            n <= spans@.len(),
            t == doc.content(),
            ss == whole(spans@),
            spans_ok(t, ss),
            patches(changes@) == reorderings(t, ss.take(n as int), how),
        decreases spans@.len() - n,
    {
        let (first, last) = spans[n];
        proof {
            assert(ss[n as int] == (first as int, last as int));
            assert(ss.take(n + 1).drop_last() =~= ss.take(n as int));
            assert(ss.take(n + 1).last() == ss[n as int]);
        }
        if first != last {
            let held = block_of(&doc.rope, first, last);
            let text = reorder(&held, how);
            if !same_line(&text, &held) {
                let all = text.len();
                let s = string_of(&text, 0, all);
                assert(s@ =~= text@);
                let c = Change {
                    from: line_start(&doc.rope, first),
                    to: line_after(&doc.rope, last),
                    text: s,
                };
                let ghost was = changes@;
                changes.push(c);
                assert(patches(changes@) =~= patches(was).push(c@));
            }
        }
        n = n + 1;
    }
    assert(ss.take(n as int) =~= ss);
    commit(doc, pane, changes, false, now)
}

// ---------------------------------------------------------------------------
// Case
// ---------------------------------------------------------------------------

#[derive(Clone, Copy, PartialEq, Eq, Debug, Structural)]
pub enum Case {
    Upper,
    Lower,
    Title,
}

/// Whether the character after the first `n` begins a word. An apostrophe
/// does not end one.
pub open spec fn starting(s: Seq<char>, n: nat) -> bool {
    n == 0 || (!alphanumeric(s[n - 1]) && s[n - 1] != '\'')
}

/// The first `n` characters with every word begun by a capital.
pub open spec fn titled(s: Seq<char>, n: nat) -> Seq<char>
    decreases n,
{
    if n == 0 {
        Seq::empty()
    } else {
        titled(s, (n - 1) as nat) + if starting(s, (n - 1) as nat) {
            upper_of(s[n - 1])
        } else {
            lower_of(s[n - 1])
        }
    }
}

/// A text in another case.
pub open spec fn cased(s: Seq<char>, case: Case) -> Seq<char> {
    match case {
        Case::Upper => uppercased(s),
        Case::Lower => lowercased(s),
        Case::Title => titled(s, s.len()),
    }
}

impl Case {
    pub fn of(&self, text: &str) -> (s: String)
        ensures
            s@ == cased(text@, *self),
    {
        match self {
            Case::Upper => uppercase(text),
            Case::Lower => lowercase(text),
            Case::Title => title_case(text),
        }
    }
}

fn title_case(text: &str) -> (out: String)
    ensures
        out@ == titled(text@, text@.len()),
{
    let v = chars_of(text);
    let mut out: String = String::new();
    let mut begins = true;
    let mut n: usize = 0;
    while n < v.len()
        invariant
            n <= v@.len(),
            v@ == text@,
            begins == starting(v@, n as nat),
            out@ == titled(v@, n as nat),
        decreases v@.len() - n,
    {
        let c = v[n];
        if begins {
            out.append(uppercase_char(c).as_str());
        } else {
            out.append(lowercase_char(c).as_str());
        }
        begins = !c.is_alphanumeric() && c != '\'';
        n = n + 1;
    }
    out
}

/// The changes that put what is selected in another case.
pub open spec fn recasings(t: Seq<char>, rs: Seq<Range>, case: Case) -> Seq<Patch>
    decreases rs.len(),
{
    if rs.len() == 0 {
        Seq::empty()
    } else {
        let less = recasings(t, rs.drop_last(), case);
        let r = rs.last();
        let s = selected(t, r);
        if r.anchor == r.head || cased(s, case) == s {
            less
        } else {
            less.push(Patch { from: r.lo(), to: r.hi(), text: cased(s, case) })
        }
    }
}

/// What putting what is selected in another case does to a document and a pane.
pub open spec fn recased(
    was: Document,
    is: Document,
    before: Pane,
    after: Pane,
    case: Case,
    now: u64,
    edits: Seq<AppliedEdit>,
) -> bool {
    let cs = recasings(was.content(), before.sel.ranges@, case);
    committed(was, is, before, after, planned(cs), false, now, edits)
}

/// Put what is selected in another case.
pub fn change_case(doc: &mut Document, pane: &mut Pane, case: Case, now: u64) -> (edits: Vec<AppliedEdit>)
    requires
        ready(*old(doc), *old(pane)),
    ensures
        recased(
            *old(doc),
            *final(doc),
            *old(pane),
            *final(pane),
            case,
            now,
            edits@,
        ),
{
    let ghost t = doc.content();
    let ghost rs = pane.sel.ranges@;
    let mut changes: Vec<Change> = Vec::new();
    let mut n: usize = 0;
    assert(patches(changes@) =~= recasings(t, rs.take(0), case));
    while n < pane.sel.ranges.len()
        invariant
            n <= pane.sel.ranges@.len(),
            t == doc.content(),
            rs == pane.sel.ranges@,
            patches(changes@) == recasings(t, rs.take(n as int), case),
        decreases pane.sel.ranges@.len() - n,
    {
        let r = pane.sel.ranges[n];
        assert(rs.take(n + 1).drop_last() =~= rs.take(n as int));
        if !r.is_empty() {
            let text = doc.slice(r);
            let other = case.of(text.as_str());
            if other != text {
                let c = Change { from: r.start(), to: r.end(), text: other };
                let ghost was = changes@;
                changes.push(c);
                assert(patches(changes@) =~= patches(was).push(c@));
            }
        }
        n = n + 1;
    }
    assert(rs.take(n as int) =~= rs);
    commit(doc, pane, changes, false, now)
}
// ---------------------------------------------------------------------------
// What putting lines in order keeps
// ---------------------------------------------------------------------------

/// Whether no line goes after a later one.
pub open spec fn is_in_line(ls: Seq<Seq<char>>, backwards: bool) -> bool {
    forall|i: int, j: int|
        0 <= i < j < ls.len() ==> !goes_after(#[trigger] ls[i], #[trigger] ls[j], backwards)
}

proof fn lemma_one_number_each(x: char, y: char)
    ensures
        x as u32 == y as u32 ==> x == y,
{
}

/// Of two texts one precedes the other, unless they say the same.
proof fn lemma_precedes_total(a: Seq<char>, b: Seq<char>)
    ensures
        !(precedes(a, b) && precedes(b, a)),
        precedes(a, b) || precedes(b, a) || a == b,
    decreases a.len(),
{
    if a.len() > 0 && b.len() > 0 && a[0] == b[0] {
        lemma_precedes_total(a.skip(1), b.skip(1));
        if a.skip(1) == b.skip(1) {
            assert(a =~= seq![a[0]] + a.skip(1));
            assert(b =~= seq![b[0]] + b.skip(1));
            assert(a =~= b);
        }
    } else if a.len() > 0 && b.len() > 0 {
        lemma_one_number_each(a[0], b[0]);
    } else if a.len() == 0 && b.len() == 0 {
        assert(a =~= b);
    }
}

proof fn lemma_precedes_on(a: Seq<char>, b: Seq<char>, c: Seq<char>)
    requires
        precedes(a, b),
        precedes(b, c),
    ensures
        precedes(a, c),
    decreases a.len(),
{
    if a.len() > 0 && a[0] == b[0] && b[0] == c[0] {
        lemma_precedes_on(a.skip(1), b.skip(1), c.skip(1));
    }
}

/// A line that does not go after one that does not go after a third does not
/// go after that.
proof fn lemma_level_on(a: Seq<char>, b: Seq<char>, c: Seq<char>, backwards: bool)
    requires
        !goes_after(a, b, backwards),
        !goes_after(b, c, backwards),
    ensures
        !goes_after(a, c, backwards),
{
    let (x, y, z) = (trim_front(a), trim_front(b), trim_front(c));
    lemma_precedes_total(x, y);
    lemma_precedes_total(y, z);
    lemma_precedes_total(x, z);
    if backwards {
        if precedes(x, z) {
            if precedes(z, y) {
                lemma_precedes_on(x, z, y);
            }
        }
    } else {
        if precedes(z, x) {
            if precedes(y, z) {
                lemma_precedes_on(y, z, x);
            }
        }
    }
}

proof fn lemma_slotted(ls: Seq<Seq<char>>, x: Seq<char>, backwards: bool)
    requires
        is_in_line(ls, backwards),
    ensures
        is_in_line(slotted(ls, x, backwards), backwards),
        slotted(ls, x, backwards).to_multiset() == ls.to_multiset().insert(x),
        slotted(ls, x, backwards).len() == ls.len() + 1,
        forall|y: Seq<char>| #[trigger]
            slotted(ls, x, backwards).contains(y) ==> y == x || ls.contains(y),
    decreases ls.len(),
{
    broadcast use vstd::seq_lib::group_to_multiset_ensures;

    let r = slotted(ls, x, backwards);
    if ls.len() == 0 || !goes_after(ls.last(), x, backwards) {
        assert forall|i: int, j: int| 0 <= i < j < r.len() implies !goes_after(
            #[trigger] r[i],
            #[trigger] r[j],
            backwards,
        ) by {
            if j == ls.len() {
                if i < ls.len() - 1 {
                    assert(!goes_after(ls[i], ls[ls.len() - 1], backwards));
                    lemma_level_on(ls[i], ls.last(), x, backwards);
                }
            } else {
                assert(!goes_after(ls[i], ls[j], backwards));
            }
        }
        assert forall|y: Seq<char>| r.contains(y) implies y == x || ls.contains(y) by {
            let k = choose|k: int| 0 <= k < r.len() && r[k] == y;
            if k < ls.len() {
                assert(ls[k] == y);
            }
        }
    } else {
        let less = ls.drop_last();
        assert(is_in_line(less, backwards)) by {
            assert forall|i: int, j: int| 0 <= i < j < less.len() implies !goes_after(
                #[trigger] less[i],
                #[trigger] less[j],
                backwards,
            ) by {
                assert(!goes_after(ls[i], ls[j], backwards));
            }
        }
        lemma_slotted(less, x, backwards);
        let rest = slotted(less, x, backwards);
        assert forall|i: int, j: int| 0 <= i < j < r.len() implies !goes_after(
            #[trigger] r[i],
            #[trigger] r[j],
            backwards,
        ) by {
            if j < rest.len() {
                assert(!goes_after(rest[i], rest[j], backwards));
            } else {
                assert(rest.contains(rest[i]));
                if rest[i] == x {
                    lemma_precedes_total(trim_front(x), trim_front(ls.last()));
                } else {
                    let k = choose|k: int| 0 <= k < less.len() && less[k] == rest[i];
                    assert(!goes_after(ls[k], ls[ls.len() - 1], backwards));
                }
            }
        }
        assert(ls =~= less.push(ls.last()));
        assert(r.to_multiset() =~= ls.to_multiset().insert(x));
        assert forall|y: Seq<char>| r.contains(y) implies y == x || ls.contains(y) by {
            let k = choose|k: int| 0 <= k < r.len() && r[k] == y;
            if k < rest.len() {
                assert(rest.contains(rest[k]));
                if y != x {
                    let m = choose|m: int| 0 <= m < less.len() && less[m] == y;
                    assert(ls[m] == y);
                }
            } else {
                assert(ls[ls.len() - 1] == y);
            }
        }
    }
}

/// Sorting puts lines in order and keeps every one of them: none is lost, and
/// none comes from nowhere.
pub proof fn law_sorting_sorts(ls: Seq<Seq<char>>, backwards: bool)
    ensures
        is_in_line(in_line(ls, backwards), backwards),
        in_line(ls, backwards).to_multiset() == ls.to_multiset(),
        in_line(ls, backwards).len() == ls.len(),
    decreases ls.len(),
{
    broadcast use vstd::seq_lib::group_to_multiset_ensures;

    if ls.len() > 0 {
        law_sorting_sorts(ls.drop_last(), backwards);
        lemma_slotted(in_line(ls.drop_last(), backwards), ls.last(), backwards);
        assert(ls =~= ls.drop_last().push(ls.last()));
        assert(in_line(ls, backwards).to_multiset() =~= ls.to_multiset());
    }
}

/// Lines that are in order stay as they are.
pub proof fn law_lines_in_order_are_left_alone(ls: Seq<Seq<char>>, backwards: bool)
    requires
        is_in_line(ls, backwards),
    ensures
        in_line(ls, backwards) == ls,
    decreases ls.len(),
{
    if ls.len() > 0 {
        let less = ls.drop_last();
        assert forall|i: int, j: int| 0 <= i < j < less.len() implies !goes_after(
            #[trigger] less[i],
            #[trigger] less[j],
            backwards,
        ) by {
            assert(!goes_after(ls[i], ls[j], backwards));
        }
        law_lines_in_order_are_left_alone(less, backwards);
        if less.len() > 0 {
            assert(!goes_after(ls[less.len() - 1], ls[less.len() as int], backwards));
            assert(less.last() == ls[less.len() - 1]);
        }
        assert(less.push(ls.last()) =~= ls);
    }
}

/// Keeping the first of each keeps every line there is, once, and what is kept
/// keeps its order.
pub proof fn law_the_first_of_each_is_kept(ls: Seq<Seq<char>>)
    ensures
        first_of_each(ls).no_duplicates(),
        forall|x: Seq<char>|
            #![trigger first_of_each(ls).contains(x)]
            #![trigger ls.contains(x)]
            first_of_each(ls).contains(x) <==> ls.contains(x),
        ls.no_duplicates() ==> first_of_each(ls) == ls,
    decreases ls.len(),
{
    if ls.len() > 0 {
        let less = ls.drop_last();
        let kept = first_of_each(less);
        let r = first_of_each(ls);
        law_the_first_of_each_is_kept(less);
        assert forall|x: Seq<char>|
            #![trigger r.contains(x)]
            #![trigger ls.contains(x)]
            r.contains(x) <==> ls.contains(x) by {
            if r.contains(x) {
                let k = choose|k: int| 0 <= k < r.len() && r[k] == x;
                if k < kept.len() {
                    assert(kept.contains(x)) by {
                        assert(kept[k] == x);
                    }
                    let m = choose|m: int| 0 <= m < less.len() && less[m] == x;
                    assert(ls[m] == x);
                } else {
                    assert(ls[ls.len() - 1] == x);
                }
            }
            if ls.contains(x) {
                let m = choose|m: int| 0 <= m < ls.len() && ls[m] == x;
                if m < less.len() {
                    assert(less.contains(less[m]));
                    assert(kept.contains(x));
                    let k = choose|k: int| 0 <= k < kept.len() && kept[k] == x;
                    assert(r[k] == x);
                } else if !kept.contains(x) {
                    assert(r[kept.len() as int] == x);
                }
            }
        }
        if ls.no_duplicates() {
            assert(less.no_duplicates());
            if kept.contains(ls.last()) {
                let k = choose|k: int| 0 <= k < less.len() && less[k] == ls.last();
                assert(ls[k] == ls[ls.len() - 1]);
            }
            assert(less.push(ls.last()) =~= ls);
        }
    }
}

/// Turning lines back to front twice gives them back.
pub proof fn law_back_to_front_twice(ls: Seq<Seq<char>>)
    ensures
        arranged(arranged(ls, Shuffle::Reverse), Shuffle::Reverse) == ls,
{
    assert(ls.reverse().reverse() =~= ls);
}

/// Whether each of some lines is one line.
spec fn lines_apart(ls: Seq<Seq<char>>) -> bool {
    forall|i: int, k: int|
        0 <= i < ls.len() && 0 <= k < ls[i].len() ==> #[trigger] ls[i][k] != '\n'
}

proof fn lemma_cut_up_apart(s: Seq<char>)
    ensures
        cut_up(s).len() > 0,
        lines_apart(cut_up(s)),
        ends(s) ==> cut_up(s).last().len() == 0 && cut_up(s).len() > 1,
        put_together(cut_up(s)) == s,
    decreases s.len(),
{
    lemma_cut_up_some(s);
    if s.len() > 0 {
        let less = s.drop_last();
        lemma_cut_up_apart(less);
        let ls = cut_up(less);
        let r = cut_up(s);
        assert(less.push(s.last()) =~= s);
        if s.last() == '\n' {
            assert(r == ls.push(Seq::empty()));
            assert(r.drop_last() =~= ls);
            assert(put_together(r) =~= s);
        } else {
            assert(r =~= ls.drop_last().push(ls.last().push(s.last())));
            assert(r.drop_last() =~= ls.drop_last());
            assert forall|i: int, k: int| 0 <= i < r.len() && 0 <= k < r[i].len() implies
                #[trigger] r[i][k] != '\n' by {
                if i < r.len() - 1 {
                    assert(r[i] == ls[i]);
                } else if k < ls.last().len() {
                    assert(r[i][k] == ls[i][k]);
                }
            }
            if ls.len() == 1 {
                assert(put_together(ls) == ls[0]);
                assert(put_together(r) =~= s);
            } else {
                assert(put_together(r) =~= s);
            }
        }
    } else {
        assert(put_together(cut_up(s)) =~= s);
    }
}

proof fn lemma_cut_up_more(s: Seq<char>, x: Seq<char>)
    requires
        forall|k: int| 0 <= k < x.len() ==> #[trigger] x[k] != '\n',
    ensures
        cut_up(s + x) == cut_up(s).drop_last().push(cut_up(s).last() + x),
    decreases x.len(),
{
    lemma_cut_up_some(s);
    if x.len() == 0 {
        assert(s + x =~= s);
        assert(cut_up(s).last() + x =~= cut_up(s).last());
        assert(cut_up(s).drop_last().push(cut_up(s).last()) =~= cut_up(s));
    } else {
        let less = x.drop_last();
        assert forall|k: int| 0 <= k < less.len() implies #[trigger] less[k] != '\n' by {
            assert(less[k] == x[k]);
        }
        lemma_cut_up_more(s, less);
        let t = s + x;
        assert(t.drop_last() =~= s + less);
        assert(t.last() == x[x.len() - 1]);
        let was = cut_up(s + less);
        assert(cut_up(t) =~= was.drop_last().push(was.last().push(t.last())));
        assert((cut_up(s).last() + less).push(x.last()) =~= cut_up(s).last() + x);
        assert(was.drop_last() =~= cut_up(s).drop_last());
    }
}

/// Lines put together come apart the same.
proof fn lemma_apart_again(ls: Seq<Seq<char>>)
    requires
        ls.len() > 0,
        lines_apart(ls),
    ensures
        cut_up(put_together(ls)) == ls,
    decreases ls.len(),
{
    let last = ls.last();
    assert forall|k: int| 0 <= k < last.len() implies #[trigger] last[k] != '\n' by {
        assert(ls[ls.len() - 1][k] != '\n');
    }
    if ls.len() == 1 {
        let none = Seq::<char>::empty();
        lemma_cut_up_more(none, last);
        assert(none + last =~= last);
        assert(cut_up(none) =~= seq![none]);
        assert(cut_up(last) =~= ls);
    } else {
        let less = ls.drop_last();
        assert forall|i: int, k: int| 0 <= i < less.len() && 0 <= k < less[i].len() implies
            #[trigger] less[i][k] != '\n' by {
            assert(ls[i][k] != '\n');
        }
        lemma_apart_again(less);
        let before = put_together(less).push('\n');
        assert(before.drop_last() =~= put_together(less));
        assert(cut_up(before) == less.push(Seq::empty()));
        lemma_cut_up_more(before, last);
        assert(less.push(Seq::<char>::empty()).drop_last() =~= less);
        assert(Seq::<char>::empty() + last =~= last);
        assert(less.push(last) =~= ls);
    }
}

proof fn lemma_ends_together(ls: Seq<Seq<char>>)
    requires
        ls.len() > 0,
        lines_apart(ls),
    ensures
        ends(put_together(ls)) <==> ls.len() > 1 && ls.last().len() == 0,
{
    let last = ls.last();
    if last.len() > 0 {
        assert(ls[ls.len() - 1][last.len() - 1] != '\n');
    }
    if ls.len() > 1 {
        let before = put_together(ls.drop_last()).push('\n');
        if last.len() > 0 {
            assert((before + last).last() == last.last());
        } else {
            assert(before + last =~= before);
        }
    }
}

/// The lines that are arranged are still lines of their own.
proof fn lemma_arranged_apart(ls: Seq<Seq<char>>, how: Shuffle)
    requires
        lines_apart(ls),
        ls.len() > 0,
    ensures
        lines_apart(arranged(ls, how)),
        arranged(ls, how).len() > 0,
{
    broadcast use vstd::seq_lib::group_to_multiset_ensures;

    let r = arranged(ls, how);
    law_sorting_sorts(ls, false);
    law_sorting_sorts(ls, true);
    law_the_first_of_each_is_kept(ls);
    assert(ls.contains(ls[0]));
    assert forall|i: int, k: int| 0 <= i < r.len() && 0 <= k < r[i].len() implies #[trigger] r[i][k]
        != '\n' by {
        assert(r.contains(r[i]));
        if how == Shuffle::Reverse {
            assert(r[i] == ls[ls.len() - 1 - i]);
        } else if how != Shuffle::Unique {
            assert(r.to_multiset().count(r[i]) > 0);
            assert(ls.to_multiset().count(r[i]) > 0);
        }
        assert(ls.contains(r[i]));
        let m = choose|m: int| 0 <= m < ls.len() && ls[m] == r[i];
        assert(ls[m][k] != '\n');
    }
    if how == Shuffle::Unique {
        assert(r.contains(ls[0]));
    }
}

/// Sorting, either way up, or keeping the first of each leaves nothing to do
/// the second time.
pub proof fn law_a_block_in_order_is_left_alone(s: Seq<char>, how: Shuffle)
    requires
        how != Shuffle::Reverse,
    ensures
        reordered(reordered(s, how), how) == reordered(s, how),
{
    lemma_cut_up_apart(s);
    let ls = if ends(s) { cut_up(s).drop_last() } else { cut_up(s) };
    assert forall|i: int, k: int| 0 <= i < ls.len() && 0 <= k < ls[i].len() implies
        #[trigger] ls[i][k] != '\n' by {
        assert(cut_up(s)[i][k] != '\n');
    }
    lemma_arranged_apart(ls, how);
    let a = arranged(ls, how);
    let r = reordered(s, how);
    lemma_apart_again(a);
    lemma_ends_together(a);
    lemma_settled(ls, how);
    if ends(s) {
        let full = a.push(Seq::empty());
        assert(full.drop_last() =~= a);
        assert(r =~= put_together(full));
        assert(r.drop_last() =~= put_together(a));
        assert(cut_up(r) == full);
    } else if ends(r) {
        let less = a.drop_last();
        assert(r.drop_last() =~= put_together(less));
        assert(a.last() =~= Seq::<char>::empty());
        lemma_settled_less(ls, how);
        assert(put_together(less).push('\n') =~= r);
    }
}

proof fn lemma_settled(ls: Seq<Seq<char>>, how: Shuffle)
    requires
        how != Shuffle::Reverse,
    ensures
        arranged(arranged(ls, how), how) == arranged(ls, how),
{
    match how {
        Shuffle::Sort => {
            law_sorting_sorts(ls, false);
            law_lines_in_order_are_left_alone(in_line(ls, false), false);
        },
        Shuffle::SortBackwards => {
            law_sorting_sorts(ls, true);
            law_lines_in_order_are_left_alone(in_line(ls, true), true);
        },
        _ => {
            law_the_first_of_each_is_kept(ls);
            law_the_first_of_each_is_kept(first_of_each(ls));
        },
    }
}

proof fn lemma_settled_less(ls: Seq<Seq<char>>, how: Shuffle)
    requires
        how != Shuffle::Reverse,
        arranged(ls, how).len() > 0,
    ensures
        arranged(arranged(ls, how).drop_last(), how) == arranged(ls, how).drop_last(),
{
    let a = arranged(ls, how);
    let less = a.drop_last();
    match how {
        Shuffle::Unique => {
            law_the_first_of_each_is_kept(ls);
            assert(less.no_duplicates());
            law_the_first_of_each_is_kept(less);
        },
        _ => {
            let backwards = how == Shuffle::SortBackwards;
            law_sorting_sorts(ls, backwards);
            assert forall|i: int, j: int| 0 <= i < j < less.len() implies !goes_after(
                #[trigger] less[i],
                #[trigger] less[j],
                backwards,
            ) by {
                assert(!goes_after(a[i], a[j], backwards));
            }
            law_lines_in_order_are_left_alone(less, backwards);
        },
    }
}

// ---------------------------------------------------------------------------
// What is left
// ---------------------------------------------------------------------------

/// Whether lines are others in another order: sorted either way by what they say
/// past their indentation, back to front, or with each that comes again left out.
pub open spec fn is_arranged(ls: Seq<Seq<char>>, out: Seq<Seq<char>>, how: Shuffle) -> bool {
    match how {
        Shuffle::Sort => out.to_multiset() == ls.to_multiset() && forall|i: int, j: int|
            0 <= i < j < out.len() ==> !precedes(
                trim_front(#[trigger] out[j]),
                trim_front(#[trigger] out[i]),
            ),
        Shuffle::SortBackwards => out.to_multiset() == ls.to_multiset() && forall|i: int, j: int|
            0 <= i < j < out.len() ==> !precedes(
                trim_front(#[trigger] out[i]),
                trim_front(#[trigger] out[j]),
            ),
        Shuffle::Reverse => out.len() == ls.len() && forall|i: int|
            0 <= i < out.len() ==> #[trigger] out[i] == ls[ls.len() - 1 - i],
        Shuffle::Unique => {
            &&& forall|x: Seq<char>| #[trigger] out.contains(x) <==> ls.contains(x)
            &&& forall|i: int, j: int|
                0 <= i < j < out.len() ==> first_of(ls, #[trigger] out[i]) < first_of(
                    ls,
                    #[trigger] out[j],
                )
        },
    }
}

proof fn lemma_unique_in_turn(ls: Seq<Seq<char>>)
    ensures
        forall|i: int, j: int|
            0 <= i < j < first_of_each(ls).len() ==> first_of(ls, #[trigger] first_of_each(ls)[i])
                < first_of(ls, #[trigger] first_of_each(ls)[j]),
    decreases ls.len(),
{
    if ls.len() > 0 {
        let less = ls.drop_last();
        let (had, out) = (first_of_each(less), first_of_each(ls));
        lemma_unique_in_turn(less);
        law_the_first_of_each_is_kept(less);
        assert forall|i: int| 0 <= i < had.len() implies first_of(ls, #[trigger] had[i])
            == first_of(less, had[i]) && first_of(less, had[i]) < less.len() by {
            assert(had.contains(had[i]));
            lemma_first_of(less, had[i]);
            let k = choose|k: int| 0 <= k < less.len() && less[k] == had[i];
            assert(less[k] == had[i]);
        }
        assert forall|i: int, j: int| 0 <= i < j < out.len() implies first_of(ls, #[trigger] out[i])
            < first_of(ls, #[trigger] out[j]) by {
            assert(out[i] == had[i]);
            if j < had.len() {
                assert(out[j] == had[j]);
            } else {
                lemma_first_of(less, ls.last());
                if first_of(less, ls.last()) < less.len() {
                    assert(less.contains(ls.last()));
                }
            }
        }
    }
}

/// Lines are put in the order that was asked for.
pub proof fn law_lines_are_arranged_as_asked(ls: Seq<Seq<char>>, how: Shuffle)
    ensures
        is_arranged(ls, arranged(ls, how), how),
{
    let out = arranged(ls, how);
    match how {
        Shuffle::Sort => {
            law_sorting_sorts(ls, false);
            assert forall|i: int, j: int| 0 <= i < j < out.len() implies !precedes(
                trim_front(#[trigger] out[j]),
                trim_front(#[trigger] out[i]),
            ) by {
                assert(!goes_after(out[i], out[j], false));
            }
        },
        Shuffle::SortBackwards => {
            law_sorting_sorts(ls, true);
            assert forall|i: int, j: int| 0 <= i < j < out.len() implies !precedes(
                trim_front(#[trigger] out[i]),
                trim_front(#[trigger] out[j]),
            ) by {
                assert(!goes_after(out[i], out[j], true));
            }
        },
        Shuffle::Reverse => {},
        Shuffle::Unique => {
            law_the_first_of_each_is_kept(ls);
            lemma_unique_in_turn(ls);
            assert forall|x: Seq<char>| #[trigger] out.contains(x) <==> ls.contains(x) by {}
        },
    }
}

/// Whether what stands from `from` up to `to` are lines with a line feed between each
/// two, and a text is the same with other lines in their place. They end in a line
/// feed where the first ones did.
pub open spec fn put_back(
    t: Seq<char>,
    from: int,
    to: int,
    u: Seq<char>,
    ls: Seq<Seq<char>>,
    out: Seq<Seq<char>>,
) -> bool {
    let had = t.subrange(from, to);
    let x = if ends(had) { put_together(out).push('\n') } else { put_together(out) };
    &&& had == if ends(had) { put_together(ls).push('\n') } else { put_together(ls) }
    &&& forall|i: int, k: int|
        0 <= i < ls.len() && 0 <= k < ls[i].len() ==> #[trigger] ls[i][k] != '\n'
    &&& u == t.subrange(0, from) + x + t.subrange(to, t.len() as int)
}

/// The lines that one selection touches, or all of them where nothing is selected.
pub open spec fn lines_meant(t: Seq<char>, r: Range) -> (int, int) {
    if r.anchor != r.head { span_of(t, r) } else { (0, line_count(t) - 1) }
}

/// Whether what stands from `from` up to `to` has been put in another order, and
/// nothing else has changed.
pub open spec fn is_put_in_order(
    t: Seq<char>,
    from: int,
    to: int,
    u: Seq<char>,
    how: Shuffle,
) -> bool {
    exists|ls: Seq<Seq<char>>, out: Seq<Seq<char>>|
        #[trigger] put_back(t, from, to, u, ls, out) && is_arranged(ls, out, how)
}

proof fn lemma_reordered(t: Seq<char>, from: int, to: int, how: Shuffle)
    requires
        0 <= from <= to <= t.len(),
    ensures
        is_put_in_order(
            t,
            from,
            to,
            replaced(t, from, to, reordered(t.subrange(from, to), how)),
            how,
        ),
{
    let had = t.subrange(from, to);
    lemma_cut_up_apart(had);
    let ls = if ends(had) { cut_up(had).drop_last() } else { cut_up(had) };
    assert forall|i: int, k: int| 0 <= i < ls.len() && 0 <= k < ls[i].len() implies
        #[trigger] ls[i][k] != '\n' by {
        assert(cut_up(had)[i][k] != '\n');
    }
    if ends(had) {
        assert(cut_up(had).last() =~= Seq::<char>::empty());
        assert(put_together(ls).push('\n') =~= had);
    }
    law_lines_are_arranged_as_asked(ls, how);
    let u = replaced(t, from, to, reordered(had, how));
    assert(put_back(t, from, to, u, ls, arranged(ls, how)));
}

/// Putting lines in another order does so with the lines that one selection touches,
/// or with all of them where nothing is selected. What comes before them and behind
/// them stays as it was.
#[verifier::rlimit(40)]
pub proof fn law_shuffled_lines_are_the_ones_selected(
    was: Document,
    is: Document,
    before: Pane,
    after: Pane,
    how: Shuffle,
    now: u64,
    edits: Seq<AppliedEdit>,
)
    requires
        ready(was, before),
        before.sel.ranges@.len() == 1,
        lines_shuffled(was, is, before, after, how, now, edits),
    ensures
        ({
            let t = was.content();
            let s = lines_meant(t, before.sel.ranges@[0]);
            if s.0 == s.1 {
                is.content() == t
            } else {
                is_put_in_order(
                    t,
                    start_of_line(t, s.0 as nat),
                    start_of_line(t, (s.1 + 1) as nat),
                    is.content(),
                    how,
                )
            }
        }),
{
    let t = was.content();
    let r = before.sel.ranges@[0];
    let s = lines_meant(t, r);
    let spans = to_reorder(t, before.sel);
    assert(before.sel.ranges@ =~= seq![r]);
    lemma_touched_one(t, r);
    law_touched_lines_are_in_order(t, before.sel.ranges@);
    if r.anchor != r.head {
        assert(before.sel.ranges@[0].anchor != before.sel.ranges@[0].head);
        assert(touched(t, before.sel.ranges@)[0] == span_of(t, r));
    }
    assert(spans =~= seq![s]);
    lemma_one_reordering(t, s, how);
    let (from, to) = (start_of_line(t, s.0 as nat), after_line(t, s.1 as nat));
    lemma_line_bounds(t, s.0 as nat);
    lemma_line_bounds(t, s.1 as nat);
    crate::rope::lemma_after_lines_grows(t, s.0 as nat, (s.1 + 1) as nat, 0);
    lemma_committed(was, is, before, after, reorderings(t, spans, how), false, now, edits);
    lemma_reordered(t, from, to, how);
}

proof fn lemma_one_reordering(t: Seq<char>, s: (int, int), how: Shuffle)
    requires
        0 <= s.0 <= s.1,
    ensures
        ({
            let cs = reorderings(t, seq![s], how);
            let (from, to) = (start_of_line(t, s.0 as nat), after_line(t, s.1 as nat));
            &&& fits(cs, t.len() as int)
            &&& rewritten(t, cs) == if s.0 == s.1 {
                t
            } else {
                replaced(t, from, to, reordered(t.subrange(from, to), how))
            }
        }),
{
    let cs = reorderings(t, seq![s], how);
    let (from, to) = (start_of_line(t, s.0 as nat), after_line(t, s.1 as nat));
    lemma_line_bounds(t, s.0 as nat);
    lemma_line_bounds(t, s.1 as nat);
    crate::rope::lemma_after_lines_grows(t, s.0 as nat, (s.1 + 1) as nat, 0);
    assert(seq![s].drop_last() =~= Seq::<(int, int)>::empty());
    assert(reorderings(t, seq![s].drop_last(), how) =~= Seq::<Patch>::empty());
    let had = block(t, s);
    let x = reordered(had, how);
    if s.0 == s.1 || x == had {
        assert(cs =~= Seq::<Patch>::empty());
        assert(rewritten(t, cs) =~= t);
        assert(t =~= replaced(t, from, to, had));
    } else {
        assert(cs =~= seq![Patch { from, to, text: x }]);
        lemma_rewritten_one(t, Patch { from, to, text: x });
    }
}

/// A text of ASCII in another case is as long as it was. Large letters are asked for
/// or small ones, or large ones where a word begins and small ones elsewhere, and
/// what is no letter stays.
pub proof fn law_letters_take_the_case_asked_for(s: Seq<char>, case: Case, i: int)
    requires
        all_ascii(s),
        0 <= i < s.len(),
    ensures
        cased(s, case).len() == s.len(),
        ({
            let c = s[i];
            let begins = i == 0 || !(alphanumeric(s[i - 1]) || s[i - 1] == '\'');
            let large_wanted = case == Case::Upper || case == Case::Title && begins;
            cased(s, case)[i] == if large_wanted && small(c) {
                ((c as u32) - 32) as char
            } else if !large_wanted && large(c) {
                ((c as u32) + 32) as char
            } else {
                c
            }
        }),
{
    if case == Case::Title {
        lemma_titled(s, s.len(), i);
    }
}

proof fn lemma_titled(s: Seq<char>, n: nat, i: int)
    requires
        all_ascii(s),
        n <= s.len(),
    ensures
        titled(s, n).len() == n,
        0 <= i < n ==> titled(s, n)[i] == if starting(s, i as nat) {
            ascii_upper(s[i])
        } else {
            ascii_lower(s[i])
        },
    decreases n,
{
    if n > 0 {
        lemma_titled(s, (n - 1) as nat, i);
        assert(ascii(s[n - 1]));
    }
}

/// Changing the case of one selection changes what is selected, and nothing else.
#[verifier::spinoff_prover]
#[verifier::rlimit(40)]
pub proof fn law_what_is_selected_takes_another_case(
    was: Document,
    is: Document,
    before: Pane,
    after: Pane,
    case: Case,
    now: u64,
    edits: Seq<AppliedEdit>,
)
    requires
        ready(was, before),
        before.sel.ranges@.len() == 1,
        recased(was, is, before, after, case, now, edits),
    ensures
        ({
            let t = was.content();
            let r = before.sel.ranges@[0];
            let had = t.subrange(r.lo(), r.hi());
            if r.anchor == r.head {
                is.content() == t
            } else {
                is.content() == replaced(t, r.lo(), r.hi(), cased(had, case))
            }
        }),
{
    let t = was.content();
    let rs = before.sel.ranges@;
    let r = rs[0];
    assert(r.anchor <= t.len() && r.head <= t.len());
    let none = Seq::<Patch>::empty();
    assert(rs.drop_last() =~= Seq::<Range>::empty());
    assert(recasings(t, rs.drop_last(), case) =~= none);
    let had = t.subrange(r.lo(), r.hi());
    let cs = recasings(t, rs, case);
    assert(selected(t, r) =~= had);
    let c = Patch { from: r.lo(), to: r.hi(), text: cased(had, case) };
    lemma_rewritten_one(t, c);
    if r.anchor == r.head || cased(had, case) == had {
        assert(cs =~= none);
        assert(fits(cs, t.len() as int));
        lemma_committed(was, is, before, after, cs, false, now, edits);
        assert(rewritten(t, cs) =~= t);
        assert(t =~= replaced(t, r.lo(), r.hi(), had));
    } else {
        assert(cs =~= seq![c]);
        assert(fits(cs, t.len() as int));
        lemma_committed(was, is, before, after, cs, false, now, edits);
    }
}

} // verus!
