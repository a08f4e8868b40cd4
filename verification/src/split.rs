//! Texts as lines of characters.
use vstd::prelude::*;

use crate::chars::chars_of;

verus! {

/// A text cut at every occurrence of a character.
pub open spec fn cut(s: Seq<char>, sep: char) -> Seq<Seq<char>>
    decreases s.len(),
{
    if s.len() == 0 {
        seq![Seq::empty()]
    } else {
        let r = cut(s.drop_last(), sep);
        if s.last() == sep {
            r.push(Seq::empty())
        } else {
            r.update(r.len() - 1, r.last().push(s.last()))
        }
    }
}

/// A text cut at every line feed.
pub open spec fn cut_up(s: Seq<char>) -> Seq<Seq<char>> {
    cut(s, '\n')
}

/// What lines say.
pub open spec fn deep(v: Seq<Vec<char>>) -> Seq<Seq<char>> {
    v.map_values(|l: Vec<char>| l@)
}

/// There is always a piece.
pub proof fn lemma_cut_some(s: Seq<char>, sep: char)
    ensures
        cut(s, sep).len() > 0,
    decreases s.len(),
{
    if s.len() > 0 {
        lemma_cut_some(s.drop_last(), sep);
    }
}

/// There is always a line.
pub proof fn lemma_cut_up_some(s: Seq<char>)
    ensures
        cut_up(s).len() > 0,
{
    lemma_cut_some(s, '\n');
}

/// Cut a text at every occurrence of a character.
pub fn cut_at(v: &Vec<char>, sep: char) -> (ls: Vec<Vec<char>>)
    ensures
        deep(ls@) == cut(v@, sep),
{
    let mut ls: Vec<Vec<char>> = Vec::new();
    let mut line: Vec<char> = Vec::new();
    let mut n: usize = 0;
    assert(deep(ls@).push(line@) =~= cut(v@.take(0), sep));
    while n < v.len()
        invariant
            n <= v@.len(),
            deep(ls@).push(line@) == cut(v@.take(n as int), sep),
        decreases v@.len() - n,
    {
        let ghost was = ls@;
        let ghost had = line@;
        proof {
            assert(v@.take(n + 1).drop_last() =~= v@.take(n as int));
        }
        if v[n] == sep {
            let ghost whole = line;
            ls.push(line);
            line = Vec::new();
            assert(deep(ls@) =~= deep(was).push(had));
            assert(line@ =~= Seq::<char>::empty());
            assert(deep(ls@).push(line@) =~= deep(was).push(had).push(Seq::empty()));
        } else {
            line.push(v[n]);
            assert(deep(ls@).push(line@) =~= deep(was).push(had).update(
                deep(was).len() as int,
                had.push(v@[n as int]),
            ));
        }
        n = n + 1;
    }
    let ghost was = ls@;
    let ghost had = line@;
    ls.push(line);
    assert(deep(ls@) =~= deep(was).push(had));
    assert(v@.take(n as int) =~= v@);
    ls
}

/// Cut a text at every line feed.
pub fn cut_lines(v: &Vec<char>) -> (ls: Vec<Vec<char>>)
    ensures
        deep(ls@) == cut_up(v@),
{
    cut_at(v, '\n')
}

/// Whether two lines say the same.
pub fn same_line(a: &Vec<char>, b: &Vec<char>) -> (yes: bool)
    ensures
        yes == (a@ == b@),
{
    if a.len() != b.len() {
        return false;
    }
    let mut i: usize = 0;
    while i < a.len()
        invariant
            i <= a@.len(),
            a@.len() == b@.len(),
            forall|j: int| 0 <= j < i ==> a@[j] == #[trigger] b@[j],
        decreases a@.len() - i,
    {
        if a[i] != b[i] {
            return false;
        }
        i = i + 1;
    }
    assert(a@ =~= b@);
    true
}

/// A line, held separately.
pub fn copy_line(a: &Vec<char>) -> (b: Vec<char>)
    ensures
        b@ == a@,
{
    let mut b: Vec<char> = Vec::new();
    let mut i: usize = 0;
    while i < a.len()
        invariant
            i <= a@.len(),
            b@ == a@.take(i as int),
        decreases a@.len() - i,
    {
        b.push(a[i]);
        i = i + 1;
    }
    assert(b@ =~= a@);
    b
}

/// A line without the carriage return at its end.
pub open spec fn bare(s: Seq<char>) -> Seq<char> {
    if s.len() > 0 && s.last() == '\r' { s.drop_last() } else { s }
}

/// The lines of a text, without what ends them. A line feed at the very end
/// begins no line, and a carriage return belongs to the line feed after it.
pub open spec fn lines_of(s: Seq<char>) -> Seq<Seq<char>> {
    let all = cut_up(s);
    let ended = all.drop_last().map_values(|l: Seq<char>| bare(l));
    if all.last().len() == 0 { ended } else { ended.push(all.last()) }
}

/// The lines of a text, without what ends them.
pub fn split_lines(text: &str) -> (ls: Vec<Vec<char>>)
    ensures
        deep(ls@) == lines_of(text@),
{
    let v = chars_of(text);
    let mut all = cut_lines(&v);
    proof {
        lemma_cut_up_some(v@);
    }
    let ghost pieces = deep(all@);
    let ghost last = all@.last()@;
    let tail = all.pop().unwrap();
    assert(deep(all@) =~= pieces.drop_last());
    let mut out: Vec<Vec<char>> = Vec::new();
    let ghost want = pieces.drop_last().map_values(|l: Seq<char>| bare(l));
    let mut n: usize = 0;
    assert(deep(out@) =~= want.take(0));
    while n < all.len()
        invariant
            n <= all@.len(),
            deep(all@) == pieces.drop_last(),
            want == pieces.drop_last().map_values(|l: Seq<char>| bare(l)),
            deep(out@) == want.take(n as int),
        decreases all@.len() - n,
    {
        let mut line = copy_line(&all[n]);
        assert(deep(all@)[n as int] == line@);
        if line.len() > 0 && line[line.len() - 1] == '\r' {
            let ghost was = line@;
            line.pop();
            assert(line@ =~= was.drop_last());
        }
        let ghost had = out@;
        let ghost one = line@;
        out.push(line);
        assert(deep(out@) =~= deep(had).push(one));
        n = n + 1;
        assert(deep(out@) =~= want.take(n as int));
    }
    assert(deep(out@) =~= want);
    if tail.len() > 0 {
        let ghost had = out@;
        let ghost one = tail@;
        out.push(tail);
        assert(deep(out@) =~= deep(had).push(one));
    }
    out
}

} // verus!
