//! Strings as sequences of characters: looking into them, trimming them,
//! cutting them up and putting them together.
use vstd::prelude::*;

use crate::chars::{all_ascii, chars_of, same, string_of, whitespace};
use crate::split::deep;

verus! {

/// Whether a text stands in another at a place.
pub open spec fn match_at(t: Seq<char>, needle: Seq<char>, i: int) -> bool {
    i + needle.len() <= t.len() && t.subrange(i, i + needle.len()) == needle
}

/// The first place from `i` on where a text is found.
pub open spec fn next_match(t: Seq<char>, needle: Seq<char>, i: int) -> Option<int>
    decreases t.len() + 1 - i,
{
    if i + needle.len() > t.len() {
        None
    } else if match_at(t, needle, i) {
        Some(i)
    } else {
        next_match(t, needle, i + 1)
    }
}

/// A place where a text is found is one where it stands.
pub proof fn lemma_next_match(t: Seq<char>, needle: Seq<char>, i: int)
    ensures
        match next_match(t, needle, i) {
            Some(f) => i <= f && f + needle.len() <= t.len() && match_at(t, needle, f),
            None => true,
        },
    decreases t.len() + 1 - i,
{
    if i + needle.len() <= t.len() && !match_at(t, needle, i) {
        lemma_next_match(t, needle, i + 1);
    }
}

/// Whether a text stands in another at a place.
pub fn matches_at(text: &Vec<char>, needle: &Vec<char>, i: usize) -> (yes: bool)
    requires
        i + needle@.len() <= text@.len(),
    ensures
        yes == match_at(text@, needle@, i as int),
{
    let _len = text.len();
    let mut k: usize = 0;
    while k < needle.len()
        invariant
            k <= needle@.len(),
            i + needle@.len() <= text@.len(),
            _len == text@.len(),
            forall|j: int| 0 <= j < k ==> text@[i + j] == #[trigger] needle@[j],
        decreases needle@.len() - k,
    {
        if text[i + k] != needle[k] {
            assert(text@.subrange(i as int, i + needle@.len())[k as int] != needle@[k as int]);
            return false;
        }
        k = k + 1;
    }
    assert(text@.subrange(i as int, i + needle@.len()) =~= needle@);
    true
}

/// The first place from `from` on where a text is found.
pub fn find_next(text: &Vec<char>, needle: &Vec<char>, from: usize) -> (r: Option<usize>)
    requires
        from <= text@.len(),
    ensures
        match next_match(text@, needle@, from as int) {
            Some(f) => r == Some(f as usize) && f <= text@.len(),
            None => r is None,
        },
{
    let mut i: usize = from;
    proof {
        lemma_next_match(text@, needle@, from as int);
    }
    while i < text.len() && needle.len() <= text.len() - i
        invariant
            from <= i <= text@.len(),
            next_match(text@, needle@, from as int) == next_match(text@, needle@, i as int),
        decreases text@.len() - i,
    {
        if matches_at(text, needle, i) {
            return Some(i);
        }
        i = i + 1;
    }
    if i == text.len() && needle.len() == 0 {
        assert(match_at(text@, needle@, i as int)) by {
            assert(text@.subrange(i as int, i as int) =~= needle@);
        }
        return Some(i);
    }
    None
}

/// The place of the last occurrence of a character.
pub open spec fn last_of(s: Seq<char>, c: char) -> Option<int>
    decreases s.len(),
{
    if s.len() == 0 {
        None
    } else if s.last() == c {
        Some(s.len() - 1)
    } else {
        last_of(s.drop_last(), c)
    }
}

/// The place of the last occurrence of a character.
pub fn find_last(v: &Vec<char>, c: char) -> (r: Option<usize>)
    ensures
        match last_of(v@, c) {
            Some(i) => r == Some(i as usize) && 0 <= i < v@.len() && v@[i] == c,
            None => r is None,
        },
{
    let mut n: usize = v.len();
    assert(v@.take(n as int) =~= v@);
    while n > 0
        invariant
            n <= v@.len(),
            last_of(v@, c) == last_of(v@.take(n as int), c),
        decreases n,
    {
        assert(v@.take(n as int).drop_last() =~= v@.take(n - 1));
        if v[n - 1] == c {
            return Some(n - 1);
        }
        n = n - 1;
    }
    None
}

/// The place of the first occurrence of a character from `i` on, or the end.
pub open spec fn first_place(s: Seq<char>, c: char, i: int) -> int
    decreases s.len() - i,
{
    if 0 <= i < s.len() && s[i] != c {
        first_place(s, c, i + 1)
    } else {
        i
    }
}

/// The place of the first occurrence of a character from `from` on, or the
/// end.
pub fn find_first(v: &Vec<char>, c: char, from: usize) -> (at: usize)
    requires
        from <= v@.len(),
    ensures
        at == first_place(v@, c, from as int),
        from <= at <= v@.len(),
        at < v@.len() ==> v@[at as int] == c,
        forall|i: int| from <= i < at ==> #[trigger] v@[i] != c,
{
    let mut at: usize = from;
    while at < v.len() && v[at] != c
        invariant
            from <= at <= v@.len(),
            first_place(v@, c, from as int) == first_place(v@, c, at as int),
            forall|i: int| from <= i < at ==> #[trigger] v@[i] != c,
        decreases v@.len() - at,
    {
        at = at + 1;
    }
    at
}

/// Without the blanks at the front.
pub open spec fn trim_front(s: Seq<char>) -> Seq<char>
    decreases s.len(),
{
    if s.len() > 0 && whitespace(s[0]) { trim_front(s.skip(1)) } else { s }
}

/// Without the blanks at the back.
pub open spec fn trim_back(s: Seq<char>) -> Seq<char>
    decreases s.len(),
{
    if s.len() > 0 && whitespace(s.last()) { trim_back(s.drop_last()) } else { s }
}

/// Without the blanks at either end.
pub open spec fn trimmed(s: Seq<char>) -> Seq<char> {
    trim_back(trim_front(s))
}

/// The characters from `from` up to `to`.
pub fn piece(v: &Vec<char>, from: usize, to: usize) -> (r: Vec<char>)
    requires
        from <= to <= v@.len(),
    ensures
        r@ == v@.subrange(from as int, to as int),
{
    let mut r: Vec<char> = Vec::new();
    let mut at: usize = from;
    while at < to
        invariant
            from <= at <= to <= v@.len(),
            r@ == v@.subrange(from as int, at as int),
        decreases to - at,
    {
        r.push(v[at]);
        at = at + 1;
    }
    r
}

/// Without the blanks at the front.
pub fn trim_start(v: &Vec<char>) -> (r: Vec<char>)
    ensures
        r@ == trim_front(v@),
{
    let mut lo: usize = 0;
    assert(v@.skip(0) =~= v@);
    while lo < v.len() && v[lo].is_whitespace()
        invariant
            lo <= v@.len(),
            trim_front(v@) == trim_front(v@.skip(lo as int)),
        decreases v@.len() - lo,
    {
        assert(v@.skip(lo as int).skip(1) =~= v@.skip(lo + 1));
        lo = lo + 1;
    }
    assert(v@.skip(lo as int) =~= v@.subrange(lo as int, v@.len() as int));
    piece(v, lo, v.len())
}

/// Without the blanks at the back.
pub fn trim_end(v: &Vec<char>) -> (r: Vec<char>)
    ensures
        r@ == trim_back(v@),
{
    let mut hi: usize = v.len();
    assert(v@.take(hi as int) =~= v@);
    while hi > 0 && v[hi - 1].is_whitespace()
        invariant
            hi <= v@.len(),
            trim_back(v@) == trim_back(v@.take(hi as int)),
        decreases hi,
    {
        assert(v@.take(hi as int).drop_last() =~= v@.take(hi - 1));
        hi = hi - 1;
    }
    assert(v@.take(hi as int) =~= v@.subrange(0, hi as int));
    piece(v, 0, hi)
}

/// Without the blanks at either end.
pub fn trim(v: &Vec<char>) -> (r: Vec<char>)
    ensures
        r@ == trimmed(v@),
{
    let front = trim_start(v);
    trim_end(&front)
}

/// Whether a text begins with another.
pub fn begins(v: &Vec<char>, p: &str) -> (yes: bool)
    ensures
        yes == p@.is_prefix_of(v@),
{
    let want = chars_of(p);
    if want.len() > v.len() {
        return false;
    }
    assert(v@.subrange(0, want@.len() as int) =~= v@.take(want@.len() as int));
    matches_at(v, &want, 0)
}

/// What is left of a text that begins with another.
pub open spec fn stripped(s: Seq<char>, p: Seq<char>) -> Option<Seq<char>> {
    if p.is_prefix_of(s) { Some(s.skip(p.len() as int)) } else { None }
}

/// What is left of a text that begins with another.
pub fn strip(v: &Vec<char>, p: &str) -> (r: Option<Vec<char>>)
    ensures
        match stripped(v@, p@) {
            Some(rest) => r is Some && r->0@ == rest,
            None => r is None,
        },
{
    let want = chars_of(p);
    if begins(v, p) {
        assert(v@.skip(want@.len() as int) =~= v@.subrange(want@.len() as int, v@.len() as int));
        Some(piece(v, want.len(), v.len()))
    } else {
        None
    }
}

/// Whether a text ends with another.
pub fn ends(v: &Vec<char>, p: &str) -> (yes: bool)
    ensures
        yes == p@.is_suffix_of(v@),
{
    let want = chars_of(p);
    if want.len() > v.len() {
        return false;
    }
    let at = v.len() - want.len();
    assert(v@.subrange(at as int, v@.len() as int) =~= v@.skip(at as int));
    matches_at(v, &want, at)
}

/// Pieces put together with something between each two.
pub open spec fn strung(ls: Seq<Seq<char>>, between: Seq<char>) -> Seq<char>
    decreases ls.len(),
{
    if ls.len() == 0 {
        Seq::empty()
    } else if ls.len() == 1 {
        ls[0]
    } else {
        strung(ls.drop_last(), between) + between + ls.last()
    }
}

/// Put the characters of a list at the end of another.
pub fn extend(v: &mut Vec<char>, more: &Vec<char>)
    ensures
        final(v)@ == old(v)@ + more@,
{
    let ghost base = v@;
    let mut i: usize = 0;
    assert(v@ =~= base + more@.take(0));
    while i < more.len()
        invariant
            i <= more@.len(),
            v@ == base + more@.take(i as int),
        decreases more@.len() - i,
    {
        v.push(more[i]);
        i = i + 1;
        assert(v@ =~= base + more@.take(i as int));
    }
    assert(more@.take(i as int) =~= more@);
}

/// Put pieces together with something between each two.
pub fn string_up(ls: &Vec<Vec<char>>, between: &str) -> (v: Vec<char>)
    ensures
        v@ == strung(deep(ls@), between@),
{
    let gap = chars_of(between);
    let ghost ds = deep(ls@);
    let mut v: Vec<char> = Vec::new();
    let mut n: usize = 0;
    assert(v@ =~= strung(ds.take(0), between@));
    while n < ls.len()
        invariant
            n <= ls@.len(),
            ds == deep(ls@),
            gap@ == between@,
            v@ == strung(ds.take(n as int), between@),
        decreases ls@.len() - n,
    {
        proof {
            assert(ds.take(n + 1).drop_last() =~= ds.take(n as int));
            assert(ds.take(n + 1).last() == ls@[n as int]@);
        }
        if n > 0 {
            extend(&mut v, &gap);
        }
        extend(&mut v, &ls[n]);
        n = n + 1;
        assert(v@ =~= strung(ds.take(n as int), between@));
    }
    assert(ds.take(n as int) =~= ds);
    v
}

/// A list of characters as a string.
pub fn text_of(v: &Vec<char>) -> (s: String)
    ensures
        s@ == v@,
{
    assert(v@.subrange(0, v@.len() as int) =~= v@);
    string_of(v, 0, v.len())
}

/// Whether one text comes before another, character by character in the order
/// of their code points.
pub open spec fn precedes(a: Seq<char>, b: Seq<char>) -> bool
    decreases a.len(),
{
    if b.len() == 0 {
        false
    } else if a.len() == 0 {
        true
    } else if a[0] == b[0] {
        precedes(a.skip(1), b.skip(1))
    } else {
        (a[0] as u32) < (b[0] as u32)
    }
}

/// Whether the rest of one text comes before the rest of another.
pub fn comes_before(a: &Vec<char>, from_a: usize, b: &Vec<char>, from_b: usize) -> (yes: bool)
    requires
        from_a <= a@.len(),
        from_b <= b@.len(),
    ensures
        yes == precedes(a@.skip(from_a as int), b@.skip(from_b as int)),
{
    let mut i: usize = from_a;
    let mut j: usize = from_b;
    while i < a.len() && j < b.len() && a[i] == b[j]
        invariant
            i <= a@.len(),
            j <= b@.len(),
            precedes(a@.skip(from_a as int), b@.skip(from_b as int)) == precedes(
                a@.skip(i as int),
                b@.skip(j as int),
            ),
        decreases a@.len() - i,
    {
        assert(a@.skip(i as int).skip(1) =~= a@.skip(i + 1));
        assert(b@.skip(j as int).skip(1) =~= b@.skip(j + 1));
        i = i + 1;
        j = j + 1;
    }
    if j >= b.len() {
        false
    } else if i >= a.len() {
        true
    } else {
        (a[i] as u32) < (b[j] as u32)
    }
}

/// A text with every place where another stands in it replaced, from the
/// front on.
pub open spec fn replaced(s: Seq<char>, from: Seq<char>, to: Seq<char>) -> Seq<char>
    decreases s.len(),
    via replaced_ends
{
    match next_match(s, from, 0) {
        Some(f) => if from.len() > 0 {
            s.take(f) + to + replaced(s.skip(f + from.len()), from, to)
        } else {
            s
        },
        None => s,
    }
}

#[via_fn]
proof fn replaced_ends(s: Seq<char>, from: Seq<char>, to: Seq<char>) {
    lemma_next_match(s, from, 0);
}

proof fn lemma_match_in_rest(s: Seq<char>, needle: Seq<char>, from: int, i: int)
    requires
        0 <= from <= s.len(),
        0 <= i,
    ensures
        next_match(s, needle, from + i) == match next_match(s.skip(from), needle, i) {
            Some(f) => Some(from + f),
            None => None::<int>,
        },
    decreases s.len() + 1 - i,
{
    let rest = s.skip(from);
    if i + needle.len() <= rest.len() {
        assert(rest.subrange(i, i + needle.len()) =~= s.subrange(
            from + i,
            from + i + needle.len(),
        ));
        if !match_at(rest, needle, i) {
            lemma_match_in_rest(s, needle, from, i + 1);
        }
    }
}

/// A text with every place where another stands in it replaced.
pub fn replace(v: &Vec<char>, from: &str, to: &str) -> (r: Vec<char>)
    requires
        from@.len() > 0,
    ensures
        r@ == replaced(v@, from@, to@),
{
    let needle = chars_of(from);
    let with = chars_of(to);
    let len = v.len();
    let mut r: Vec<char> = Vec::new();
    let mut at: usize = 0;
    assert(v@.skip(0) =~= v@);
    assert(r@ + replaced(v@, from@, to@) =~= replaced(v@, from@, to@));
    while at < len
        invariant_except_break
            r@ + replaced(v@.skip(at as int), from@, to@) == replaced(v@, from@, to@),
        invariant
            at <= len == v@.len(),
            needle@ == from@,
            with@ == to@,
            from@.len() > 0,
        ensures
            at <= len,
            r@ + v@.skip(at as int) == replaced(v@, from@, to@),
        decreases len - at,
    {
        proof {
            lemma_match_in_rest(v@, needle@, at as int, 0);
            lemma_next_match(v@, needle@, at as int);
            lemma_next_match(v@.skip(at as int), needle@, 0);
        }
        match find_next(v, &needle, at) {
            Some(f) => {
                let ghost had = r@;
                let ghost rest = v@.skip(at as int);
                let part = piece(v, at, f);
                extend(&mut r, &part);
                extend(&mut r, &with);
                assert(rest.take(f - at) =~= part@);
                assert(rest.skip(f - at + needle@.len()) =~= v@.skip(f + needle@.len()));
                at = f + needle.len();
                assert(r@ + replaced(v@.skip(at as int), from@, to@) =~= had + replaced(
                    rest,
                    from@,
                    to@,
                ));
            },
            None => {
                break;
            },
        }
        assert(at == len ==> replaced(v@.skip(at as int), from@, to@) == v@.skip(at as int));
    }
    let tail = piece(v, at, len);
    assert(tail@ =~= v@.skip(at as int));
    extend(&mut r, &tail);
    r
}

/// What comes before the first place where a character stands, and what comes
/// after it.
pub open spec fn halves(s: Seq<char>, c: char) -> Option<(Seq<char>, Seq<char>)> {
    let at = first_place(s, c, 0);
    if at < s.len() { Some((s.take(at), s.skip(at + 1))) } else { None }
}

/// What comes before the first place where a character stands, and what comes
/// after it.
pub fn split_once(v: &Vec<char>, c: char) -> (r: Option<(Vec<char>, Vec<char>)>)
    ensures
        match halves(v@, c) {
            Some(p) => r is Some && (r->0).0@ == p.0 && (r->0).1@ == p.1,
            None => r is None,
        },
{
    let len = v.len();
    let at = find_first(v, c, 0);
    if at < len {
        assert(v@.take(at as int) =~= v@.subrange(0, at as int));
        assert(v@.skip(at + 1) =~= v@.subrange(at + 1, len as int));
        Some((piece(v, 0, at), piece(v, at + 1, len)))
    } else {
        None
    }
}

/// Whether two lists of characters are the same as a string.
pub fn reads(v: &Vec<char>, s: &str) -> (yes: bool)
    ensures
        yes == (v@ == s@),
{
    let w = chars_of(s);
    crate::split::same_line(v, &w)
}

/// Whether a text stands in another.
pub open spec fn holds(s: Seq<char>, needle: Seq<char>) -> bool {
    next_match(s, needle, 0) is Some
}

/// Whether a text stands in another.
pub fn contains(s: &str, needle: &str) -> (yes: bool)
    ensures
        yes == holds(s@, needle@),
{
    let v = chars_of(s);
    let n = chars_of(needle);
    find_next(&v, &n, 0).is_some()
}

/// What strings say.
pub open spec fn texts(v: Seq<String>) -> Seq<Seq<char>> {
    v.map_values(|s: String| s@)
}

/// What a string says that may not be there.
pub open spec fn maybe_text(s: Option<String>) -> Option<Seq<char>> {
    match s {
        Some(s) => Some(s@),
        None => None,
    }
}

/// A string that may not be there, held separately.
pub fn copy_maybe(s: &Option<String>) -> (r: Option<String>)
    ensures
        maybe_text(r) == maybe_text(*s),
        r is Some == s is Some,
{
    match s {
        Some(s) => Some(s.clone()),
        None => None,
    }
}

/// Strings, held separately.
pub fn copy_texts(v: &Vec<String>) -> (r: Vec<String>)
    ensures
        texts(r@) == texts(v@),
{
    let mut r: Vec<String> = Vec::new();
    let mut i: usize = 0;
    assert(texts(r@) =~= texts(v@).take(0));
    while i < v.len()
        invariant
            i <= v@.len(),
            texts(r@) == texts(v@).take(i as int),
        decreases v@.len() - i,
    {
        let ghost had = r@;
        r.push(v[i].clone());
        assert(texts(r@) =~= texts(had).push(v@[i as int]@));
        i = i + 1;
        assert(texts(r@) =~= texts(v@).take(i as int));
    }
    assert(texts(v@).take(i as int) =~= texts(v@));
    r
}

/// Whether a text is among others.
pub(crate) fn is_one_of(ts: &Vec<String>, s: &str) -> (yes: bool)
    ensures
        yes == texts(ts@).contains(s@),
{
    let ghost all = texts(ts@);
    let mut i: usize = 0;
    while i < ts.len()
        invariant
            i <= ts@.len(),
            all == texts(ts@),
            forall|k: int| 0 <= k < i ==> #[trigger] all[k] != s@,
        decreases ts@.len() - i,
    {
        assert(all[i as int] == ts@[i as int]@);
        if same(ts[i].as_str(), s) {
            assert(all[i as int] == s@);
            return true;
        }
        i = i + 1;
    }
    false
}

proof fn lemma_trim_front(s: Seq<char>)
    ensures
        trim_front(s).len() <= s.len(),
        trim_front(s).len() > 0 ==> !whitespace(trim_front(s)[0]),
        all_ascii(s) ==> all_ascii(trim_front(s)),
    decreases s.len(),
{
    if s.len() > 0 && whitespace(s[0]) {
        lemma_trim_front(s.skip(1));
    }
}

proof fn lemma_trim_back(s: Seq<char>)
    ensures
        trim_back(s).len() <= s.len(),
        trim_back(s).len() > 0 ==> trim_back(s)[0] == s[0] && !whitespace(trim_back(s).last()),
        all_ascii(s) ==> all_ascii(trim_back(s)),
    decreases s.len(),
{
    if s.len() > 0 && whitespace(s.last()) {
        lemma_trim_back(s.drop_last());
    }
}

/// What is left of a trimmed text has no blank at either end.
pub proof fn lemma_trimmed(s: Seq<char>)
    ensures
        trimmed(s).len() <= s.len(),
        trimmed(s).len() > 0 ==> !whitespace(trimmed(s)[0]) && !whitespace(trimmed(s).last()),
        all_ascii(s) ==> all_ascii(trimmed(s)),
{
    lemma_trim_front(s);
    lemma_trim_back(trim_front(s));
}

/// Trimming what was trimmed changes nothing.
pub proof fn law_trimming_twice_is_trimming_once(s: Seq<char>)
    ensures
        trimmed(trimmed(s)) == trimmed(s),
{
    lemma_trimmed(s);
}

} // verus!
