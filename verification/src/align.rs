//! Lining two texts up: which line of one is which line of the other.
//!
//! What the two share at either end is matched first. Between, they are lined
//! up on the lines that occur exactly once in each, as many of them as are in
//! the same order in both, and what is left between those is lined up in the
//! same way again.
use vstd::prelude::*;

use crate::lines::whole;
use crate::split::{copy_line, deep, same_line};

verus! {

// ---------------------------------------------------------------------------
// Numbering lines
// ---------------------------------------------------------------------------

/// The place of the first line that says that.
pub open spec fn first_of(ls: Seq<Seq<char>>, x: Seq<char>) -> int
    decreases ls.len(),
{
    if ls.len() == 0 {
        0
    } else if first_of(ls.drop_last(), x) < ls.len() - 1 {
        first_of(ls.drop_last(), x)
    } else if ls.last() == x {
        ls.len() - 1
    } else {
        ls.len() as int
    }
}

/// Lines by the number of the first that says the same.
pub open spec fn numbered(ls: Seq<Seq<char>>) -> Seq<usize> {
    ls.map_values(|l: Seq<char>| first_of(ls, l) as usize)
}

pub proof fn lemma_first_of(ls: Seq<Seq<char>>, x: Seq<char>)
    ensures
        0 <= first_of(ls, x) <= ls.len(),
        first_of(ls, x) < ls.len() ==> ls[first_of(ls, x)] == x,
        forall|i: int| 0 <= i < first_of(ls, x) ==> #[trigger] ls[i] != x,
    decreases ls.len(),
{
    if ls.len() > 0 {
        lemma_first_of(ls.drop_last(), x);
        assert forall|i: int| 0 <= i < first_of(ls, x) implies #[trigger] ls[i] != x by {
            if i < ls.len() - 1 {
                assert(ls.drop_last()[i] == ls[i]);
            }
        }
    }
}

/// Lines have the same number just where they say the same.
pub proof fn law_numbers_stand_for_lines(ls: Seq<Seq<char>>, i: int, j: int)
    requires
        0 <= i < ls.len() <= usize::MAX,
        0 <= j < ls.len(),
    ensures
        numbered(ls)[i] == numbered(ls)[j] <==> ls[i] == ls[j],
        numbered(ls)[i] < ls.len(),
{
    lemma_first_of(ls, ls[i]);
    lemma_first_of(ls, ls[j]);
}

/// A number made of the characters of a line, the same for lines that say
/// the same.
pub open spec fn digest(l: Seq<char>) -> u64
    decreases l.len(),
{
    if l.len() == 0 {
        0
    } else {
        digest(l.drop_last()).wrapping_mul(0x100_0000_01b3).wrapping_add(l.last() as u64)
    }
}

fn digest_of(l: &Vec<char>) -> (d: u64)
    ensures
        d == digest(l@),
{
    let mut d: u64 = 0;
    let mut n: usize = 0;
    while n < l.len()
        invariant
            n <= l@.len(),
            d == digest(l@.take(n as int)),
        decreases l@.len() - n,
    {
        assert(l@.take(n + 1).drop_last() =~= l@.take(n as int));
        d = d.wrapping_mul(0x100_0000_01b3).wrapping_add(l[n] as u64);
        n = n + 1;
    }
    assert(l@.take(n as int) =~= l@);
    d
}

/// Number lines by the first that says the same.
pub fn number(ls: &Vec<Vec<char>>) -> (ids: Vec<usize>)
    ensures
        ids@ == numbered(deep(ls@)),
{
    broadcast use vstd::std_specs::hash::group_hash_axioms;

    let ghost ds = deep(ls@);
    let mut ids: Vec<usize> = Vec::new();
    // The first lines there are of each digest.
    let mut firsts: std::collections::HashMap<u64, Vec<usize>> = std::collections::HashMap::new();
    let mut n: usize = 0;
    while n < ls.len()
        invariant
            n <= ls@.len(),
            ds == deep(ls@),
            ids@.len() == n,
            forall|i: int| 0 <= i < n ==> (#[trigger] ids@[i]) == first_of(ds, ds[i]),
            forall|i: int|
                0 <= i < n && first_of(ds, ds[i]) == i ==> firsts@.contains_key(
                    digest(#[trigger] ds[i]),
                ) && firsts@[digest(ds[i])]@.contains(i as usize),
            forall|d: u64, k: int|
                firsts@.contains_key(d) && 0 <= k < firsts@[d]@.len() ==> (#[trigger] firsts@[d]@[k]) < n
                    && first_of(ds, ds[firsts@[d]@[k] as int]) == firsts@[d]@[k],
        decreases ls@.len() - n,
    {
        broadcast use vstd::std_specs::hash::group_hash_axioms;

        let d = digest_of(&ls[n]);
        let ghost was = firsts@;
        let mut bucket: Vec<usize> = match firsts.remove(&d) {
            Some(bucket) => bucket,
            None => Vec::new(),
        };
        let ghost held = bucket@;
        let mut found: usize = n;
        let mut k: usize = 0;
        while k < bucket.len() && found == n
            invariant
                k <= bucket@.len(),
                n < ls@.len(),
                found <= n,
                ds == deep(ls@),
                bucket@ == held,
                forall|j: int|
                    0 <= j < held.len() ==> (#[trigger] held[j]) < n && first_of(
                        ds,
                        ds[held[j] as int],
                    ) == held[j],
                found < n ==> ds[found as int] == ds[n as int] && first_of(ds, ds[found as int])
                    == found,
                found == n ==> forall|j: int| 0 <= j < k ==> ds[(#[trigger] held[j]) as int] != ds[n as int],
            decreases bucket@.len() - k,
        {
            let at = bucket[k];
            if same_line(&ls[at], &ls[n]) {
                assert(ds[at as int] == ls@[at as int]@);
                assert(ds[n as int] == ls@[n as int]@);
                found = at;
            } else {
                assert(ds[at as int] == ls@[at as int]@);
                assert(ds[n as int] == ls@[n as int]@);
            }
            k = k + 1;
        }
        proof {
            lemma_first_of(ds, ds[n as int]);
            assert(ds[n as int] == ls@[n as int]@);
            if found == n {
                let f = first_of(ds, ds[n as int]);
                if f < n {
                    assert(ds[f] == ds[n as int]);
                    assert(was.contains_key(digest(ds[f])) && was[digest(ds[f])]@.contains(f as usize));
                    let j = choose|j: int| 0 <= j < held.len() && held[j] == f as usize;
                    assert(ds[held[j] as int] != ds[n as int]);
                    assert(false);
                }
            }
        }
        if found == n {
            bucket.push(n);
        }
        ids.push(found);
        let ghost now = bucket@;
        firsts.insert(d, bucket);
        proof {
            assert forall|i: int| 0 <= i < n + 1 && first_of(ds, ds[i]) == i implies firsts@.contains_key(
                digest(#[trigger] ds[i]),
            ) && firsts@[digest(ds[i])]@.contains(i as usize) by {
                if i < n {
                    assert(was.contains_key(digest(ds[i])) && was[digest(ds[i])]@.contains(i as usize));
                    if digest(ds[i]) == d {
                        let j = choose|j: int| 0 <= j < held.len() && held[j] == i as usize;
                        assert(now[j] == i as usize);
                    }
                } else {
                    assert(found == n);
                    assert(now[now.len() - 1] == n);
                }
            }
        }
        n = n + 1;
    }
    assert(ids@ =~= numbered(ds));
    ids
}

// ---------------------------------------------------------------------------
// Lines that occur once in each
// ---------------------------------------------------------------------------

/// How often a number occurs from `from` up to `to`.
pub open spec fn times(ids: Seq<usize>, from: int, to: int, x: int) -> nat
    decreases to - from,
{
    if to <= from {
        0
    } else {
        times(ids, from, to - 1, x) + if ids[to - 1] == x { 1nat } else { 0nat }
    }
}

/// The last place from `from` up to `to` where a number occurs.
pub open spec fn last_place(ids: Seq<usize>, from: int, to: int, x: int) -> int
    decreases to - from,
{
    if to <= from || ids[to - 1] == x {
        to - 1
    } else {
        last_place(ids, from, to - 1, x)
    }
}

/// A stretch of one text and a stretch of the other: from `a` up to `b`, and
/// from `c` up to `d`.
pub ghost struct Stretch {
    pub a: int,
    pub b: int,
    pub c: int,
    pub d: int,
}

/// The lines that occur exactly once in either stretch, in the order they
/// are in in the second, up to `j` there.
pub open spec fn shared(old: Seq<usize>, new: Seq<usize>, s: Stretch, j: int) -> Seq<(int, int)>
    decreases j - s.c,
{
    if j <= s.c {
        Seq::empty()
    } else {
        let less = shared(old, new, s, j - 1);
        let x = new[j - 1] as int;
        if times(old, s.a, s.b, x) == 1 && times(new, s.c, s.d, x) == 1 {
            less.push((last_place(old, s.a, s.b, x), j - 1))
        } else {
            less
        }
    }
}

/// The first pile from `k` on whose card does not come before `x`.
pub open spec fn pile_for(common: Seq<(int, int)>, piles: Seq<int>, x: int, k: int) -> int
    decreases piles.len() - k,
{
    if k < piles.len() && common[piles[k]].0 < x {
        pile_for(common, piles, x, k + 1)
    } else {
        k
    }
}

/// Cards dealt onto piles: the card on top of each, and for each card the one
/// that was on top of the pile before it.
pub ghost struct Dealt {
    pub piles: Seq<int>,
    pub back: Seq<Option<int>>,
}

/// The first `n` lines that are shared, each dealt onto the first pile whose
/// card it does not come after in the first text.
pub open spec fn dealt(common: Seq<(int, int)>, n: int) -> Dealt
    decreases n,
{
    if n <= 0 {
        Dealt { piles: Seq::empty(), back: Seq::empty() }
    } else {
        let w = dealt(common, n - 1);
        let p = pile_for(common, w.piles, common[n - 1].0, 0);
        Dealt {
            piles: if p < w.piles.len() { w.piles.update(p, n - 1) } else { w.piles.push(n - 1) },
            back: w.back.push(if p > 0 { Some(w.piles[p - 1]) } else { None }),
        }
    }
}

/// The lines that lead to a card, from the first pile on.
pub open spec fn chain(common: Seq<(int, int)>, back: Seq<Option<int>>, card: int) -> Seq<(int, int)>
    decreases card,
{
    match back[card] {
        Some(q) => if 0 <= q < card {
            chain(common, back, q).push(common[card])
        } else {
            seq![common[card]]
        },
        None => seq![common[card]],
    }
}

/// A longest run of shared lines that are in the same order in both texts.
pub open spec fn run_of(common: Seq<(int, int)>) -> Seq<(int, int)> {
    let w = dealt(common, common.len() as int);
    if w.piles.len() == 0 {
        Seq::empty()
    } else {
        chain(common, w.back, w.piles.last())
    }
}

/// The lines to line two stretches up on.
pub open spec fn anchors(old: Seq<usize>, new: Seq<usize>, s: Stretch) -> Seq<(int, int)> {
    run_of(shared(old, new, s, s.d))
}

/// Whether pairs go up in both, within two stretches.
pub open spec fn climbs(run: Seq<(int, int)>, s: Stretch) -> bool {
    &&& forall|i: int|
        0 <= i < run.len() ==> s.a <= (#[trigger] run[i]).0 < s.b && s.c <= run[i].1 < s.d
    &&& forall|i: int, j: int|
        0 <= i < j < run.len() ==> (#[trigger] run[i]).0 < (#[trigger] run[j]).0 && run[i].1 < run[j].1
}

proof fn lemma_last_place(ids: Seq<usize>, from: int, to: int, x: int)
    requires
        times(ids, from, to, x) >= 1,
    ensures
        from <= last_place(ids, from, to, x) < to,
        ids[last_place(ids, from, to, x)] == x,
    decreases to - from,
{
    if ids[to - 1] != x {
        lemma_last_place(ids, from, to - 1, x);
    }
}

proof fn lemma_shared(old: Seq<usize>, new: Seq<usize>, s: Stretch, j: int)
    requires
        j <= s.d,
    ensures
        ({
            let m = shared(old, new, s, j);
            &&& forall|i: int|
                0 <= i < m.len() ==> s.a <= (#[trigger] m[i]).0 < s.b && s.c <= m[i].1 < j && old[m[i].0]
                    == new[m[i].1]
            &&& forall|i: int, k: int|
                0 <= i < k < m.len() ==> (#[trigger] m[i]).1 < (#[trigger] m[k]).1
            &&& m.len() <= if j > s.c { j - s.c } else { 0 }
        }),
    decreases j - s.c,
{
    if j > s.c {
        lemma_shared(old, new, s, j - 1);
        let x = new[j - 1] as int;
        if times(old, s.a, s.b, x) == 1 {
            lemma_last_place(old, s.a, s.b, x);
        }
    }
}

proof fn lemma_pile_for(common: Seq<(int, int)>, piles: Seq<int>, x: int, k: int)
    requires
        0 <= k <= piles.len(),
    ensures
        k <= pile_for(common, piles, x, k) <= piles.len(),
        forall|i: int|
            k <= i < pile_for(common, piles, x, k) ==> common[#[trigger] piles[i]].0 < x,
        pile_for(common, piles, x, k) < piles.len() ==> common[piles[pile_for(
            common,
            piles,
            x,
            k,
        )]].0 >= x,
    decreases piles.len() - k,
{
    if k < piles.len() && common[piles[k]].0 < x {
        lemma_pile_for(common, piles, x, k + 1);
    }
}

/// What holds of the piles: the cards on top go up, and each card came after
/// the one it points back to.
pub open spec fn dealt_well(common: Seq<(int, int)>, w: Dealt, n: int) -> bool {
    &&& w.back.len() == n
    &&& w.piles.len() <= n
    &&& n > 0 ==> w.piles.len() > 0
    &&& forall|i: int| 0 <= i < w.piles.len() ==> 0 <= (#[trigger] w.piles[i]) < n
    &&& forall|i: int, j: int|
        0 <= i < j < w.piles.len() ==> common[#[trigger] w.piles[i]].0 <= common[#[trigger] w.piles[j]].0
    &&& forall|i: int|
        0 <= i < n ==> match #[trigger] w.back[i] {
            Some(q) => 0 <= q < i && common[q].0 < common[i].0,
            None => true,
        }
}

proof fn lemma_dealt(common: Seq<(int, int)>, n: int)
    requires
        0 <= n <= common.len(),
    ensures
        dealt_well(common, dealt(common, n), n),
    decreases n,
{
    if n > 0 {
        lemma_dealt(common, n - 1);
        let w = dealt(common, n - 1);
        let x = common[n - 1].0;
        let p = pile_for(common, w.piles, x, 0);
        lemma_pile_for(common, w.piles, x, 0);
        let v = dealt(common, n);
        assert forall|i: int, j: int| 0 <= i < j < v.piles.len() implies common[#[trigger] v.piles[i]].0
            <= common[#[trigger] v.piles[j]].0 by {
            if i == p {
                assert(common[w.piles[p]].0 <= common[w.piles[j]].0);
            } else if j == p {
                assert(common[w.piles[i]].0 < x);
            } else {
                assert(common[w.piles[i]].0 <= common[w.piles[j]].0);
            }
        }
        assert forall|i: int| 0 <= i < n implies match #[trigger] v.back[i] {
            Some(q) => 0 <= q < i && common[q].0 < common[i].0,
            None => true,
        } by {
            if i < n - 1 {
                assert(v.back[i] == w.back[i]);
            } else if p > 0 {
                assert(common[w.piles[p - 1]].0 < x);
            }
        }
    }
}

proof fn lemma_chain(common: Seq<(int, int)>, w: Dealt, card: int)
    requires
        0 <= card < common.len(),
        dealt_well(common, w, common.len() as int),
        forall|i: int, k: int|
            0 <= i < k < common.len() ==> (#[trigger] common[i]).1 < (#[trigger] common[k]).1,
    ensures
        ({
            let r = chain(common, w.back, card);
            &&& 0 < r.len() <= card + 1
            &&& r.last() == common[card]
            &&& forall|i: int| 0 <= i < r.len() ==> common.contains(#[trigger] r[i])
            &&& forall|i: int, j: int|
                0 <= i < j < r.len() ==> (#[trigger] r[i]).0 < (#[trigger] r[j]).0 && r[i].1 < r[j].1
        }),
    decreases card,
{
    let r = chain(common, w.back, card);
    match w.back[card] {
        Some(q) => {
            lemma_chain(common, w, q);
            let less = chain(common, w.back, q);
            assert(r =~= less.push(common[card]));
            assert(common[q].1 < common[card].1);
            assert forall|i: int| 0 <= i < r.len() implies common.contains(#[trigger] r[i]) by {
                if i < less.len() {
                    assert(r[i] == less[i]);
                } else {
                    assert(r[i] == common[card]);
                }
            }
            assert forall|i: int, j: int| 0 <= i < j < r.len() implies (#[trigger] r[i]).0 < (
            #[trigger] r[j]).0 && r[i].1 < r[j].1 by {
                assert(r[i] == less[i]);
                if j < less.len() {
                    assert(r[j] == less[j]);
                } else if i < less.len() - 1 {
                    assert(less[i].0 < less[less.len() - 1].0);
                }
            }
        },
        None => {
            assert(r[0] == common[card]);
        },
    }
}

/// What two texts are lined up on is in both, in the same order, and on lines
/// that say the same.
pub proof fn law_anchors_climb(old: Seq<usize>, new: Seq<usize>, s: Stretch)
    requires
        s.a <= s.b,
        s.c <= s.d,
    ensures
        climbs(anchors(old, new, s), s),
        anchors(old, new, s).len() <= s.d - s.c,
        forall|i: int|
            0 <= i < anchors(old, new, s).len() ==> old[(#[trigger] anchors(old, new, s)[i]).0]
                == new[anchors(old, new, s)[i].1],
{
    let common = shared(old, new, s, s.d);
    lemma_shared(old, new, s, s.d);
    lemma_dealt(common, common.len() as int);
    let w = dealt(common, common.len() as int);
    if w.piles.len() > 0 {
        let top = w.piles[w.piles.len() - 1];
        lemma_chain(common, w, top);
        let r = anchors(old, new, s);
        assert forall|i: int| 0 <= i < r.len() implies s.a <= (#[trigger] r[i]).0 < s.b && s.c <= r[i].1
            < s.d && old[r[i].0] == new[r[i].1] by {
            assert(common.contains(r[i]));
            let k = choose|k: int| 0 <= k < common.len() && common[k] == r[i];
            assert(common[k] == r[i]);
        }
    }
}

/// Whether cards are picked in the order they are in, and go up in the first
/// text too.
pub open spec fn picked(common: Seq<(int, int)>, cards: Seq<int>, n: int) -> bool {
    &&& forall|i: int| 0 <= i < cards.len() ==> 0 <= #[trigger] cards[i] < n
    &&& forall|i: int, j: int|
        0 <= i < j < cards.len() ==> #[trigger] cards[i] < #[trigger] cards[j]
            && common[cards[i]].0 < common[cards[j]].0
}

/// There are as many piles as any pick has cards, and the card on the pile of
/// its length is no further on than its last.
proof fn lemma_piles_suffice(common: Seq<(int, int)>, cards: Seq<int>, n: int)
    requires
        0 <= n <= common.len(),
        cards.len() > 0,
        picked(common, cards, n),
    ensures
        ({
            let w = dealt(common, n);
            &&& cards.len() <= w.piles.len()
            &&& common[w.piles[cards.len() - 1]].0 <= common[cards.last()].0
        }),
    decreases n,
{
    let m = cards.len() as int;
    assert(0 <= cards[m - 1] < n);
    let w = dealt(common, n - 1);
    let v = dealt(common, n);
    let x = common[n - 1].0;
    let p = pile_for(common, w.piles, x, 0);
    lemma_dealt(common, n - 1);
    lemma_pile_for(common, w.piles, x, 0);
    if cards[m - 1] < n - 1 {
        assert(picked(common, cards, n - 1)) by {
            assert forall|i: int| 0 <= i < cards.len() implies 0 <= #[trigger] cards[i] < n - 1 by {
                if i < m - 1 {
                    assert(cards[i] < cards[m - 1]);
                }
            }
        }
        lemma_piles_suffice(common, cards, n - 1);
    } else if m > 1 {
        let less = cards.drop_last();
        assert(picked(common, less, n - 1)) by {
            assert forall|i: int| 0 <= i < less.len() implies 0 <= #[trigger] less[i] < n - 1 by {
                assert(cards[i] < cards[m - 1]);
            }
            assert forall|i: int, j: int| 0 <= i < j < less.len() implies #[trigger] less[i]
                < #[trigger] less[j] && common[less[i]].0 < common[less[j]].0 by {
                assert(cards[i] < cards[j]);
            }
        }
        lemma_piles_suffice(common, less, n - 1);
        assert(cards[m - 2] < cards[m - 1]);
        assert(less.last() == cards[m - 2]);
        assert(common[w.piles[m - 2]].0 < x);
        if p <= m - 2 {
            assert(p < w.piles.len());
            if p < m - 2 {
                assert(common[w.piles[p]].0 <= common[w.piles[m - 2]].0);
            }
        }
    }
}

/// The lines that lead to a card do not change when more cards are dealt.
proof fn lemma_chain_kept(
    common: Seq<(int, int)>,
    back: Seq<Option<int>>,
    next: Option<int>,
    card: int,
)
    requires
        0 <= card < back.len(),
    ensures
        chain(common, back.push(next), card) == chain(common, back, card),
    decreases card,
{
    match back[card] {
        Some(q) => {
            if 0 <= q < card {
                lemma_chain_kept(common, back, next, q);
            }
        },
        None => {},
    }
}

/// As many lines lead to a card on top as there are piles up to its own.
proof fn lemma_chain_length(common: Seq<(int, int)>, n: int, k: int)
    requires
        0 <= n <= common.len(),
        0 <= k < dealt(common, n).piles.len(),
    ensures
        chain(common, dealt(common, n).back, dealt(common, n).piles[k]).len() == k + 1,
    decreases n,
{
    if n > 0 {
        let w = dealt(common, n - 1);
        let v = dealt(common, n);
        let x = common[n - 1].0;
        let p = pile_for(common, w.piles, x, 0);
        lemma_dealt(common, n - 1);
        lemma_pile_for(common, w.piles, x, 0);
        if k == p {
            assert(v.piles[k] == n - 1);
            if p > 0 {
                let q = w.piles[p - 1];
                lemma_chain_length(common, n - 1, p - 1);
                lemma_chain_kept(common, w.back, v.back[n - 1], q);
                assert(v.back[n - 1] == Some(q));
            }
        } else {
            assert(v.piles[k] == w.piles[k]);
            lemma_chain_length(common, n - 1, k);
            lemma_chain_kept(common, w.back, v.back[n - 1], w.piles[k]);
        }
    }
}

/// Two stretches are lined up on as many of the lines that occur once in either
/// as can be: no pick of those that is in order in both has more.
pub proof fn law_no_run_is_longer(old: Seq<usize>, new: Seq<usize>, s: Stretch, cards: Seq<int>)
    requires
        s.c <= s.d,
        ({
            let common = shared(old, new, s, s.d);
            picked(common, cards, common.len() as int)
        }),
    ensures
        cards.len() <= anchors(old, new, s).len(),
{
    let common = shared(old, new, s, s.d);
    let n = common.len() as int;
    if cards.len() > 0 {
        lemma_piles_suffice(common, cards, n);
        let w = dealt(common, n);
        lemma_chain_length(common, n, w.piles.len() - 1);
    }
}

// ---------------------------------------------------------------------------
// Lining up
// ---------------------------------------------------------------------------

/// The pairs of lines that two stretches are lined up on.
pub open spec fn alignment(old: Seq<usize>, new: Seq<usize>, s: Stretch) -> Seq<(int, int)>
    decreases (s.b - s.a) + (s.d - s.c), s.d - s.c + 2,
    when s.a <= s.b && s.c <= s.d
{
    let run = anchors(old, new, s);
    if s.a == s.b || s.c == s.d {
        Seq::empty()
    } else if old[s.a] == new[s.c] {
        seq![(s.a, s.c)] + alignment(old, new, Stretch { a: s.a + 1, c: s.c + 1, ..s })
    } else if old[s.b - 1] == new[s.d - 1] {
        alignment(old, new, Stretch { b: s.b - 1, d: s.d - 1, ..s }).push((s.b - 1, s.d - 1))
    } else if run.len() == 0 || !climbs(run, s) || run.len() > s.d - s.c {
        Seq::empty()
    } else {
        through(old, new, s, run, run.len() as int) + alignment(
            old,
            new,
            Stretch { a: run.last().0 + 1, c: run.last().1 + 1, ..s },
        )
    }
}

/// The pairs up to and with the `k`th of those that two stretches are lined up
/// on.
pub open spec fn through(
    old: Seq<usize>,
    new: Seq<usize>,
    s: Stretch,
    run: Seq<(int, int)>,
    k: int,
) -> Seq<(int, int)>
    decreases (s.b - s.a) + (s.d - s.c), k,
    when s.a <= s.b && s.c <= s.d && 0 <= k <= run.len() && climbs(run, s)
{
    if k <= 0 {
        Seq::empty()
    } else {
        (through(old, new, s, run, k - 1) + alignment(old, new, gap(s, run, k - 1))).push(run[k - 1])
    }
}

/// What lies before the `k`th pair, counted from nought, and after the one
/// before that.
pub open spec fn gap(s: Stretch, run: Seq<(int, int)>, k: int) -> Stretch {
    Stretch {
        a: if k > 0 { run[k - 1].0 + 1 } else { s.a },
        b: run[k].0,
        c: if k > 0 { run[k - 1].1 + 1 } else { s.c },
        d: run[k].1,
    }
}

/// Two texts are lined up on pairs that go up in both, of lines that say the
/// same.
pub proof fn law_alignment_climbs(old: Seq<usize>, new: Seq<usize>, s: Stretch)
    requires
        s.a <= s.b,
        s.c <= s.d,
    ensures
        climbs(alignment(old, new, s), s),
        forall|i: int|
            0 <= i < alignment(old, new, s).len() ==> old[(#[trigger] alignment(old, new, s)[i]).0]
                == new[alignment(old, new, s)[i].1],
    decreases (s.b - s.a) + (s.d - s.c), s.d - s.c + 2,
{
    let run = anchors(old, new, s);
    let m = alignment(old, new, s);
    if s.a == s.b || s.c == s.d {
    } else if old[s.a] == new[s.c] {
        let r = Stretch { a: s.a + 1, c: s.c + 1, ..s };
        law_alignment_climbs(old, new, r);
        let less = alignment(old, new, r);
        assert forall|i: int| 0 <= i < m.len() implies (#[trigger] m[i]) == if i == 0 {
            (s.a, s.c)
        } else {
            less[i - 1]
        } by {}
    } else if old[s.b - 1] == new[s.d - 1] {
        let r = Stretch { b: s.b - 1, d: s.d - 1, ..s };
        law_alignment_climbs(old, new, r);
    } else if run.len() > 0 {
        law_anchors_climb(old, new, s);
        lemma_through_climbs(old, new, s, run, run.len() as int);
        let r = Stretch { a: run.last().0 + 1, c: run.last().1 + 1, ..s };
        assert(run[run.len() - 1] == run.last());
        law_alignment_climbs(old, new, r);
        let first = through(old, new, s, run, run.len() as int);
        let second = alignment(old, new, r);
        assert forall|i: int| 0 <= i < m.len() implies (#[trigger] m[i]) == if i < first.len() {
            first[i]
        } else {
            second[i - first.len()]
        } by {}
    }
}

proof fn lemma_through_climbs(
    old: Seq<usize>,
    new: Seq<usize>,
    s: Stretch,
    run: Seq<(int, int)>,
    k: int,
)
    requires
        s.a <= s.b,
        s.c <= s.d,
        0 <= k <= run.len() <= s.d - s.c,
        climbs(run, s),
        forall|i: int| 0 <= i < run.len() ==> old[(#[trigger] run[i]).0] == new[run[i].1],
    ensures
        ({
            let m = through(old, new, s, run, k);
            &&& climbs(
                m,
                Stretch {
                    b: if k > 0 { run[k - 1].0 + 1 } else { s.a },
                    d: if k > 0 { run[k - 1].1 + 1 } else { s.c },
                    ..s
                },
            )
            &&& forall|i: int| 0 <= i < m.len() ==> old[(#[trigger] m[i]).0] == new[m[i].1]
        }),
    decreases (s.b - s.a) + (s.d - s.c), k,
{
    if k > 0 {
        lemma_through_climbs(old, new, s, run, k - 1);
        let g = gap(s, run, k - 1);
        if k > 1 {
            assert(run[k - 2].0 < run[k - 1].0 && run[k - 2].1 < run[k - 1].1);
        }
        assert(s.a <= run[k - 1].0 < s.b && s.c <= run[k - 1].1 < s.d);
        law_alignment_climbs(old, new, g);
        let m = through(old, new, s, run, k);
        let first = through(old, new, s, run, k - 1);
        let second = alignment(old, new, g);
        assert forall|i: int| 0 <= i < m.len() implies (#[trigger] m[i]) == if i < first.len() {
            first[i]
        } else if i < first.len() + second.len() {
            second[i - first.len()]
        } else {
            run[k - 1]
        } by {}
    }
}

// ---------------------------------------------------------------------------
// Doing it
// ---------------------------------------------------------------------------

proof fn lemma_times(ids: Seq<usize>, from: int, to: int, x: int)
    requires
        from <= to,
    ensures
        times(ids, from, to, x) <= to - from,
    decreases to - from,
{
    if from < to {
        lemma_times(ids, from, to - 1, x);
    }
}

/// How often each number below `total` occurs from `from` up to `to`, and
/// where it does last.
fn tallies(ids: &Vec<usize>, from: usize, to: usize, total: usize) -> (r: (Vec<usize>, Vec<usize>))
    requires
        from <= to <= ids@.len(),
        forall|i: int| 0 <= i < ids@.len() ==> (#[trigger] ids@[i]) < total,
    ensures
        r.0@.len() == total,
        r.1@.len() == total,
        forall|x: int|
            0 <= x < total ==> (#[trigger] r.0@[x]) == times(ids@, from as int, to as int, x),
        forall|x: int|
            0 <= x < total && times(ids@, from as int, to as int, x) >= 1 ==> (#[trigger] r.1@[x])
                == last_place(ids@, from as int, to as int, x),
{
    let mut counts: Vec<usize> = Vec::new();
    let mut lasts: Vec<usize> = Vec::new();
    let mut n: usize = 0;
    while n < total
        invariant
            n <= total,
            counts@.len() == n,
            lasts@.len() == n,
            forall|x: int| 0 <= x < n ==> (#[trigger] counts@[x]) == 0,
        decreases total - n,
    {
        counts.push(0);
        lasts.push(0);
        n = n + 1;
    }
    let mut at: usize = from;
    while at < to
        invariant
            from <= at <= to <= ids@.len(),
            counts@.len() == total,
            lasts@.len() == total,
            forall|i: int| 0 <= i < ids@.len() ==> (#[trigger] ids@[i]) < total,
            forall|x: int|
                0 <= x < total ==> (#[trigger] counts@[x]) == times(ids@, from as int, at as int, x),
            forall|x: int|
                0 <= x < total && times(ids@, from as int, at as int, x) >= 1 ==> (
                #[trigger] lasts@[x]) == last_place(ids@, from as int, at as int, x),
        decreases to - at,
    {
        let x = ids[at];
        proof {
            lemma_times(ids@, from as int, at as int, x as int);
        }
        assert(counts@[x as int] == times(ids@, from as int, at as int, x as int));
        counts.set(x, counts[x] + 1);
        lasts.set(x, at);
        at = at + 1;
    }
    (counts, lasts)
}

proof fn lemma_pile_is(common: Seq<(int, int)>, piles: Seq<int>, x: int, k: int, p: int)
    requires
        0 <= k <= p <= piles.len(),
        forall|i: int| 0 <= i < p ==> common[#[trigger] piles[i]].0 < x,
        p < piles.len() ==> common[piles[p]].0 >= x,
    ensures
        pile_for(common, piles, x, k) == p,
    decreases p - k,
{
    if k < p {
        assert(common[piles[k]].0 < x);
        lemma_pile_is(common, piles, x, k + 1, p);
    }
}

/// Whole numbers in place of machine ones.
pub open spec fn ints(v: Seq<usize>) -> Seq<int> {
    v.map_values(|x: usize| x as int)
}

/// The first pile whose card does not come before `x`.
fn find_pile(common: &Vec<(usize, usize)>, piles: &Vec<usize>, x: usize) -> (p: usize)
    requires
        forall|i: int| 0 <= i < piles@.len() ==> (#[trigger] piles@[i]) < common@.len(),
        forall|i: int, j: int|
            0 <= i < j < piles@.len() ==> common@[(#[trigger] piles@[i]) as int].0
                <= common@[(#[trigger] piles@[j]) as int].0,
    ensures
        p <= piles@.len(),
        p == pile_for(whole(common@), ints(piles@), x as int, 0),
{
    let mut lo: usize = 0;
    let mut hi: usize = piles.len();
    while lo < hi
        invariant
            lo <= hi <= piles@.len(),
            forall|i: int| 0 <= i < piles@.len() ==> (#[trigger] piles@[i]) < common@.len(),
            forall|i: int, j: int|
                0 <= i < j < piles@.len() ==> common@[(#[trigger] piles@[i]) as int].0
                    <= common@[(#[trigger] piles@[j]) as int].0,
            forall|i: int| 0 <= i < lo ==> common@[(#[trigger] piles@[i]) as int].0 < x,
            forall|i: int|
                hi <= i < piles@.len() ==> common@[(#[trigger] piles@[i]) as int].0 >= x,
        decreases hi - lo,
    {
        let mid = lo + (hi - lo) / 2;
        if common[piles[mid]].0 < x {
            lo = mid + 1;
        } else {
            hi = mid;
        }
    }
    proof {
        let c = whole(common@);
        let p = ints(piles@);
        assert forall|i: int| 0 <= i < lo implies c[#[trigger] p[i]].0 < x by {
            assert(p[i] == piles@[i] as int);
        }
        if lo < piles@.len() {
            assert(p[lo as int] == piles@[lo as int] as int);
        }
        lemma_pile_is(c, p, x as int, 0, lo as int);
    }
    lo
}

/// What each card points back to, as whole numbers.
pub open spec fn int_links(v: Seq<Option<usize>>) -> Seq<Option<int>> {
    v.map_values(
        |x: Option<usize>|
            match x {
                Some(q) => Some(q as int),
                None => None,
            },
    )
}

/// A longest run of shared lines that are in the same order in both texts.
fn longest_run(common: &Vec<(usize, usize)>) -> (run: Vec<(usize, usize)>)
    ensures
        whole(run@) == run_of(whole(common@)),
{
    let ghost c = whole(common@);
    let mut piles: Vec<usize> = Vec::new();
    let mut back: Vec<Option<usize>> = Vec::new();
    let mut n: usize = 0;
    assert(ints(piles@) =~= dealt(c, 0).piles);
    assert(int_links(back@) =~= dealt(c, 0).back);
    while n < common.len()
        invariant
            n <= common@.len(),
            c == whole(common@),
            ints(piles@) == dealt(c, n as int).piles,
            int_links(back@) == dealt(c, n as int).back,
        decreases common@.len() - n,
    {
        proof {
            lemma_dealt(c, n as int);
            let w = dealt(c, n as int);
            assert forall|i: int| 0 <= i < piles@.len() implies (#[trigger] piles@[i]) < n by {
                assert(w.piles[i] == piles@[i] as int);
            }
            assert forall|i: int, j: int| 0 <= i < j < piles@.len() implies common@[(
            #[trigger] piles@[i]) as int].0 <= common@[(#[trigger] piles@[j]) as int].0 by {
                assert(w.piles[i] == piles@[i] as int);
                assert(w.piles[j] == piles@[j] as int);
                assert(c[w.piles[i]].0 <= c[w.piles[j]].0);
            }
        }
        let ghost had = piles@;
        let ghost held = back@;
        let p = find_pile(common, &piles, common[n].0);
        let link: Option<usize> = if p > 0 { Some(piles[p - 1]) } else { None };
        back.push(link);
        if p == piles.len() {
            piles.push(n);
            assert(ints(piles@) =~= ints(had).push(n as int));
        } else {
            piles.set(p, n);
            assert(ints(piles@) =~= ints(had).update(p as int, n as int));
        }
        assert(int_links(back@) =~= int_links(held).push(
            if p > 0 { Some(ints(had)[p - 1]) } else { None },
        ));
        n = n + 1;
    }
    let mut run: Vec<(usize, usize)> = Vec::new();
    if piles.len() == 0 {
        assert(whole(run@) =~= run_of(c));
        return run;
    }
    proof {
        lemma_dealt(c, c.len() as int);
        assert(ints(piles@)[piles@.len() - 1] == piles@[piles@.len() - 1] as int);
    }
    let ghost w = dealt(c, c.len() as int);
    let top = piles[piles.len() - 1];
    let mut at: Option<usize> = Some(top);
    let ghost all = chain(c, w.back, top as int);
    assert(w.piles.last() == top);
    assert(whole(run@).reverse() =~= Seq::<(int, int)>::empty());
    assert(all =~= all + whole(run@).reverse());
    while at.is_some()
        invariant
            c == whole(common@),
            w == dealt(c, c.len() as int),
            dealt_well(c, w, c.len() as int),
            int_links(back@) == w.back,
            back@.len() == common@.len(),
            match at {
                Some(card) => card < common@.len() && all == chain(c, w.back, card as int) + whole(
                    run@,
                ).reverse(),
                None => all == whole(run@).reverse(),
            },
        decreases
                (match at {
                    Some(card) => card + 1,
                    None => 0,
                }),
    {
        let card = at.unwrap();
        let ghost had = run@;
        run.push(common[card]);
        assert(whole(run@) =~= whole(had).push(c[card as int]));
        assert(whole(run@).reverse() =~= seq![c[card as int]] + whole(had).reverse());
        assert(int_links(back@)[card as int] == w.back[card as int]);
        at = back[card];
        proof {
            match back@[card as int] {
                Some(q) => {
                    assert(w.back[card as int] == Some(q as int));
                    assert(chain(c, w.back, card as int) == chain(c, w.back, q as int).push(
                        c[card as int],
                    ));
                    assert(all =~= chain(c, w.back, q as int) + whole(run@).reverse());
                },
                None => {
                    assert(all =~= whole(run@).reverse());
                },
            }
        }
    }
    let mut out: Vec<(usize, usize)> = Vec::new();
    let mut k: usize = run.len();
    assert(whole(out@) =~= whole(run@).reverse().take(0));
    while k > 0
        invariant
            k <= run@.len(),
            whole(out@) == whole(run@).reverse().take(run@.len() - k),
        decreases k,
    {
        let ghost had = out@;
        out.push(run[k - 1]);
        assert(whole(out@) =~= whole(had).push(whole(run@)[k - 1]));
        k = k - 1;
        assert(whole(out@) =~= whole(run@).reverse().take(run@.len() - k));
    }
    assert(whole(out@) =~= whole(run@).reverse());
    out
}

/// The lines to line two stretches up on.
fn anchor_run(
    old: &Vec<usize>,
    new: &Vec<usize>,
    a: usize,
    b: usize,
    c: usize,
    d: usize,
    total: usize,
) -> (run: Vec<(usize, usize)>)
    requires
        a <= b <= old@.len(),
        c <= d <= new@.len(),
        forall|i: int| 0 <= i < old@.len() ==> (#[trigger] old@[i]) < total,
        forall|i: int| 0 <= i < new@.len() ==> (#[trigger] new@[i]) < total,
    ensures
        whole(run@) == anchors(
            old@,
            new@,
            (Stretch { a: a as int, b: b as int, c: c as int, d: d as int }),
        ),
{
    let ghost s = Stretch { a: a as int, b: b as int, c: c as int, d: d as int };
    let (there, places) = tallies(old, a, b, total);
    let (here, _) = tallies(new, c, d, total);
    let mut common: Vec<(usize, usize)> = Vec::new();
    let mut j: usize = c;
    assert(whole(common@) =~= shared(old@, new@, s, c as int));
    while j < d
        invariant
            c <= j <= d <= new@.len(),
            s == (Stretch { a: a as int, b: b as int, c: c as int, d: d as int }),
            there@.len() == total,
            places@.len() == total,
            here@.len() == total,
            forall|i: int| 0 <= i < new@.len() ==> (#[trigger] new@[i]) < total,
            forall|x: int|
                0 <= x < total ==> (#[trigger] there@[x]) == times(old@, a as int, b as int, x),
            forall|x: int|
                0 <= x < total && times(old@, a as int, b as int, x) >= 1 ==> (#[trigger] places@[x])
                    == last_place(old@, a as int, b as int, x),
            forall|x: int|
                0 <= x < total ==> (#[trigger] here@[x]) == times(new@, c as int, d as int, x),
            whole(common@) == shared(old@, new@, s, j as int),
        decreases d - j,
    {
        let x = new[j];
        let ghost had = common@;
        assert(there@[x as int] == times(old@, a as int, b as int, x as int));
        assert(here@[x as int] == times(new@, c as int, d as int, x as int));
        if there[x] == 1 && here[x] == 1 {
            common.push((places[x], j));
            assert(whole(common@) =~= whole(had).push(
                (last_place(old@, a as int, b as int, x as int), j as int),
            ));
        }
        j = j + 1;
    }
    longest_run(&common)
}

proof fn lemma_one_side_empty(old: Seq<usize>, new: Seq<usize>, s: Stretch)
    requires
        s.a <= s.b,
        s.c <= s.d,
        s.a == s.b || s.c == s.d,
    ensures
        alignment(old, new, s) == Seq::<(int, int)>::empty(),
{
}

/// Line two stretches up, adding the pairs at the end of a list.
#[verifier::spinoff_prover]
fn align(
    left: &Vec<usize>,
    right: &Vec<usize>,
    a: usize,
    b: usize,
    c: usize,
    d: usize,
    total: usize,
    out: &mut Vec<(usize, usize)>,
)
    requires
        a <= b <= left@.len(),
        c <= d <= right@.len(),
        forall|i: int| 0 <= i < left@.len() ==> (#[trigger] left@[i]) < total,
        forall|i: int| 0 <= i < right@.len() ==> (#[trigger] right@[i]) < total,
    ensures
        whole(final(out)@) == whole(old(out)@) + alignment(
            left@,
            right@,
            (Stretch { a: a as int, b: b as int, c: c as int, d: d as int }),
        ),
    decreases b - a + (d - c), 1nat,
{
    let ghost start = whole(out@);
    let ghost s = Stretch { a: a as int, b: b as int, c: c as int, d: d as int };
    let mut o: usize = a;
    let mut n: usize = c;
    assert(whole(out@) + alignment(left@, right@, s) =~= start + alignment(left@, right@, s));
    while o < b && n < d && left[o] == right[n]
        invariant
            a <= o <= b <= left@.len(),
            c <= n <= d <= right@.len(),
            whole(out@) + alignment(left@, right@, (Stretch { a: o as int, c: n as int, ..s })) == start
                + alignment(left@, right@, s),
            s == (Stretch { a: a as int, b: b as int, c: c as int, d: d as int }),
        decreases b - o,
    {
        let ghost here = Stretch { a: o as int, c: n as int, ..s };
        let ghost next = Stretch { a: o + 1, c: n + 1, ..s };
        let ghost had = out@;
        out.push((o, n));
        assert(whole(out@) =~= whole(had).push((o as int, n as int)));
        assert(alignment(left@, right@, here) == seq![(o as int, n as int)] + alignment(left@, right@, next));
        assert(whole(out@) + alignment(left@, right@, next) =~= whole(had) + alignment(left@, right@, here));
        o = o + 1;
        n = n + 1;
    }
    let ghost head = Stretch { a: o as int, c: n as int, ..s };
    let ghost front = whole(out@);
    let mut p: usize = b;
    let mut q: usize = d;
    // The pairs at the end are put down last.
    let ghost mut tail: Seq<(int, int)> = Seq::empty();
    assert(alignment(left@, right@, head) =~= alignment(left@, right@, head) + tail);
    while p > o && q > n && left[p - 1] == right[q - 1]
        invariant
            a <= o <= p <= b <= left@.len(),
            c <= n <= q <= d <= right@.len(),
            s == (Stretch { a: a as int, b: b as int, c: c as int, d: d as int }),
            head == (Stretch { a: o as int, c: n as int, ..s }),
            !(o < b && n < d && left@[o as int] == right@[n as int]),
            b - p == d - q == tail.len(),
            forall|i: int| 0 <= i < tail.len() ==> (#[trigger] tail[i]) == (p + i, q + i),
            alignment(left@, right@, head) == alignment(
                left@,
                right@,
                (Stretch { b: p as int, d: q as int, ..head }),
            ) + tail,
        decreases p - o,
    {
        let ghost here = Stretch { b: p as int, d: q as int, ..head };
        let ghost next = Stretch { b: p - 1, d: q - 1, ..head };
        assert(alignment(left@, right@, here) == alignment(left@, right@, next).push((p - 1, q - 1)));
        proof {
            let more = seq![(p - 1, q - 1)] + tail;
            assert(alignment(left@, right@, here) + tail =~= alignment(left@, right@, next) + more);
            tail = more;
        }
        p = p - 1;
        q = q - 1;
    }
    let ghost mid = Stretch { b: p as int, d: q as int, ..head };
    if o < p && n < q {
        between(left, right, o, p, n, q, total, out);
    } else {
        proof {
            lemma_one_side_empty(left@, right@, mid);
            assert(whole(out@) =~= front + alignment(left@, right@, mid));
        }
    }
    let ghost got = whole(out@);
    let mut k: usize = 0;
    assert(whole(out@) =~= got + tail.take(0));
    while k < b - p
        invariant
            k <= b - p,
            a <= p <= b,
            c <= q <= d,
            b - p == d - q == tail.len(),
            forall|i: int| 0 <= i < tail.len() ==> (#[trigger] tail[i]) == (p + i, q + i),
            whole(out@) == got + tail.take(k as int),
        decreases b - p - k,
    {
        let ghost had = out@;
        out.push((p + k, q + k));
        assert(whole(out@) =~= whole(had).push(tail[k as int]));
        k = k + 1;
        assert(whole(out@) =~= got + tail.take(k as int));
    }
    assert(whole(out@) =~= front + (alignment(left@, right@, mid) + tail));
}

/// Line two stretches up that differ at either end.
#[verifier::spinoff_prover]
fn between(
    left: &Vec<usize>,
    right: &Vec<usize>,
    a: usize,
    b: usize,
    c: usize,
    d: usize,
    total: usize,
    out: &mut Vec<(usize, usize)>,
)
    requires
        a < b <= left@.len(),
        c < d <= right@.len(),
        left@[a as int] != right@[c as int],
        left@[b - 1] != right@[d - 1],
        forall|i: int| 0 <= i < left@.len() ==> (#[trigger] left@[i]) < total,
        forall|i: int| 0 <= i < right@.len() ==> (#[trigger] right@[i]) < total,
    ensures
        whole(final(out)@) == whole(old(out)@) + alignment(
            left@,
            right@,
            (Stretch { a: a as int, b: b as int, c: c as int, d: d as int }),
        ),
    decreases b - a + (d - c), 0nat,
{
    let ghost start = whole(out@);
    let ghost s = Stretch { a: a as int, b: b as int, c: c as int, d: d as int };
    let run = anchor_run(left, right, a, b, c, d, total);
    let ghost r = whole(run@);
    proof {
        law_anchors_climb(left@, right@, s);
    }
    if run.len() == 0 {
        assert(whole(out@) =~= start + alignment(left@, right@, s));
        return;
    }
    let mut o: usize = a;
    let mut n: usize = c;
    let mut k: usize = 0;
    assert(whole(out@) =~= start + through(left@, right@, s, r, 0));
    while k < run.len()
        invariant
            k <= run@.len(),
            a < b <= left@.len(),
            c < d <= right@.len(),
            s == (Stretch { a: a as int, b: b as int, c: c as int, d: d as int }),
            r == whole(run@),
            climbs(r, s),
            forall|i: int| 0 <= i < left@.len() ==> (#[trigger] left@[i]) < total,
            forall|i: int| 0 <= i < right@.len() ==> (#[trigger] right@[i]) < total,
            o == if k > 0 { r[k - 1].0 + 1 } else { a as int },
            n == if k > 0 { r[k - 1].1 + 1 } else { c as int },
            whole(out@) == start + through(left@, right@, s, r, k as int),
        decreases run@.len() - k,
    {
        let (i, j) = run[k];
        assert(r[k as int] == (i as int, j as int));
        proof {
            if k > 0 {
                assert(r[k - 1].0 < r[k as int].0 && r[k - 1].1 < r[k as int].1);
            }
        }
        let ghost had = whole(out@);
        align(left, right, o, i, n, j, total, out);
        let ghost more = whole(out@);
        let ghost pairs = out@;
        out.push((i, j));
        assert(whole(out@) =~= whole(pairs).push((i as int, j as int)));
        proof {
            let g = gap(s, r, k as int);
            assert(g == (Stretch { a: o as int, b: i as int, c: n as int, d: j as int }));
            assert(through(left@, right@, s, r, k + 1) == (through(left@, right@, s, r, k as int)
                + alignment(left@, right@, g)).push(r[k as int]));
            assert(whole(out@) =~= start + through(left@, right@, s, r, k + 1));
        }
        o = i + 1;
        n = j + 1;
        k = k + 1;
    }
    assert(r[run@.len() - 1] == r.last());
    let ghost had = whole(out@);
    align(left, right, o, b, n, d, total, out);
    assert(whole(out@) =~= start + alignment(left@, right@, s));
}

/// The pairs of lines that two texts are lined up on.
pub open spec fn lined_up(old: Seq<Seq<char>>, new: Seq<Seq<char>>) -> Seq<(int, int)> {
    let ids = numbered(old + new);
    alignment(
        ids.take(old.len() as int),
        ids.skip(old.len() as int),
        Stretch { a: 0, b: old.len() as int, c: 0, d: new.len() as int },
    )
}

/// Two texts are lined up on pairs of lines that go up in both, and that say
/// the same.
pub proof fn law_lined_up_lines_say_the_same(old: Seq<Seq<char>>, new: Seq<Seq<char>>)
    requires
        old.len() + new.len() <= usize::MAX,
    ensures
        climbs(
            lined_up(old, new),
            (Stretch { a: 0, b: old.len() as int, c: 0, d: new.len() as int }),
        ),
        forall|i: int|
            0 <= i < lined_up(old, new).len() ==> old[(#[trigger] lined_up(old, new)[i]).0]
                == new[lined_up(old, new)[i].1],
{
    let all = old + new;
    let ids = numbered(all);
    let m = old.len() as int;
    let s = Stretch { a: 0, b: m, c: 0, d: new.len() as int };
    law_alignment_climbs(ids.take(m), ids.skip(m), s);
    let r = lined_up(old, new);
    assert forall|i: int| 0 <= i < r.len() implies old[(#[trigger] r[i]).0] == new[r[i].1] by {
        assert(ids.take(m)[r[i].0] == ids.skip(m)[r[i].1]);
        law_numbers_stand_for_lines(all, r[i].0, m + r[i].1);
        assert(all[r[i].0] == old[r[i].0]);
        assert(all[m + r[i].1] == new[r[i].1]);
    }
}

/// Line two texts up.
pub fn line_up(old: &Vec<Vec<char>>, new: &Vec<Vec<char>>) -> (pairs: Vec<(usize, usize)>)
    ensures
        whole(pairs@) == lined_up(deep(old@), deep(new@)),
        old@.len() + new@.len() <= usize::MAX,
{
    let mut all: Vec<Vec<char>> = Vec::new();
    let mut i: usize = 0;
    while i < old.len()
        invariant
            i <= old@.len(),
            deep(all@) == deep(old@).take(i as int),
        decreases old@.len() - i,
    {
        let ghost had = all@;
        all.push(copy_line(&old[i]));
        assert(deep(all@) =~= deep(had).push(old@[i as int]@));
        i = i + 1;
        assert(deep(all@) =~= deep(old@).take(i as int));
    }
    assert(deep(all@) =~= deep(old@) + deep(new@).take(0));
    let mut j: usize = 0;
    while j < new.len()
        invariant
            j <= new@.len(),
            deep(all@) == deep(old@) + deep(new@).take(j as int),
        decreases new@.len() - j,
    {
        let ghost had = all@;
        all.push(copy_line(&new[j]));
        assert(deep(all@) =~= deep(had).push(new@[j as int]@));
        j = j + 1;
        assert(deep(all@) =~= deep(old@) + deep(new@).take(j as int));
    }
    assert(deep(all@) =~= deep(old@) + deep(new@));
    let total = all.len();
    let mut ids = number(&all);
    let ghost every = ids@;
    assert forall|k: int| 0 <= k < every.len() implies (#[trigger] every[k]) < total by {
        law_numbers_stand_for_lines(deep(all@), k, k);
    }
    let m = old.len();
    let rest = ids.split_off(m);
    assert(ids@ =~= every.take(m as int));
    assert(rest@ =~= every.skip(m as int));
    let mut pairs: Vec<(usize, usize)> = Vec::new();
    assert forall|k: int| 0 <= k < ids@.len() implies (#[trigger] ids@[k]) < total by {
        assert(ids@[k] == every[k]);
    }
    assert forall|k: int| 0 <= k < rest@.len() implies (#[trigger] rest@[k]) < total by {
        assert(rest@[k] == every[m + k]);
    }
    align(&ids, &rest, 0, m, 0, new.len(), total, &mut pairs);
    assert(whole(pairs@) =~= lined_up(deep(old@), deep(new@)));
    pairs
}

// ---------------------------------------------------------------------------
// What lining up leaves
// ---------------------------------------------------------------------------

/// What lies before the `k`th of some pairs, counted from nought, and after the
/// one before it. For as many as there are it is what lies after the last.
pub open spec fn left_over(s: Stretch, pairs: Seq<(int, int)>, k: int) -> Stretch {
    Stretch {
        a: if k > 0 { pairs[k - 1].0 + 1 } else { s.a },
        b: if k < pairs.len() { pairs[k].0 } else { s.b },
        c: if k > 0 { pairs[k - 1].1 + 1 } else { s.c },
        d: if k < pairs.len() { pairs[k].1 } else { s.d },
    }
}

/// Whether two stretches have nothing more to be lined up on: one of them is
/// empty, or they differ at either end and no line occurs just once in each.
pub open spec fn spent(old: Seq<usize>, new: Seq<usize>, s: Stretch) -> bool {
    s.a < s.b && s.c < s.d ==> {
        &&& old[s.a] != new[s.c]
        &&& old[s.b - 1] != new[s.d - 1]
        &&& forall|j: int|
            s.c <= j < s.d ==> times(old, s.a, s.b, (#[trigger] new[j]) as int) != 1 || times(
                new,
                s.c,
                s.d,
                new[j] as int,
            ) != 1
    }
}

/// Whether nothing between some pairs can be lined up further.
pub open spec fn all_spent(
    old: Seq<usize>,
    new: Seq<usize>,
    s: Stretch,
    pairs: Seq<(int, int)>,
) -> bool {
    forall|k: int| 0 <= k <= pairs.len() ==> spent(old, new, #[trigger] left_over(s, pairs, k))
}

proof fn lemma_no_anchors(old: Seq<usize>, new: Seq<usize>, s: Stretch, j: int)
    requires
        s.c <= j <= s.d,
        shared(old, new, s, s.d).len() == 0,
    ensures
        shared(old, new, s, j).len() == 0,
        forall|i: int|
            j <= i < s.d ==> times(old, s.a, s.b, (#[trigger] new[i]) as int) != 1 || times(
                new,
                s.c,
                s.d,
                new[i] as int,
            ) != 1,
    decreases s.d - j,
{
    if j < s.d {
        lemma_no_anchors(old, new, s, j + 1);
    }
}

/// Pairs behind one another, with what one of them leaves at its end and what the
/// other leaves at its beginning being the same stretch.
proof fn lemma_spent_in_turn(
    old: Seq<usize>,
    new: Seq<usize>,
    s: Stretch,
    first: Seq<(int, int)>,
    pair: (int, int),
    second: Seq<(int, int)>,
)
    requires
        all_spent(old, new, Stretch { b: pair.0, d: pair.1, ..s }, first),
        all_spent(old, new, Stretch { a: pair.0 + 1, c: pair.1 + 1, ..s }, second),
    ensures
        all_spent(old, new, s, first.push(pair) + second),
{
    let m = first.push(pair) + second;
    let n = first.len() as int;
    let (l, r) = (
        Stretch { b: pair.0, d: pair.1, ..s },
        Stretch { a: pair.0 + 1, c: pair.1 + 1, ..s },
    );
    assert forall|k: int| 0 <= k <= m.len() implies spent(old, new, #[trigger] left_over(s, m, k)) by {
        if k <= n {
            assert(left_over(s, m, k) == left_over(l, first, k));
        } else {
            assert(left_over(s, m, k) == left_over(r, second, k - n - 1));
        }
    }
}

/// Nothing is left out of a line-up that could be in it: what lies between two
/// neighbouring pairs, before the first or after the last is on one side only, or
/// differs at either end and has no line that occurs once on each side.
pub proof fn law_alignment_leaves_nothing(old: Seq<usize>, new: Seq<usize>, s: Stretch)
    requires
        s.a <= s.b,
        s.c <= s.d,
    ensures
        all_spent(old, new, s, alignment(old, new, s)),
    decreases (s.b - s.a) + (s.d - s.c), s.d - s.c + 2,
{
    let run = anchors(old, new, s);
    let m = alignment(old, new, s);
    let none = Seq::<(int, int)>::empty();
    if s.a == s.b || s.c == s.d {
    } else if old[s.a] == new[s.c] {
        let r = Stretch { a: s.a + 1, c: s.c + 1, ..s };
        law_alignment_leaves_nothing(old, new, r);
        let l = Stretch { b: s.a, d: s.c, ..s };
        assert(all_spent(old, new, l, none));
        lemma_spent_in_turn(old, new, s, none, (s.a, s.c), alignment(old, new, r));
        assert(m =~= none.push((s.a, s.c)) + alignment(old, new, r));
    } else if old[s.b - 1] == new[s.d - 1] {
        let l = Stretch { b: s.b - 1, d: s.d - 1, ..s };
        law_alignment_leaves_nothing(old, new, l);
        let r = Stretch { a: s.b, c: s.d, ..s };
        assert(all_spent(old, new, r, none));
        lemma_spent_in_turn(old, new, s, alignment(old, new, l), (s.b - 1, s.d - 1), none);
        assert(m =~= alignment(old, new, l).push((s.b - 1, s.d - 1)) + none);
    } else {
        law_anchors_climb(old, new, s);
        if run.len() == 0 {
            let common = shared(old, new, s, s.d);
            lemma_dealt(common, common.len() as int);
            lemma_shared(old, new, s, s.d);
            if common.len() > 0 {
                let w = dealt(common, common.len() as int);
                lemma_chain(common, w, w.piles[w.piles.len() - 1]);
            }
            lemma_no_anchors(old, new, s, s.c);
            assert(left_over(s, m, 0) == s);
        } else {
            let n = run.len() as int;
            assert(run[n - 1] == run.last());
            let r = Stretch { a: run.last().0 + 1, c: run.last().1 + 1, ..s };
            lemma_through_leaves_nothing(old, new, s, run, n);
            law_alignment_leaves_nothing(old, new, r);
            let first = through(old, new, s, run, n);
            lemma_spent_in_turn(
                old,
                new,
                s,
                first.drop_last(),
                run.last(),
                alignment(old, new, r),
            );
            assert(first.drop_last().push(run.last()) =~= first);
        }
    }
}

proof fn lemma_through_leaves_nothing(
    old: Seq<usize>,
    new: Seq<usize>,
    s: Stretch,
    run: Seq<(int, int)>,
    k: int,
)
    requires
        s.a <= s.b,
        s.c <= s.d,
        0 < k <= run.len() <= s.d - s.c,
        climbs(run, s),
    ensures
        through(old, new, s, run, k).len() > 0,
        through(old, new, s, run, k).last() == run[k - 1],
        all_spent(
            old,
            new,
            Stretch { b: run[k - 1].0, d: run[k - 1].1, ..s },
            through(old, new, s, run, k).drop_last(),
        ),
    decreases (s.b - s.a) + (s.d - s.c), k,
{
    let g = gap(s, run, k - 1);
    if k > 1 {
        assert(run[k - 2].0 < run[k - 1].0 && run[k - 2].1 < run[k - 1].1);
    }
    assert(s.a <= run[k - 1].0 < s.b && s.c <= run[k - 1].1 < s.d);
    law_alignment_leaves_nothing(old, new, g);
    let m = through(old, new, s, run, k);
    let before = through(old, new, s, run, k - 1);
    let inner = alignment(old, new, g);
    assert(m.drop_last() =~= before + inner);
    if k > 1 {
        lemma_through_leaves_nothing(old, new, s, run, k - 1);
        lemma_spent_in_turn(
            old,
            new,
            Stretch { b: run[k - 1].0, d: run[k - 1].1, ..s },
            before.drop_last(),
            run[k - 2],
            inner,
        );
        assert(before.drop_last().push(run[k - 2]) =~= before);
    } else {
        assert(before + inner =~= inner);
    }
}

/// Whether no other line from `from` up to `to` says what one of them says.
pub open spec fn only(ls: Seq<Seq<char>>, from: int, to: int, i: int) -> bool {
    forall|k: int| from <= k < to && #[trigger] ls[k] == ls[i] ==> k == i
}

proof fn lemma_never(ids: Seq<usize>, from: int, to: int, x: int)
    requires
        forall|k: int| from <= k < to ==> #[trigger] ids[k] != x,
    ensures
        times(ids, from, to, x) == 0,
    decreases to - from,
{
    if from < to {
        lemma_never(ids, from, to - 1, x);
    }
}

proof fn lemma_once(ids: Seq<usize>, from: int, to: int, i: int)
    requires
        from <= i < to,
        forall|k: int| from <= k < to && #[trigger] ids[k] == ids[i] ==> k == i,
    ensures
        times(ids, from, to, ids[i] as int) == 1,
    decreases to - from,
{
    if i < to - 1 {
        lemma_once(ids, from, to - 1, i);
        assert(ids[to - 1] != ids[i]);
    } else {
        assert forall|k: int| from <= k < to - 1 implies #[trigger] ids[k] != ids[i] as int by {}
        lemma_never(ids, from, to - 1, ids[i] as int);
    }
}

/// Nothing is left out when two texts are lined up. Where lines of both lie
/// between two neighbouring pairs, before the first or after the last, the first
/// lines there differ, the last ones differ, and none that is the only one of its
/// kind on its side says what one of the other side says that is so too.
pub proof fn law_lining_up_leaves_nothing(old: Seq<Seq<char>>, new: Seq<Seq<char>>, k: int)
    requires
        old.len() + new.len() <= usize::MAX,
        0 <= k <= lined_up(old, new).len(),
    ensures
        ({
            let s = Stretch { a: 0, b: old.len() as int, c: 0, d: new.len() as int };
            let g = left_over(s, lined_up(old, new), k);
            &&& 0 <= g.a <= g.b <= old.len()
            &&& 0 <= g.c <= g.d <= new.len()
            &&& g.a < g.b && g.c < g.d ==> {
                &&& old[g.a] != new[g.c]
                &&& old[g.b - 1] != new[g.d - 1]
                &&& forall|i: int, j: int|
                    g.a <= i < g.b && g.c <= j < g.d && only(old, g.a, g.b, i) && only(
                        new,
                        g.c,
                        g.d,
                        j,
                    ) ==> #[trigger] old[i] != #[trigger] new[j]
            }
        }),
{
    let all = old + new;
    let ids = numbered(all);
    let n = old.len() as int;
    let s = Stretch { a: 0, b: n, c: 0, d: new.len() as int };
    let (x, y) = (ids.take(n), ids.skip(n));
    let pairs = lined_up(old, new);
    law_lined_up_lines_say_the_same(old, new);
    law_alignment_leaves_nothing(x, y, s);
    let g = left_over(s, pairs, k);
    if 0 < k < pairs.len() {
        assert(pairs[k - 1].0 < pairs[k].0 && pairs[k - 1].1 < pairs[k].1);
    }
    if k > 0 {
        assert(0 <= pairs[k - 1].0 < n && 0 <= pairs[k - 1].1 < new.len());
    }
    if k < pairs.len() {
        assert(0 <= pairs[k].0 < n && 0 <= pairs[k].1 < new.len());
    }
    if g.a < g.b && g.c < g.d {
        assert(spent(x, y, g));
        assert forall|i: int, j: int| 0 <= i < n && 0 <= j < new.len() implies (#[trigger] x[i]
            == #[trigger] y[j] <==> old[i] == new[j]) by {
            law_numbers_stand_for_lines(all, i, n + j);
            assert(all[i] == old[i] && all[n + j] == new[j]);
        }
        assert(x[g.a] != y[g.c]);
        assert(x[g.b - 1] != y[g.d - 1]);
        assert forall|i: int, j: int|
            g.a <= i < g.b && g.c <= j < g.d && only(old, g.a, g.b, i) && only(
                new,
                g.c,
                g.d,
                j,
            ) implies #[trigger] old[i] != #[trigger] new[j] by {
            if old[i] == new[j] {
                assert(x[i] == y[j]);
                assert forall|m: int| g.a <= m < g.b && #[trigger] x[m] == x[i] implies m == i by {
                    law_numbers_stand_for_lines(all, m, i);
                    assert(all[m] == old[m] && all[i] == old[i]);
                }
                assert forall|m: int| g.c <= m < g.d && #[trigger] y[m] == y[j] implies m == j by {
                    law_numbers_stand_for_lines(all, n + m, n + j);
                    assert(all[n + m] == new[m] && all[n + j] == new[j]);
                }
                lemma_once(x, g.a, g.b, i);
                lemma_once(y, g.c, g.d, j);
                assert(y[j] as int == x[i] as int);
            }
        }
    }
}

} // verus!
