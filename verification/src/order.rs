//! Putting numbers in order.
use vstd::prelude::*;

verus! {

/// A number put among others that are in order.
pub open spec fn ranked_in(s: Seq<usize>, x: usize) -> Seq<usize>
    decreases s.len(),
{
    if s.len() == 0 || s.last() <= x {
        s.push(x)
    } else {
        ranked_in(s.drop_last(), x).push(s.last())
    }
}

/// Numbers in order, each as often as it was given.
pub open spec fn ranked(s: Seq<usize>) -> Seq<usize>
    decreases s.len(),
{
    if s.len() == 0 {
        s
    } else {
        ranked_in(ranked(s.drop_last()), s.last())
    }
}

/// Whether numbers go up or stay the same.
pub open spec fn ascending(s: Seq<usize>) -> bool {
    forall|i: int, j: int| 0 <= i < j < s.len() ==> (#[trigger] s[i]) <= (#[trigger] s[j])
}

/// Whether numbers go up at every step.
pub open spec fn strictly_ascending(s: Seq<usize>) -> bool {
    forall|i: int, j: int| 0 <= i < j < s.len() ==> (#[trigger] s[i]) < (#[trigger] s[j])
}

proof fn lemma_ranked_in(s: Seq<usize>, x: usize)
    requires
        ascending(s),
    ensures
        ascending(ranked_in(s, x)),
        ranked_in(s, x).to_multiset() == s.to_multiset().insert(x),
        forall|i: int| 0 <= i < ranked_in(s, x).len() ==> (#[trigger] ranked_in(s, x)[i]) <= x || s.contains(
            ranked_in(s, x)[i],
        ),
    decreases s.len(),
{
    broadcast use vstd::seq_lib::group_to_multiset_ensures;

    if s.len() == 0 || s.last() <= x {
        if s.len() > 0 {
            assert forall|i: int| 0 <= i < s.len() implies (#[trigger] s[i]) <= x by {
                assert(s[i] <= s[s.len() - 1]);
            }
        }
    } else {
        let less = s.drop_last();
        lemma_ranked_in(less, x);
        let r = ranked_in(less, x);
        assert(s =~= less.push(s.last()));
        assert forall|i: int| 0 <= i < r.len() implies (#[trigger] r[i]) <= s.last() by {
            if r[i] > x {
                let k = choose|k: int| 0 <= k < less.len() && less[k] == r[i];
                assert(s[k] <= s[s.len() - 1]);
            }
        }
        assert forall|i: int| 0 <= i < ranked_in(s, x).len() implies (#[trigger] ranked_in(s, x)[i])
            <= x || s.contains(ranked_in(s, x)[i]) by {
            if i < r.len() {
                assert(ranked_in(s, x)[i] == r[i]);
                if r[i] > x {
                    let k = choose|k: int| 0 <= k < less.len() && less[k] == r[i];
                    assert(s[k] == r[i]);
                }
            } else {
                assert(s[s.len() - 1] == ranked_in(s, x)[i]);
            }
        }
        assert(s.to_multiset().insert(x) =~= less.to_multiset().insert(x).insert(s.last()));
    }
}

/// What is put in order is in order, and is what was there before.
pub proof fn lemma_ranked(s: Seq<usize>)
    ensures
        ascending(ranked(s)),
        ranked(s).to_multiset() == s.to_multiset(),
    decreases s.len(),
{
    broadcast use vstd::seq_lib::group_to_multiset_ensures;

    if s.len() > 0 {
        lemma_ranked(s.drop_last());
        lemma_ranked_in(ranked(s.drop_last()), s.last());
        assert(s =~= s.drop_last().push(s.last()));
    }
}

/// Put numbers in order.
pub fn rank(v: &Vec<usize>) -> (r: Vec<usize>)
    ensures
        r@ == ranked(v@),
{
    let mut out: Vec<usize> = Vec::new();
    let mut n: usize = 0;
    while n < v.len()
        invariant
            n <= v@.len(),
            out@ == ranked(v@.take(n as int)),
        decreases v@.len() - n,
    {
        let x = v[n];
        let mut i: usize = out.len();
        let ghost full = out@;
        assert(full.take(i as int) =~= full);
        assert(ranked_in(full, x) =~= ranked_in(full, x) + full.skip(i as int));
        while i > 0 && out[i - 1] > x
            invariant
                i <= out@.len(),
                out@ == full,
                ranked_in(full, x) == ranked_in(full.take(i as int), x) + full.skip(i as int),
            decreases i,
        {
            proof {
                let head = full.take(i as int);
                assert(head.drop_last() =~= full.take(i - 1));
                assert(ranked_in(full.take(i - 1), x).push(full[i - 1]) + full.skip(i as int)
                    =~= ranked_in(full.take(i - 1), x) + full.skip(i - 1));
            }
            i = i - 1;
        }
        out.insert(i, x);
        proof {
            assert(ranked_in(full.take(i as int), x) =~= full.take(i as int).push(x));
            assert(out@ =~= full.take(i as int).push(x) + full.skip(i as int));
            assert(v@.take(n + 1).drop_last() =~= v@.take(n as int));
        }
        n = n + 1;
    }
    assert(v@.take(n as int) =~= v@);
    out
}

/// Numbers in order with each one once.
pub fn once_each(v: &Vec<usize>) -> (r: Vec<usize>)
    requires
        ascending(v@),
    ensures
        strictly_ascending(r@),
        forall|x: usize| r@.contains(x) <==> v@.contains(x),
{
    let mut out: Vec<usize> = Vec::new();
    let mut n: usize = 0;
    while n < v.len()
        invariant
            n <= v@.len(),
            ascending(v@),
            strictly_ascending(out@),
            out@.len() > 0 ==> n > 0 && out@.last() == v@[n - 1],
            n > 0 ==> out@.len() > 0,
            forall|x: usize| out@.contains(x) <==> v@.take(n as int).contains(x),
        decreases v@.len() - n,
    {
        let x = v[n];
        let fresh = match out.last() {
            Some(last) => *last != x,
            None => true,
        };
        let ghost was = out@;
        if fresh {
            out.push(x);
        }
        proof {
            assert(n > 0 ==> v@[n - 1] <= v@[n as int]);
            assert forall|i: int| 0 <= i < was.len() && fresh implies (#[trigger] was[i]) < x by {
                if i < was.len() - 1 {
                    assert(was[i] < was[was.len() - 1]);
                }
            }
            assert forall|y: usize| out@.contains(y) <==> v@.take(n + 1).contains(y) by {
                let now = v@.take(n + 1);
                assert(now =~= v@.take(n as int).push(x));
                if out@.contains(y) {
                    let k = choose|k: int| 0 <= k < out@.len() && out@[k] == y;
                    if k < was.len() {
                        assert(was[k] == y);
                        assert(was.contains(y));
                        assert(v@.take(n as int).contains(y));
                        let m = choose|m: int| 0 <= m < n && v@.take(n as int)[m] == y;
                        assert(now[m] == y);
                    } else {
                        assert(now[n as int] == y);
                    }
                }
                if now.contains(y) {
                    let k = choose|k: int| 0 <= k < now.len() && now[k] == y;
                    if k < n {
                        assert(v@.take(n as int)[k] == y);
                        assert(v@.take(n as int).contains(y));
                        assert(was.contains(y));
                        let m = choose|m: int| 0 <= m < was.len() && was[m] == y;
                        assert(out@[m] == y);
                    } else if fresh {
                        assert(out@[out@.len() - 1] == y);
                    } else {
                        assert(out@[out@.len() - 1] == y);
                    }
                }
            }
        }
        n = n + 1;
    }
    assert(v@.take(n as int) =~= v@);
    out
}

} // verus!
