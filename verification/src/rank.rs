//! Putting what matched in order: best first, and where two are as good, in the
//! order in which they were given.
use vstd::prelude::*;

verus! {

/// Whether one match goes before another: by how good it is, and then by where
/// it stood.
pub open spec fn better(a: (u32, usize), b: (u32, usize)) -> bool {
    a.0 > b.0 || (a.0 == b.0 && a.1 < b.1)
}

/// Whether matches are in order, none of them twice.
pub open spec fn in_order(s: Seq<(u32, usize)>) -> bool {
    forall|i: int, j: int| 0 <= i < j < s.len() ==> better(#[trigger] s[i], #[trigger] s[j])
}

/// Whether matches stand at different places.
pub open spec fn apart(s: Seq<(u32, usize)>) -> bool {
    forall|i: int, j: int| 0 <= i < j < s.len() ==> (#[trigger] s[i]).1 != (#[trigger] s[j]).1
}

fn goes_before(a: (u32, usize), b: (u32, usize)) -> (yes: bool)
    ensures
        yes == better(a, b),
{
    a.0 > b.0 || (a.0 == b.0 && a.1 < b.1)
}

fn merge(a: &Vec<(u32, usize)>, b: &Vec<(u32, usize)>) -> (r: Vec<(u32, usize)>)
    requires
        in_order(a@),
        in_order(b@),
        forall|i: int, j: int|
            0 <= i < a@.len() && 0 <= j < b@.len() ==> (#[trigger] a@[i]).1 != (
            #[trigger] b@[j]).1,
    ensures
        in_order(r@),
        forall|x: (u32, usize)| r@.contains(x) <==> (a@.contains(x) || b@.contains(x)),
{
    let mut r: Vec<(u32, usize)> = Vec::new();
    let mut i: usize = 0;
    let mut j: usize = 0;
    while i < a.len() || j < b.len()
        invariant
            i <= a@.len(),
            j <= b@.len(),
            in_order(a@),
            in_order(b@),
            forall|m: int, n: int|
                0 <= m < a@.len() && 0 <= n < b@.len() ==> (#[trigger] a@[m]).1 != (
                #[trigger] b@[n]).1,
            in_order(r@),
            forall|k: int, m: int|
                0 <= k < r@.len() && i <= m < a@.len() ==> better(
                    #[trigger] r@[k],
                    #[trigger] a@[m],
                ),
            forall|k: int, m: int|
                0 <= k < r@.len() && j <= m < b@.len() ==> better(
                    #[trigger] r@[k],
                    #[trigger] b@[m],
                ),
            forall|k: int|
                0 <= k < r@.len() ==> a@.contains(#[trigger] r@[k]) || b@.contains(r@[k]),
            forall|m: int| 0 <= m < i ==> r@.contains(#[trigger] a@[m]),
            forall|m: int| 0 <= m < j ==> r@.contains(#[trigger] b@[m]),
        decreases (a@.len() - i) + (b@.len() - j),
    {
        let left = j >= b.len() || (i < a.len() && goes_before(a[i], b[j]));
        let ghost was = r@;
        if left {
            let x = a[i];
            proof {
                assert(a@.contains(x));
                if j < b@.len() {
                    assert forall|m: int| j <= m < b@.len() implies better(x, #[trigger] b@[m]) by {
                        if m > j {
                            assert(better(b@[j as int], b@[m]));
                        }
                    }
                }
            }
            r.push(x);
            i = i + 1;
            assert(r@[was.len() as int] == x);
        } else {
            let x = b[j];
            proof {
                assert(b@.contains(x));
                if i < a@.len() {
                    assert(a@[i as int].1 != b@[j as int].1);
                    assert(better(x, a@[i as int]));
                    assert forall|m: int| i <= m < a@.len() implies better(x, #[trigger] a@[m]) by {
                        if m > i {
                            assert(better(a@[i as int], a@[m]));
                        }
                    }
                }
            }
            r.push(x);
            j = j + 1;
            assert(r@[was.len() as int] == x);
        }
        proof {
            assert forall|x: (u32, usize)| was.contains(x) implies r@.contains(x) by {
                let k = choose|k: int| 0 <= k < was.len() && was[k] == x;
                assert(r@[k] == x);
            }
        }
    }
    r
}

/// Put matches in order.
pub fn put_in_order(v: &Vec<(u32, usize)>) -> (r: Vec<(u32, usize)>)
    requires
        apart(v@),
    ensures
        in_order(r@),
        forall|x: (u32, usize)| r@.contains(x) <==> v@.contains(x),
    decreases v@.len(),
{
    let len = v.len();
    if len <= 1 {
        let mut r: Vec<(u32, usize)> = Vec::new();
        if len == 1 {
            r.push(v[0]);
        }
        assert(r@ =~= v@);
        return r;
    }
    let half = len / 2;
    let mut a: Vec<(u32, usize)> = Vec::new();
    let mut b: Vec<(u32, usize)> = Vec::new();
    let mut n: usize = 0;
    while n < len
        invariant
            n <= len == v@.len(),
            half == len / 2,
            a@ == v@.take(if n < half { n as int } else { half as int }),
            b@ == v@.subrange(half as int, if n < half { half as int } else { n as int }),
        decreases len - n,
    {
        if n < half {
            a.push(v[n]);
        } else {
            b.push(v[n]);
        }
        n = n + 1;
    }
    assert(apart(a@) && apart(b@)) by {
        assert forall|i: int, j: int| 0 <= i < j < a@.len() implies (#[trigger] a@[i]).1 != (
        #[trigger] a@[j]).1 by {
            assert(v@[i].1 != v@[j].1);
        }
        assert forall|i: int, j: int| 0 <= i < j < b@.len() implies (#[trigger] b@[i]).1 != (
        #[trigger] b@[j]).1 by {
            assert(v@[half + i].1 != v@[half + j].1);
        }
    }
    let x = put_in_order(&a);
    let y = put_in_order(&b);
    proof {
        assert forall|i: int, j: int| 0 <= i < x@.len() && 0 <= j < y@.len() implies (
        #[trigger] x@[i]).1 != (#[trigger] y@[j]).1 by {
            assert(x@.contains(x@[i]) && y@.contains(y@[j]));
            let m = choose|m: int| 0 <= m < a@.len() && a@[m] == x@[i];
            let n = choose|n: int| 0 <= n < b@.len() && b@[n] == y@[j];
            assert(v@[m].1 != v@[half + n].1);
        }
    }
    let r = merge(&x, &y);
    proof {
        assert forall|z: (u32, usize)| r@.contains(z) <==> v@.contains(z) by {
            if v@.contains(z) {
                let k = choose|k: int| 0 <= k < v@.len() && v@[k] == z;
                if k < half {
                    assert(a@[k] == z);
                    assert(a@.contains(z));
                } else {
                    assert(b@[k - half] == z);
                    assert(b@.contains(z));
                }
            }
            if a@.contains(z) {
                let k = choose|k: int| 0 <= k < a@.len() && a@[k] == z;
                assert(v@[k] == z);
            }
            if b@.contains(z) {
                let k = choose|k: int| 0 <= k < b@.len() && b@[k] == z;
                assert(v@[half + k] == z);
            }
        }
    }
    r
}

} // verus!
