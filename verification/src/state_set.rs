//! Sets of state indices, held as strictly increasing vectors.

use vstd::prelude::*;

verus! {

/// A set of states: their indices in increasing order, none twice.
pub type StateSet = Vec<usize>;

/// Whether `s` is strictly increasing.
pub open spec fn sorted(s: Seq<usize>) -> bool {
    forall|i: int, j: int| 0 <= i < j < s.len() ==> s[i] < s[j]
}

/// Whether every index in `s` is below `n`.
pub open spec fn below(s: Seq<usize>, n: int) -> bool {
    forall|i: int| 0 <= i < s.len() ==> (#[trigger] s[i]) < n
}

/// Two strictly increasing sequences with the same elements are the same sequence.
pub proof fn lemma_sorted_unique(a: Seq<usize>, b: Seq<usize>)
    requires
        sorted(a),
        sorted(b),
        forall|x: usize| a.contains(x) <==> b.contains(x),
    ensures
        a == b,
    decreases a.len(),
{
    if a.len() == 0 {
        if b.len() > 0 {
            assert(b.contains(b[0]));
            assert(a.contains(b[0]));
        }
        assert(a =~= b);
    } else {
        let x = a[a.len() - 1];
        assert(a.contains(x));
        assert(b.contains(x));
        let k = choose|k: int| 0 <= k < b.len() && b[k] == x;
        if k < b.len() - 1 {
            let y = b[b.len() - 1];
            assert(b.contains(y));
            assert(a.contains(y));
            let l = choose|l: int| 0 <= l < a.len() && a[l] == y;
            assert(false);
        }
        let a1 = a.drop_last();
        let b1 = b.drop_last();
        assert forall|z: usize| a1.contains(z) <==> b1.contains(z) by {
            if a1.contains(z) {
                let l = choose|l: int| 0 <= l < a1.len() && a1[l] == z;
                assert(a[l] == z);
                assert(a.contains(z));
                assert(b.contains(z));
                let q = choose|q: int| 0 <= q < b.len() && b[q] == z;
                assert(q < b.len() - 1);
                assert(b1[q] == z);
            }
            if b1.contains(z) {
                let l = choose|l: int| 0 <= l < b1.len() && b1[l] == z;
                assert(b[l] == z);
                assert(b.contains(z));
                assert(a.contains(z));
                let q = choose|q: int| 0 <= q < a.len() && a[q] == z;
                assert(q < a.len() - 1);
                assert(a1[q] == z);
            }
        }
        lemma_sorted_unique(a1, b1);
        assert(a =~= a1.push(x));
        assert(b =~= b1.push(x));
    }
}

/// Whether `x` is among the elements of `v`.
pub fn contains(v: &Vec<usize>, x: usize) -> (b: bool)
    ensures
        b == v@.contains(x),
{
    let mut i: usize = 0;
    while i < v.len()
        invariant
            i <= v.len(),
            forall|k: int| 0 <= k < i ==> v@[k] != x,
        decreases v.len() - i,
    {
        if v[i] == x {
            return true;
        }
        i += 1;
    }
    false
}

/// Puts `x` into the strictly increasing `v`, at its place, unless it is there already.
pub fn insert(v: &mut Vec<usize>, x: usize)
    requires
        sorted(old(v)@),
    ensures
        sorted(final(v)@),
        forall|y: usize|
            #![trigger final(v)@.contains(y)]
            #![trigger old(v)@.contains(y)]
            final(v)@.contains(y) <==> (old(v)@.contains(y) || y == x),
        final(v)@.len() == old(v)@.len() + if old(v)@.contains(x) { 0int } else { 1int },
{
    let mut p: usize = 0;
    while p < v.len() && v[p] < x
        invariant
            p <= v.len(),
            v@ == old(v)@,
            forall|k: int| 0 <= k < p ==> v@[k] < x,
        decreases v.len() - p,
    {
        p += 1;
    }
    if p < v.len() && v[p] == x {
        assert(v@.contains(x));
        return ;
    }
    assert(!v@.contains(x)) by {
        if v@.contains(x) {
            let k = choose|k: int| 0 <= k < v@.len() && v@[k] == x;
            if k >= p {
                assert(v@[p as int] <= v@[k]);
            }
        }
    }
    v.insert(p, x);
    proof {
        let a = old(v)@;
        let b = v@;
        assert(b == a.insert(p as int, x));
        assert forall|i: int, j: int| 0 <= i < j < b.len() implies b[i] < b[j] by {
            if j < p {
            } else if j == p {
            } else if i < p {
                assert(b[j] == a[j - 1]);
                if j - 1 > p {
                    assert(a[p as int] < a[j - 1]);
                }
            } else if i == p {
                assert(b[j] == a[j - 1]);
                if j - 1 > p {
                    assert(a[p as int] < a[j - 1]);
                }
            } else {
                assert(b[i] == a[i - 1]);
                assert(b[j] == a[j - 1]);
            }
        }
        assert forall|y: usize| b.contains(y) <==> (a.contains(y) || y == x) by {
            if a.contains(y) {
                let k = choose|k: int| 0 <= k < a.len() && a[k] == y;
                if k < p {
                    assert(b[k] == y);
                } else {
                    assert(b[k + 1] == y);
                }
            }
            if y == x {
                assert(b[p as int] == x);
            }
            if b.contains(y) {
                let k = choose|k: int| 0 <= k < b.len() && b[k] == y;
                if k < p {
                    assert(a[k] == y);
                } else if k > p {
                    assert(a[k - 1] == y);
                }
            }
        }
    }
}

/// Whether the two sets share no element.
pub fn is_disjoint(a: &Vec<usize>, b: &Vec<usize>) -> (r: bool)
    ensures
        r == (forall|x: usize|
            #![trigger a@.contains(x)]
            #![trigger b@.contains(x)]
            !(a@.contains(x) && b@.contains(x))),
{
    let mut i: usize = 0;
    while i < a.len()
        invariant
            i <= a.len(),
            forall|k: int| 0 <= k < i ==> !b@.contains(#[trigger] a@[k]),
        decreases a.len() - i,
    {
        if contains(b, a[i]) {
            assert(a@.contains(a@[i as int]));
            return false;
        }
        i += 1;
    }
    true
}

/// Keeps in `a` only what is in `b` too.
pub fn intersect_with(a: &mut Vec<usize>, b: &Vec<usize>)
    requires
        sorted(old(a)@),
    ensures
        sorted(final(a)@),
        forall|x: usize|
            #![trigger final(a)@.contains(x)]
            #![trigger old(a)@.contains(x)]
            #![trigger b@.contains(x)]
            final(a)@.contains(x) <==> (old(a)@.contains(x) && b@.contains(x)),
{
    let mut out: Vec<usize> = Vec::new();
    let mut i: usize = 0;
    while i < a.len()
        invariant
            i <= a.len(),
            a@ == old(a)@,
            sorted(a@),
            sorted(out@),
            forall|k: int| 0 <= k < out.len() ==> a@.take(i as int).contains(#[trigger] out@[k]),
            forall|k: int| 0 <= k < out.len() ==> b@.contains(#[trigger] out@[k]),
            forall|k: int|
                0 <= k < i && b@.contains(#[trigger] a@[k]) ==> out@.contains(a@[k]),
        decreases a.len() - i,
    {
        let x = a[i];
        let ghost out0 = out@;
        if contains(b, x) {
            out.push(x);
            proof {
                assert forall|p: int, q: int| 0 <= p < q < out.len() implies out@[p] < out@[q] by {
                    if q == out.len() - 1 {
                        assert(a@.take(i as int).contains(out0[p]));
                        let l = choose|l: int|
                            0 <= l < a@.take(i as int).len() && a@.take(i as int)[l] == out0[p];
                        assert(a@[l] < a@[i as int]);
                    }
                }
                assert(out@[out.len() - 1] == x);
            }
        }
        proof {
            assert forall|k: int| 0 <= k < out.len() implies a@.take(i as int + 1).contains(
                #[trigger] out@[k],
            ) by {
                if k < out0.len() {
                    let l = choose|l: int|
                        0 <= l < a@.take(i as int).len() && a@.take(i as int)[l] == out0[k];
                    assert(a@.take(i as int + 1)[l] == out@[k]);
                } else {
                    assert(a@.take(i as int + 1)[i as int] == x);
                }
            }
            assert forall|k: int| 0 <= k < i + 1 && b@.contains(#[trigger] a@[k]) implies out@.contains(
                a@[k],
            ) by {
                if k < i {
                    let l = choose|l: int| 0 <= l < out0.len() && out0[l] == a@[k];
                    assert(out@[l] == a@[k]);
                } else {
                    assert(out@[out.len() - 1] == x);
                }
            }
        }
        i += 1;
    }
    proof {
        assert(a@.take(i as int) =~= a@);
        assert forall|x: usize| out@.contains(x) <==> (a@.contains(x) && b@.contains(x)) by {
            if a@.contains(x) && b@.contains(x) {
                let k = choose|k: int| 0 <= k < a@.len() && a@[k] == x;
                assert(b@.contains(a@[k]));
            }
        }
    }
    *a = out;
}

/// Adds to `a` what is in `b`.
pub fn union_with(a: &mut Vec<usize>, b: &Vec<usize>)
    requires
        sorted(old(a)@),
    ensures
        sorted(final(a)@),
        forall|x: usize|
            #![trigger final(a)@.contains(x)]
            #![trigger old(a)@.contains(x)]
            #![trigger b@.contains(x)]
            final(a)@.contains(x) <==> (old(a)@.contains(x) || b@.contains(x)),
{
    let mut i: usize = 0;
    while i < b.len()
        invariant
            i <= b.len(),
            sorted(a@),
            forall|x: usize|
                a@.contains(x) <==> (old(a)@.contains(x) || b@.take(i as int).contains(x)),
        decreases b.len() - i,
    {
        let y = b[i];
        let ghost a0 = a@;
        insert(a, y);
        proof {
            assert forall|x: usize|
                a@.contains(x) <==> (old(a)@.contains(x) || b@.take(i as int + 1).contains(x)) by {
                let t0 = b@.take(i as int);
                let t1 = b@.take(i as int + 1);
                assert(t1 =~= t0.push(y));
                if t0.contains(x) {
                    let k = choose|k: int| 0 <= k < t0.len() && t0[k] == x;
                    assert(t1[k] == x);
                }
                if t1.contains(x) {
                    let k = choose|k: int| 0 <= k < t1.len() && t1[k] == x;
                    if k < t0.len() {
                        assert(t0[k] == x);
                    }
                }
                if x == y {
                    assert(t1[i as int] == y);
                }
                assert(a0.contains(x) <==> (old(a)@.contains(x) || t0.contains(x)));
            }
        }
        i += 1;
    }
    assert(b@.take(i as int) =~= b@);
}

/// Whether the two vectors hold the same indices in the same order.
pub fn same(a: &Vec<usize>, b: &Vec<usize>) -> (r: bool)
    ensures
        r == (a@ == b@),
{
    if a.len() != b.len() {
        return false;
    }
    let mut i: usize = 0;
    while i < a.len()
        invariant
            i <= a.len(),
            a.len() == b.len(),
            forall|k: int| 0 <= k < i ==> a@[k] == b@[k],
        decreases a.len() - i,
    {
        if a[i] != b[i] {
            return false;
        }
        i += 1;
    }
    assert(a@ =~= b@);
    true
}

/// A copy of `v`.
pub fn copy(v: &Vec<usize>) -> (r: Vec<usize>)
    ensures
        r@ == v@,
{
    let r = v.clone();
    assert(r@ =~= v@);
    r
}

/// Whether `s` never decreases.
pub open spec fn ordered(s: Seq<usize>) -> bool {
    forall|i: int, j: int| 0 <= i < j < s.len() ==> s[i] <= s[j]
}

/// Puts `x` into the never decreasing `v`, behind the elements that are not above it.
pub fn insert_ordered(v: &mut Vec<usize>, x: usize)
    requires
        ordered(old(v)@),
    ensures
        ordered(final(v)@),
        exists|p: int| 0 <= p <= old(v)@.len() && final(v)@ == old(v)@.insert(p, x),
{
    let mut p: usize = 0;
    while p < v.len() && v[p] <= x
        invariant
            p <= v.len(),
            v@ == old(v)@,
            forall|k: int| 0 <= k < p ==> v@[k] <= x,
        decreases v.len() - p,
    {
        p += 1;
    }
    v.insert(p, x);
    proof {
        let a = old(v)@;
        let b = v@;
        assert(b == a.insert(p as int, x));
        assert forall|i: int, j: int| 0 <= i < j < b.len() implies b[i] <= b[j] by {
            if j < p {
            } else if j == p {
            } else if i < p {
                assert(b[j] == a[j - 1]);
                if j - 1 > p {
                    assert(a[p as int] <= a[j - 1]);
                }
            } else if i == p {
                assert(b[j] == a[j - 1]);
                if j - 1 > p {
                    assert(a[p as int] <= a[j - 1]);
                }
            } else {
                assert(b[i] == a[i - 1]);
                assert(b[j] == a[j - 1]);
            }
        }
    }
}

/// Puts the elements of `src` behind those of `dst`.
pub fn extend(dst: &mut Vec<usize>, src: &Vec<usize>)
    ensures
        final(dst)@ == old(dst)@ + src@,
{
    let mut i: usize = 0;
    while i < src.len()
        invariant
            i <= src.len(),
            dst@ == old(dst)@ + src@.take(i as int),
        decreases src.len() - i,
    {
        dst.push(src[i]);
        assert(src@.take(i as int + 1) =~= src@.take(i as int).push(src@[i as int]));
        assert(dst@ =~= old(dst)@ + src@.take(i as int + 1));
        i += 1;
    }
    assert(src@.take(i as int) =~= src@);
}

} // verus!
