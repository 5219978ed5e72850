//! Merge sort of distinct `u128` keys, used to lay out the children lists of the
//! structural index in document order.

use vstd::prelude::*;

verus! {

/// Every key is smaller than the keys after it.
pub open spec fn strictly_sorted(s: Seq<u128>) -> bool {
    forall|i: int, j: int| 0 <= i < j < s.len() ==> s[i] < s[j]
}

/// No key occurs twice.
pub open spec fn all_distinct(s: Seq<u128>) -> bool {
    forall|i: int, j: int| 0 <= i < s.len() && 0 <= j < s.len() && i != j ==> s[i] != s[j]
}

/// Merge two strictly sorted sequences without common keys.
fn merge(a: &[u128], b: &[u128]) -> (r: Vec<u128>)
    requires
        strictly_sorted(a@),
        strictly_sorted(b@),
        forall|i: int, j: int| 0 <= i < a@.len() && 0 <= j < b@.len() ==> a@[i] != b@[j],
    ensures
        strictly_sorted(r@),
        r@.len() == a@.len() + b@.len(),
        forall|x: u128| r@.contains(x) <==> (a@.contains(x) || b@.contains(x)),
{
    let mut out: Vec<u128> = Vec::new();
    let mut i: usize = 0;
    let mut j: usize = 0;
    while i < a.len() || j < b.len()
        invariant
            strictly_sorted(a@),
            strictly_sorted(b@),
            forall|p: int, q: int| 0 <= p < a@.len() && 0 <= q < b@.len() ==> a@[p] != b@[q],
            i <= a@.len(),
            j <= b@.len(),
            out@.len() == i + j,
            strictly_sorted(out@),
            forall|k: int| 0 <= k < out@.len() ==> (i < a@.len() ==> out@[k] < a@[i as int]),
            forall|k: int| 0 <= k < out@.len() ==> (j < b@.len() ==> out@[k] < b@[j as int]),
            forall|x: u128|
                out@.contains(x) <==> (a@.subrange(0, i as int).contains(x) || b@.subrange(
                    0,
                    j as int,
                ).contains(x)),
        decreases a@.len() + b@.len() - i - j,
    {
        let take_a = j >= b.len() || (i < a.len() && a[i] < b[j]);
        if take_a {
            let x = a[i];
            out.push(x);
            assert(a@.subrange(0, i + 1) =~= a@.subrange(0, i as int).push(x));
            i += 1;
        } else {
            let x = b[j];
            if i < a.len() {
                assert(a@[i as int] != b@[j as int]);
            }
            out.push(x);
            assert(b@.subrange(0, j + 1) =~= b@.subrange(0, j as int).push(x));
            j += 1;
        }
        proof {
            broadcast use vstd::seq_lib::lemma_seq_contains_after_push;
        }
    }
    assert(a@.subrange(0, a@.len() as int) =~= a@);
    assert(b@.subrange(0, b@.len() as int) =~= b@);
    out
}

/// Sort distinct keys into increasing order.
pub fn sort_keys(v: &[u128]) -> (r: Vec<u128>)
    requires
        all_distinct(v@),
    ensures
        strictly_sorted(r@),
        r@.len() == v@.len(),
        forall|x: u128| r@.contains(x) <==> v@.contains(x),
    decreases v@.len(),
{
    if v.len() == 0 {
        return Vec::new();
    }
    if v.len() == 1 {
        let r = vec![v[0]];
        assert(r@ =~= v@);
        return r;
    }
    let mid = v.len() / 2;
    let left = &v[0..mid];
    let right = &v[mid..v.len()];
    assert(all_distinct(left@)) by {
        assert forall|i: int, j: int|
            0 <= i < left@.len() && 0 <= j < left@.len() && i != j implies left@[i] != left@[j] by {
            assert(left@[i] == v@[i] && left@[j] == v@[j]);
        }
    }
    assert(all_distinct(right@)) by {
        assert forall|i: int, j: int|
            0 <= i < right@.len() && 0 <= j < right@.len() && i != j implies right@[i]
            != right@[j] by {
            assert(right@[i] == v@[mid + i] && right@[j] == v@[mid + j]);
        }
    }
    let sl = sort_keys(left);
    let sr = sort_keys(right);
    assert forall|i: int, j: int| 0 <= i < sl@.len() && 0 <= j < sr@.len() implies sl@[i]
        != sr@[j] by {
        assert(sl@.contains(sl@[i]));
        assert(sr@.contains(sr@[j]));
        if sl@[i] == sr@[j] {
            let p = choose|p: int| 0 <= p < left@.len() && left@[p] == sl@[i];
            let q = choose|q: int| 0 <= q < right@.len() && right@[q] == sr@[j];
            assert(v@[p] == left@[p]);
            assert(v@[mid + q] == right@[q]);
        }
    }
    let r = merge(sl.as_slice(), sr.as_slice());
    assert forall|x: u128| r@.contains(x) <==> v@.contains(x) by {
        if v@.contains(x) {
            let k = choose|k: int| 0 <= k < v@.len() && v@[k] == x;
            if k < mid {
                assert(left@[k] == x);
            } else {
                assert(right@[k - mid] == x);
            }
        }
        if left@.contains(x) {
            let k = choose|k: int| 0 <= k < left@.len() && left@[k] == x;
            assert(v@[k] == x);
        }
        if right@.contains(x) {
            let k = choose|k: int| 0 <= k < right@.len() && right@[k] == x;
            assert(v@[mid + k] == x);
        }
    }
    r
}

} // verus!
