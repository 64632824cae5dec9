//! Ordering helpers over index vectors: the std sort with its documented
//! contract, a verified dedup of sorted vectors, and the facts about sorted
//! sequences the structural passes rely on.
use vstd::prelude::*;

verus! {

broadcast use vstd::seq_lib::group_to_multiset_ensures;

/// `s` is in non-decreasing order.
pub open spec fn sorted(s: Seq<usize>) -> bool {
    forall|i: int, j: int| 0 <= i < j < s.len() ==> s[i] <= s[j]
}

/// `s` is in strictly increasing order (hence has no duplicates).
pub open spec fn strictly_sorted(s: Seq<usize>) -> bool {
    forall|i: int, j: int| 0 <= i < j < s.len() ==> s[i] < s[j]
}

/// `slice::sort_unstable` on a vector of indices: the same elements, with the
/// same multiplicities, in non-decreasing order.
#[verifier::external_body]
pub fn sort_indices(v: &mut Vec<usize>)
    ensures
        sorted(final(v)@),
        final(v)@.to_multiset() == old(v)@.to_multiset(),
{
    v.sort_unstable();
}

/// Remove the repeated elements of a sorted vector of indices (what
/// `Vec::dedup` does there): each distinct element stays exactly once, in
/// increasing order.
pub fn dedup_sorted_indices(v: &mut Vec<usize>)
    requires
        sorted(old(v)@),
    ensures
        strictly_sorted(final(v)@),
        forall|x: usize| final(v)@.contains(x) <==> old(v)@.contains(x),
{
    let mut out: Vec<usize> = Vec::new();
    let mut i: usize = 0;
    while i < v.len()
        invariant
            i <= v@.len(),
            sorted(v@),
            strictly_sorted(out@),
            forall|x: usize| out@.contains(x) <==> v@.subrange(0, i as int).contains(x),
            out@.len() == 0 <==> i == 0,
            out@.len() > 0 ==> out@.last() == v@[i - 1],
        decreases v@.len() - i,
    {
        let x = v[i];
        let ghost before = out@;
        if out.len() == 0 || out[out.len() - 1] != x {
            out.push(x);
            proof {
                if before.len() > 0 {
                    assert(v@[i - 1] <= v@[i as int]);
                    assert forall|a: int, b: int| 0 <= a < b < out@.len() implies out@[a] < out@[b] by {
                        if b == out@.len() - 1 && a < before.len() - 1 {
                            assert(before[a] < before[before.len() - 1]);
                        }
                    }
                }
            }
        }
        proof {
            let pre = v@.subrange(0, i as int);
            let post = v@.subrange(0, i + 1);
            assert(post =~= pre.push(x));
            assert forall|y: usize| out@.contains(y) <==> post.contains(y) by {
                if post.contains(y) && y != x {
                    let k = choose|k: int| 0 <= k < post.len() && post[k] == y;
                    assert(pre[k] == y);
                }
                if out@.contains(y) && y != x {
                    let k = choose|k: int| 0 <= k < out@.len() && out@[k] == y;
                    if k < before.len() {
                        assert(before[k] == y);
                        assert(before.contains(y));
                    }
                }
                if y == x {
                    assert(post[i as int] == x);
                    if !(out@.len() > before.len()) {
                        assert(before[before.len() - 1] == x);
                    } else {
                        assert(out@[before.len() as int] == x);
                    }
                }
                if before.contains(y) {
                    let k = choose|k: int| 0 <= k < before.len() && before[k] == y;
                    assert(out@[k] == y);
                }
            }
        }
        i = i + 1;
    }
    proof {
        assert(v@.subrange(0, v@.len() as int) =~= v@);
    }
    *v = out;
}

/// Sorting a duplicate-free sequence yields a strictly increasing one with
/// the same elements.
pub proof fn lemma_sorted_permutation_strict(s: Seq<usize>, t: Seq<usize>)
    requires
        sorted(s),
        s.to_multiset() == t.to_multiset(),
        t.no_duplicates(),
    ensures
        strictly_sorted(s),
        forall|x: usize| s.contains(x) <==> t.contains(x),
{
    t.lemma_multiset_has_no_duplicates();
    s.lemma_multiset_has_no_duplicates_conv();
    assert forall|x: usize| s.contains(x) <==> t.contains(x) by {
        assert(s.contains(x) <==> s.to_multiset().count(x) > 0);
        assert(t.contains(x) <==> t.to_multiset().count(x) > 0);
    }
}

/// Sort and remove duplicates: the strictly increasing enumeration of the
/// distinct elements of `v`.
pub fn sort_dedup(v: &mut Vec<usize>)
    ensures
        strictly_sorted(final(v)@),
        forall|x: usize| final(v)@.contains(x) <==> old(v)@.contains(x),
{
    let ghost original = v@;
    sort_indices(v);
    proof {
        assert forall|x: usize| v@.contains(x) <==> original.contains(x) by {
            assert(v@.contains(x) <==> v@.to_multiset().count(x) > 0);
            assert(original.contains(x) <==> original.to_multiset().count(x) > 0);
        }
    }
    dedup_sorted_indices(v);
}

} // verus!
