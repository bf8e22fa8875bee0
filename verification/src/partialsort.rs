//! Partially sort a vector from largest to smallest item, ensuring sorted
//! order only for elements of index at most `k`.

use vstd::prelude::*;
use vstd::seq_lib::to_multiset_insert;
use vstd::seq_lib::to_multiset_remove;

verus! {

/// Replacing one element changes the multiset by one removal and one
/// insertion.
proof fn lemma_update_multiset(s: Seq<usize>, i: int, v: usize)
    requires
        0 <= i < s.len(),
    ensures
        s.update(i, v).to_multiset() =~= s.to_multiset().remove(s[i]).insert(v),
{
    broadcast use vstd::multiset::group_multiset_axioms;

    assert(s.update(i, v) =~= s.remove(i).insert(i, v));
    to_multiset_remove(s, i);
    to_multiset_insert(s.remove(i), i, v);
}

/// Swapping two elements leaves the multiset unchanged.
proof fn lemma_swap_multiset(s: Seq<usize>, i: int, j: int)
    requires
        0 <= i < s.len(),
        0 <= j < s.len(),
        i != j,
    ensures
        s.update(i, s[j]).update(j, s[i]).to_multiset() =~= s.to_multiset(),
{
    broadcast use vstd::multiset::group_multiset_axioms;

    let u = s.update(i, s[j]);
    lemma_update_multiset(s, i, s[j]);
    lemma_update_multiset(u, j, s[i]);
    assert(u[j] == s[j]);
    assert(u.update(j, s[i]).to_multiset() =~= s.to_multiset().remove(s[i]).insert(
        s[j],
    ).remove(s[j]).insert(s[i]));
    assert(s.to_multiset().contains(s[i])) by {
        broadcast use vstd::seq_lib::group_to_multiset_ensures;

        assert(s.contains(s[i]));
    }
}

/// Partially sorts the vector from largest to smallest item: afterwards the
/// contents are a permutation of the input in which every element of index
/// at most `k` is at least as large as everything after it.
pub fn partial_sort(slice: &mut Vec<usize>, k: usize)
    ensures
        final(slice)@.len() == old(slice)@.len(),
        final(slice)@.to_multiset() =~= old(slice)@.to_multiset(),
        forall|i: int, j: int|
            0 <= i < j < final(slice)@.len() && i <= k ==> final(slice)@[i]
                >= final(slice)@[j],
{
    let len = slice.len();
    let bound = if k >= len {
        len
    } else {
        k + 1
    };
    let mut i: usize = 0;
    while i < bound
        invariant
            bound <= len,
            len == slice@.len(),
            bound == if k >= len {
                len as int
            } else {
                k + 1
            },
            i <= bound,
            slice@.to_multiset() =~= old(slice)@.to_multiset(),
            // The prefix is sorted descending and dominates the suffix.
            forall|a: int, b: int| 0 <= a < i && a < b < len ==> slice@[a] >= slice@[b],
        decreases bound - i,
    {
        // Select the largest remaining element into position `i`.
        let mut m: usize = i;
        let mut j: usize = i + 1;
        while j < len
            invariant
                i <= m < len,
                i < j <= len,
                len == slice@.len(),
                forall|a: int| i <= a < j ==> slice@[m as int] >= slice@[a],
            decreases len - j,
        {
            if slice[j] > slice[m] {
                m = j;
            }
            j += 1;
        }
        if m != i {
            let ghost before = slice@;
            let vi = slice[i];
            let vm = slice[m];
            slice[i] = vm;
            slice[m] = vi;
            proof {
                lemma_swap_multiset(before, i as int, m as int);
            }
        }
        i += 1;
    }
}

} // verus!
