//! Ordered, mutable, in-memory collections of `u64` keys backed by binary
//! search trees: a height-balanced tree (`avl`) with logarithmic-depth
//! guarantees, and a plain unbalanced tree (`bst`) as a baseline sharing the
//! same data model and traversal logic.

pub mod avl;
pub mod bst;

use vstd::prelude::*;

verus! {

/// A sequence of keys in strictly ascending order: sorted, with no duplicates.
pub open spec fn sorted_strict(s: Seq<u64>) -> bool {
    forall|i: int, j: int| 0 <= i < j < s.len() ==> s[i] < s[j]
}

/// A strictly ascending sequence is determined by the set of its elements:
/// two trees with the same contents produce the same in-order traversal.
pub proof fn lemma_sorted_unique(a: Seq<u64>, b: Seq<u64>)
    requires
        sorted_strict(a),
        sorted_strict(b),
        a.to_set() == b.to_set(),
    ensures
        a == b,
    decreases a.len(),
{
    if a.len() == 0 {
        if b.len() > 0 {
            assert(b.contains(b[0]));
            assert(b.to_set().contains(b[0]));
            assert(a.to_set().contains(b[0]));
            assert(a.contains(b[0]));
            assert(false);
        }
        assert(a =~= b);
    } else {
        assert(a.contains(a[0]));
        assert(a.to_set().contains(a[0]));
        assert(b.to_set().contains(a[0]));
        assert(b.contains(a[0]));
        let j = choose|j: int| 0 <= j < b.len() && b[j] == a[0];
        assert(b[0] <= a[0]);
        assert(b.contains(b[0]));
        assert(b.to_set().contains(b[0]));
        assert(a.to_set().contains(b[0]));
        assert(a.contains(b[0]));
        let i = choose|i: int| 0 <= i < a.len() && a[i] == b[0];
        assert(a[0] <= b[0]);
        assert(a[0] == b[0]);
        let at = a.drop_first();
        let bt = b.drop_first();
        assert forall|x: u64| at.to_set().contains(x) implies bt.to_set().contains(x) by {
            assert(at.contains(x));
            let k = choose|k: int| 0 <= k < at.len() && at[k] == x;
            assert(a[k + 1] == x);
            assert(a.contains(x));
            assert(a.to_set().contains(x));
            assert(b.to_set().contains(x));
            assert(b.contains(x));
            let m = choose|m: int| 0 <= m < b.len() && b[m] == x;
            assert(x > a[0]);
            assert(m != 0);
            assert(bt[m - 1] == x);
            assert(bt.contains(x));
            assert(bt.to_set().contains(x));
        }
        assert forall|x: u64| bt.to_set().contains(x) implies at.to_set().contains(x) by {
            assert(bt.contains(x));
            let k = choose|k: int| 0 <= k < bt.len() && bt[k] == x;
            assert(b[k + 1] == x);
            assert(b.contains(x));
            assert(b.to_set().contains(x));
            assert(a.to_set().contains(x));
            assert(a.contains(x));
            let m = choose|m: int| 0 <= m < a.len() && a[m] == x;
            assert(x > b[0]);
            assert(m != 0);
            assert(at[m - 1] == x);
            assert(at.contains(x));
            assert(at.to_set().contains(x));
        }
        assert(at.to_set() =~= bt.to_set());
        lemma_sorted_unique(at, bt);
        assert(a.len() == b.len());
        assert forall|k: int| 0 <= k < a.len() implies a[k] == b[k] by {
            if k > 0 {
                assert(at[k - 1] == bt[k - 1]);
            }
        }
        assert(a =~= b);
    }
}

/// After inserting `v` the key `v` is a member, and after a subsequent
/// removal of `v` it no longer is; stated over the set view that the tree
/// contracts use.
pub proof fn lemma_membership_round_trip(s: Set<u64>, v: u64)
    ensures
        s.insert(v).contains(v),
        !s.insert(v).remove(v).contains(v),
{
}

/// Inserting a key that is already present leaves the contents unchanged, so
/// a repeated insert cannot grow the traversal.
pub proof fn lemma_insert_idempotent(s: Set<u64>, v: u64)
    ensures
        s.insert(v).insert(v) == s.insert(v),
{
    assert(s.insert(v).insert(v) =~= s.insert(v));
}

/// Removing a key that is not present leaves the contents unchanged.
pub proof fn lemma_remove_absent(s: Set<u64>, v: u64)
    requires
        !s.contains(v),
    ensures
        s.remove(v) == s,
{
    assert(s.remove(v) =~= s);
}

} // verus!
