//! Arena-backed linked lists (singly and doubly linked) and a binary heap.
use vstd::prelude::*;

pub mod doubly;
pub mod heap;
pub mod singly;

verus! {

/// A sequence of integers in non-decreasing order.
pub open spec fn sorted(s: Seq<i32>) -> bool {
    forall|i: int, j: int| 0 <= i < j < s.len() ==> s[i] <= s[j]
}

/// Number of leading elements of `s` that are below `v`: where a sorted
/// insert of `v` places it.
pub open spec fn insert_pos(s: Seq<i32>, v: i32) -> int
    decreases s.len(),
{
    if s.len() == 0 || s[0] >= v {
        0
    } else {
        1 + insert_pos(s.drop_first(), v)
    }
}

pub(crate) proof fn lemma_insert_pos(s: Seq<i32>, v: i32, k: int)
    requires
        0 <= k <= s.len(),
        forall|i: int| 0 <= i < k ==> s[i] < v,
        k < s.len() ==> s[k] >= v,
    ensures
        insert_pos(s, v) == k,
    decreases s.len(),
{
    if s.len() > 0 && k > 0 {
        lemma_insert_pos(s.drop_first(), v, k - 1);
    }
}

pub(crate) proof fn lemma_insert_pos_bounds(s: Seq<i32>, v: i32)
    ensures
        0 <= insert_pos(s, v) <= s.len(),
    decreases s.len(),
{
    if s.len() > 0 {
        lemma_insert_pos_bounds(s.drop_first(), v);
    }
}

/// Placing `v` after the values below it and before the rest keeps a sorted
/// sequence sorted.
pub(crate) proof fn lemma_insert_keeps_sorted(s: Seq<i32>, v: i32, k: int)
    requires
        sorted(s),
        0 <= k <= s.len(),
        forall|i: int| 0 <= i < k ==> s[i] < v,
        k < s.len() ==> s[k] >= v,
    ensures
        sorted(s.insert(k, v)),
{
    let t = s.insert(k, v);
    assert forall|i: int, j: int| 0 <= i < j < t.len() implies t[i] <= t[j] by {
        if j < k {
        } else if j == k {
            assert(t[i] == s[i]);
        } else if i == k {
            assert(t[j] == s[j - 1]);
            assert(s[k] <= s[j - 1]);
        } else if i < k {
            assert(t[j] == s[j - 1]);
        } else {
            assert(t[j] == s[j - 1]);
            assert(t[i] == s[i - 1]);
        }
    }
}

} // verus!
