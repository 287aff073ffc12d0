//! The orderings that the library's sorted maps rely on.

use vstd::laws_cmp::{group_laws_cmp, obeys_cmp};
use vstd::prelude::*;
use vstd::std_specs::btree::{axiom_increasing_seq_meaning, increasing_seq};
use vstd::std_specs::cmp::OrdSpec;

verus! {

/// Token ids are ordered as integers, so a sorted map may be keyed by them.
pub proof fn lemma_id_keys()
    ensures
        obeys_cmp::<i32>(),
{
    broadcast use group_laws_cmp;

}

/// Pairs of token ids are ordered lexicographically, so a sorted map may be
/// keyed by them.
pub proof fn lemma_pair_keys()
    ensures
        obeys_cmp::<(i32, i32)>(),
{
    broadcast use group_laws_cmp;

}

/// In an increasing sequence an earlier element is less than a later one.
proof fn lemma_increasing<K: Ord>(keys: Seq<K>, i: int, j: int)
    requires
        obeys_cmp::<K>(),
        increasing_seq(keys),
        0 <= i < j < keys.len(),
    ensures
        keys[i].cmp_spec(&keys[j]) is Less,
{
    axiom_increasing_seq_meaning::<K>(keys);
}

/// A sorted map hands out its ids from the smallest to the largest.
pub proof fn lemma_increasing_ids(keys: Seq<&i32>)
    requires
        increasing_seq(keys),
    ensures
        forall|i: int, j: int| 0 <= i < j < keys.len() ==> *keys[i] < *keys[j],
{
    broadcast use group_laws_cmp;

    assert(obeys_cmp::<i32>());
    assert(obeys_cmp::<&i32>());
    assert forall|i: int, j: int| 0 <= i < j < keys.len() implies *keys[i] < *keys[j] by {
        lemma_increasing::<&i32>(keys, i, j);
    }
}

} // verus!
