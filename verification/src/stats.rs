//! Frequencies of adjacent pairs in an id sequence.

use crate::order::lemma_pair_keys;
use std::collections::BTreeMap;
use vstd::prelude::*;

verus! {

/// The number of positions `i` at which `ids[i], ids[i + 1]` is `pair`.
pub open spec fn pair_count(ids: Seq<i32>, pair: (i32, i32)) -> nat
    decreases ids.len(),
{
    if ids.len() < 2 {
        0
    } else {
        let last: nat = if ids[ids.len() - 2] == pair.0 && ids[ids.len() - 1] == pair.1 {
            1
        } else {
            0
        };
        pair_count(ids.drop_last(), pair) + last
    }
}

/// The pair statistics of `ids`: every pair that occurs at least once, with
/// the number of its occurrences.
pub open spec fn stats_of(ids: Seq<i32>) -> Map<(i32, i32), usize> {
    Map::new(|p: (i32, i32)| pair_count(ids, p) > 0, |p: (i32, i32)| pair_count(ids, p) as usize)
}

/// A pair cannot occur more often than there are adjacent positions.
pub proof fn lemma_pair_count_bound(ids: Seq<i32>, pair: (i32, i32))
    ensures
        pair_count(ids, pair) <= ids.len(),
        ids.len() >= 1 ==> pair_count(ids, pair) < ids.len(),
    decreases ids.len(),
{
    if ids.len() >= 2 {
        lemma_pair_count_bound(ids.drop_last(), pair);
    }
}

/// Whether `pair` stands at position `i` of `ids`.
pub open spec fn occurs_at(ids: Seq<i32>, pair: (i32, i32), i: int) -> bool {
    0 <= i < ids.len() - 1 && ids[i] == pair.0 && ids[i + 1] == pair.1
}

/// A pair with a positive count stands at some position, and conversely.
pub proof fn lemma_pair_count_positive(ids: Seq<i32>, pair: (i32, i32))
    ensures
        pair_count(ids, pair) > 0 <==> exists|i: int| occurs_at(ids, pair, i),
    decreases ids.len(),
{
    if ids.len() >= 2 {
        let front = ids.drop_last();
        lemma_pair_count_positive(front, pair);
        let n = ids.len() as int;
        if pair_count(ids, pair) > 0 {
            if ids[n - 2] == pair.0 && ids[n - 1] == pair.1 {
                assert(occurs_at(ids, pair, n - 2));
            } else {
                let i = choose|i: int| occurs_at(front, pair, i);
                assert(occurs_at(ids, pair, i));
            }
        }
        if exists|i: int| occurs_at(ids, pair, i) {
            let i = choose|i: int| occurs_at(ids, pair, i);
            if i < n - 2 {
                assert(occurs_at(front, pair, i));
            }
        }
    }
}

/// Counts how often each pair of adjacent ids occurs in `ids`. Fewer than two
/// ids give an empty map.
pub fn get_stats(ids: &[i32]) -> (counts: BTreeMap<(i32, i32), usize>)
    ensures
        counts@ == stats_of(ids@),
{
    let mut counts: BTreeMap<(i32, i32), usize> = BTreeMap::new();
    proof {
        lemma_pair_keys();
    }
    if ids.len() < 2 {
        assert(counts@ =~= stats_of(ids@));
        return counts;
    }
    assert(counts@ =~= stats_of(ids@.take(1)));
    let mut i: usize = 0;
    while i < ids.len() - 1
        invariant
            ids.len() >= 2,
            i <= ids.len() - 1,
            counts@ == stats_of(ids@.take(i + 1)),
        decreases ids.len() - i,
    {
        let pair = (ids[i], ids[i + 1]);
        let ghost before = ids@.take(i + 1);
        let ghost after = ids@.take(i + 2);
        proof {
            lemma_pair_keys();
            assert(after.drop_last() == before);
            lemma_pair_count_bound(before, pair);
        }
        let seen: usize = match counts.get(&pair) {
            Some(c) => *c,
            None => 0,
        };
        counts.insert(pair, seen + 1);
        proof {
            assert(counts@ =~= stats_of(after));
        }
        i += 1;
    }
    assert(ids@.take(ids.len() as int) == ids@);
    counts
}

} // verus!
