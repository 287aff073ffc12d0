//! Learning a merge table: which pair is merged next, and the state that a
//! number of rounds leads to.

use crate::merge::{lemma_merged_elements, lemma_merged_pairs, merged};
use crate::stats::{lemma_pair_count_bound, lemma_pair_count_positive, occurs_at, pair_count, stats_of};
use crate::table::{distinct_keys, key_index, lemma_key_index};
use crate::vocab::trained_shape;
use std::collections::BTreeMap;
use vstd::prelude::*;

verus! {

/// The first id that a learned merge gets.
pub const FIRST_MERGE_ID: i32 = 256;

/// The largest vocabulary that the token ids can number: with it the last
/// merge has the largest id there is.
pub const MAX_VOCAB_SIZE: usize = 0x8000_0000;

/// The number of rounds of training for the vocabulary size `vocab_size`, of
/// at least 256: one round for each id beyond the raw bytes, as far as the
/// token ids reach.
pub open spec fn rounds_for(vocab_size: usize) -> nat {
    if vocab_size > MAX_VOCAB_SIZE {
        (MAX_VOCAB_SIZE - 256) as nat
    } else {
        (vocab_size - 256) as nat
    }
}

/// Pairs are ordered by their first id, then by their second.
pub open spec fn pair_lt(a: (i32, i32), b: (i32, i32)) -> bool {
    a.0 < b.0 || (a.0 == b.0 && a.1 < b.1)
}

/// Whether pair `p` with count `pc` is chosen before pair `q` with count `qc`,
/// or is `q` itself: the higher count wins, and among equal counts the
/// smaller pair.
pub open spec fn precedes(p: (i32, i32), pc: int, q: (i32, i32), qc: int) -> bool {
    pc > qc || (pc == qc && !pair_lt(q, p))
}

/// Whether `p` is the pair of `stats` that is chosen before all others.
pub open spec fn is_top(stats: Map<(i32, i32), usize>, p: (i32, i32)) -> bool {
    &&& stats.contains_key(p)
    &&& forall|q: (i32, i32)| #[trigger]
        stats.contains_key(q) ==> precedes(p, stats[p] as int, q, stats[q] as int)
}

/// The pair that training merges next in `ids`: the most frequent one, and
/// among equally frequent pairs the smallest. Meaningful for at least two ids.
pub open spec fn best_pair(ids: Seq<i32>) -> (i32, i32) {
    choose|p: (i32, i32)| is_top(stats_of(ids), p)
}

/// At most one pair is chosen before all others.
pub proof fn lemma_top_unique(stats: Map<(i32, i32), usize>, a: (i32, i32), b: (i32, i32))
    requires
        is_top(stats, a),
        is_top(stats, b),
    ensures
        a == b,
{
    assert(stats.contains_key(a) && stats.contains_key(b));
}

/// What `most_frequent_pair` answers for `stats`: the pair that is chosen
/// before all others, with its count, or `None` for empty statistics.
pub open spec fn is_choice(stats: Map<(i32, i32), usize>, best: Option<((i32, i32), usize)>) -> bool {
    match best {
        Some((p, c)) => is_top(stats, p) && c == stats[p],
        None => forall|q: (i32, i32)| !stats.contains_key(q),
    }
}

/// The pair of `stats` that is chosen before all others, with its count:
/// the highest count wins, and among equal counts the smallest pair. `None`
/// for empty statistics.
pub fn most_frequent_pair(stats: &BTreeMap<(i32, i32), usize>) -> (best: Option<
    ((i32, i32), usize),
>)
    ensures
        is_choice(stats@, best),
{
    proof {
        crate::order::lemma_pair_keys();
    }
    let mut best: Option<((i32, i32), usize)> = None;
    for kv in it: stats.iter()
        invariant
            forall|i: int|
                0 <= i < it.seq().len() ==> stats@.contains_key(*(#[trigger] it.seq()[i]).0)
                    && stats@[*it.seq()[i].0] == *it.seq()[i].1,
            forall|k: (i32, i32)| #[trigger]
                stats@.contains_key(k) ==> it.seq().contains((&k, &stats@[k])),
            match best {
                Some((p, c)) => {
                    &&& stats@.contains_key(p)
                    &&& c == stats@[p]
                    &&& forall|i: int|
                        0 <= i < it.index() ==> precedes(
                            p,
                            c as int,
                            *(#[trigger] it.seq()[i]).0,
                            *it.seq()[i].1 as int,
                        )
                },
                None => it.index() == 0,
            },
            it.index() == it.seq().len() ==> is_choice(stats@, best),
    {
        let (pair, count) = kv;
        let better = match best {
            Some((p, c)) => *count > c || (*count == c && (pair.0 < p.0 || (pair.0 == p.0 && pair.1
                < p.1))),
            None => true,
        };
        if better {
            best = Some((*pair, *count));
        }
        assert(it.index() + 1 == it.seq().len() ==> is_choice(stats@, best)) by {
            let (p, c) = best->0;
            assert forall|q: (i32, i32)|
                it.index() + 1 == it.seq().len() && #[trigger] stats@.contains_key(
                    q,
                ) implies precedes(p, stats@[p] as int, q, stats@[q] as int) by {
                assert(it.seq().contains((&q, &stats@[q])));
                assert(exists|i: int|
                    0 <= i < it.index() + 1 && precedes(
                        p,
                        c as int,
                        *(#[trigger] it.seq()[i]).0,
                        *it.seq()[i].1 as int,
                    ) && it.seq()[i] == (&q, &stats@[q]));
            }
        }
    }
    best
}

/// The id sequence after `rounds` rounds of training on `ids`: each round
/// merges the best pair into the next free id. A sequence of fewer than two
/// ids ends training: further rounds change nothing.
pub open spec fn ids_after(ids: Seq<i32>, rounds: nat) -> Seq<i32>
    decreases rounds,
{
    if rounds == 0 {
        ids
    } else {
        let prev = ids_after(ids, (rounds - 1) as nat);
        if prev.len() < 2 {
            prev
        } else {
            merged(prev, best_pair(prev), (FIRST_MERGE_ID + rounds - 1) as i32)
        }
    }
}

/// The merges learned in `rounds` rounds of training on `ids`, in the order
/// learned: round `k` (from 0) gives its pair the id `256 + k`.
pub open spec fn merges_after(ids: Seq<i32>, rounds: nat) -> Seq<((i32, i32), i32)>
    decreases rounds,
{
    if rounds == 0 {
        Seq::empty()
    } else {
        let prev = ids_after(ids, (rounds - 1) as nat);
        let learned = merges_after(ids, (rounds - 1) as nat);
        if prev.len() < 2 {
            learned
        } else {
            learned.push((best_pair(prev), (FIRST_MERGE_ID + rounds - 1) as i32))
        }
    }
}

/// How often each pair learned in `rounds` rounds of training on `ids` stood
/// in the sequence when it was merged, in the order learned.
pub open spec fn counts_after(ids: Seq<i32>, rounds: nat) -> Seq<usize>
    decreases rounds,
{
    if rounds == 0 {
        Seq::empty()
    } else {
        let prev = ids_after(ids, (rounds - 1) as nat);
        let counted = counts_after(ids, (rounds - 1) as nat);
        if prev.len() < 2 {
            counted
        } else {
            counted.push(pair_count(prev, best_pair(prev)) as usize)
        }
    }
}

/// Once fewer than two ids are left, more rounds change neither the ids nor
/// the merges.
pub proof fn lemma_training_stops(ids: Seq<i32>, done: nat, rounds: nat)
    requires
        done <= rounds,
        ids_after(ids, done).len() < 2,
    ensures
        ids_after(ids, rounds) == ids_after(ids, done),
        merges_after(ids, rounds) == merges_after(ids, done),
        counts_after(ids, rounds) == counts_after(ids, done),
    decreases rounds,
{
    if done < rounds {
        lemma_training_stops(ids, done, (rounds - 1) as nat);
    }
}

/// Whether every id of `ids` is at least 0 and below `bound`.
pub open spec fn ids_below(ids: Seq<i32>, bound: int) -> bool {
    forall|j: int| 0 <= j < ids.len() ==> 0 <= #[trigger] ids[j] < bound
}

/// Whether no key of `entries` stands anywhere in `ids`.
pub open spec fn keys_absent(entries: Seq<((i32, i32), i32)>, ids: Seq<i32>) -> bool {
    forall|k: int| 0 <= k < entries.len() ==> pair_count(ids, (#[trigger] entries[k]).0) == 0
}

/// A pair that `is_top` holds of stands somewhere in the sequence.
pub proof fn lemma_top_occurs(ids: Seq<i32>, p: (i32, i32))
    requires
        is_top(stats_of(ids), p),
    ensures
        pair_count(ids, p) > 0,
        exists|i: int| occurs_at(ids, p, i),
        ids.contains(p.0),
        ids.contains(p.1),
{
    lemma_pair_count_positive(ids, p);
    let i = choose|i: int| occurs_at(ids, p, i);
    assert(ids[i] == p.0 && ids[i + 1] == p.1);
}

/// The pair that is chosen before all others is the best pair.
pub proof fn lemma_best_pair(ids: Seq<i32>, p: (i32, i32))
    requires
        is_top(stats_of(ids), p),
    ensures
        best_pair(ids) == p,
{
    let b = best_pair(ids);
    lemma_top_unique(stats_of(ids), p, b);
}

/// One round of training keeps what training relies on: the ids stay below
/// the next free id, the table keeps its shape, and no learned pair stands in
/// the ids any more, so that every round learns a pair that is new.
pub proof fn lemma_round_keeps_shape(
    ids: Seq<i32>,
    entries: Seq<((i32, i32), i32)>,
    p: (i32, i32),
    idx: i32,
)
    requires
        idx == FIRST_MERGE_ID + entries.len(),
        ids_below(ids, idx as int),
        trained_shape(entries),
        keys_absent(entries, ids),
        is_top(stats_of(ids), p),
    ensures
        key_index(entries, p) is None,
        ids_below(merged(ids, p, idx), idx + 1),
        trained_shape(entries.push((p, idx))),
        keys_absent(entries.push((p, idx)), merged(ids, p, idx)),
        merged(ids, p, idx).len() < ids.len(),
{
    let next = merged(ids, p, idx);
    let grown = entries.push((p, idx));
    lemma_top_occurs(ids, p);
    crate::table::lemma_key_index(entries, p);
    lemma_merged_elements(ids, p, idx);
    let at = choose|i: int| occurs_at(ids, p, i);
    crate::merge::lemma_merged_shorter(ids, p, idx, at);
    assert forall|j: int| 0 <= j < next.len() implies 0 <= #[trigger] next[j] < idx + 1 by {
        if next[j] != idx {
            let i = choose|i: int| 0 <= i < ids.len() && ids[i] == next[j];
        }
    }
    let i0 = choose|i: int| 0 <= i < ids.len() && ids[i] == p.0;
    let i1 = choose|i: int| 0 <= i < ids.len() && ids[i] == p.1;
    assert(0 <= p.0 < idx && 0 <= p.1 < idx);
    assert forall|k: int| 0 <= k < grown.len() implies pair_count(next, (#[trigger] grown[k]).0)
        == 0 by {
        let q = grown[k].0;
        if k < entries.len() {
            assert(entries[k].0 == q);
        }
        assert(q.0 != idx && q.1 != idx);
        lemma_pair_count_positive(next, q);
        if pair_count(next, q) > 0 {
            let j = choose|j: int| occurs_at(next, q, j);
            lemma_merged_pairs(ids, p, idx, q, j);
            lemma_pair_count_positive(ids, q);
        }
    }
}

/// Among two or more ids, one pair is chosen before all others: the best
/// pair.
pub proof fn lemma_top_exists(ids: Seq<i32>)
    requires
        2 <= ids.len() <= usize::MAX,
    ensures
        is_top(stats_of(ids), best_pair(ids)),
    decreases ids.len(),
{
    let n = ids.len() as int;
    let q = (ids[n - 2], ids[n - 1]);
    let front = ids.drop_last();
    let stats = stats_of(ids);
    assert forall|r: (i32, i32)|
        pair_count(ids, r) <= usize::MAX && pair_count(front, r) <= usize::MAX && #[trigger] pair_count(
            ids,
            r,
        ) == pair_count(front, r) + (if r == q {
            1nat
        } else {
            0nat
        }) by {
        lemma_pair_count_bound(ids, r);
        lemma_pair_count_bound(front, r);
    }
    assert(stats.contains_key(q));
    if n == 2 {
        assert forall|r: (i32, i32)| #[trigger] stats.contains_key(r) implies r == q by {
            assert(pair_count(ids, r) == pair_count(front, r) + (if r == q {
                1nat
            } else {
                0nat
            }));
        }
        assert(is_top(stats, q));
    } else {
        lemma_top_exists(front);
        let before = stats_of(front);
        let p = best_pair(front);
        let best = if q == p || precedes(
            q,
            pair_count(ids, q) as int,
            p,
            pair_count(ids, p) as int,
        ) {
            q
        } else {
            p
        };
        assert(before.contains_key(p));
        assert(pair_count(ids, p) >= pair_count(front, p));
        assert forall|r: (i32, i32)| #[trigger] stats.contains_key(r) implies precedes(
            best,
            stats[best] as int,
            r,
            stats[r] as int,
        ) by {
            assert(pair_count(ids, r) == pair_count(front, r) + (if r == q {
                1nat
            } else {
                0nat
            }));
            if r != q {
                assert(before.contains_key(r));
                assert(precedes(p, before[p] as int, r, before[r] as int));
            }
        }
        assert(is_top(stats, best));
    }
}

/// What holds after any number of rounds of training on the ids of raw
/// bytes: the ids stay below the next free id, the table has the shape that
/// training gives it and no key twice, no learned pair stands in the ids any
/// more, and as long as two ids are left each round learns a merge.
pub proof fn lemma_training_shape(start: Seq<i32>, rounds: nat)
    requires
        ids_below(start, FIRST_MERGE_ID as int),
        start.len() <= usize::MAX,
        FIRST_MERGE_ID + rounds <= i32::MAX + 1,
    ensures
        ids_after(start, rounds).len() <= start.len(),
        merges_after(start, rounds).len() <= rounds,
        ids_after(start, rounds).len() >= 2 ==> merges_after(start, rounds).len() == rounds,
        ids_below(
            ids_after(start, rounds),
            FIRST_MERGE_ID + merges_after(start, rounds).len(),
        ),
        trained_shape(merges_after(start, rounds)),
        keys_absent(merges_after(start, rounds), ids_after(start, rounds)),
        distinct_keys(merges_after(start, rounds)),
    decreases rounds,
{
    if rounds > 0 {
        let k = (rounds - 1) as nat;
        lemma_training_shape(start, k);
        let prev = ids_after(start, k);
        let entries = merges_after(start, k);
        if prev.len() >= 2 {
            lemma_top_exists(prev);
            let p = best_pair(prev);
            let idx = (FIRST_MERGE_ID + k) as i32;
            lemma_round_keeps_shape(prev, entries, p, idx);
            crate::table::lemma_inserted_distinct(entries, p, idx);
        }
    }
}

/// The merges learned in fewer rounds are the first of the merges learned in
/// more rounds.
pub proof fn lemma_merges_prefix(start: Seq<i32>, fewer: nat, more: nat)
    requires
        fewer <= more,
    ensures
        merges_after(start, fewer).len() <= merges_after(start, more).len(),
        merges_after(start, fewer) == merges_after(start, more).take(
            merges_after(start, fewer).len() as int,
        ),
    decreases more,
{
    let short = merges_after(start, fewer);
    if fewer < more {
        lemma_merges_prefix(start, fewer, (more - 1) as nat);
        let middle = merges_after(start, (more - 1) as nat);
        assert(short =~= merges_after(start, more).take(short.len() as int)) by {
            assert(short == middle.take(short.len() as int));
        }
    } else {
        assert(short =~= short.take(short.len() as int));
    }
}

} // verus!
