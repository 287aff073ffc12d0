//! Applying a merge table to an id sequence, and turning ids back into bytes.

use crate::merge::{lemma_merged_elements, lemma_merged_shorter, merged};
use crate::stats::{lemma_pair_count_positive, occurs_at, stats_of};
use crate::table::{key_index, lemma_key_index, merge_entries, merges_get, value_of};
use crate::training::pair_lt;
use indexmap::IndexMap;
use std::collections::BTreeMap;
use vstd::prelude::*;

verus! {

/// The id that `table` maps `pair` to, if `pair` is one of its keys.
pub open spec fn rank(table: Seq<((i32, i32), i32)>, pair: (i32, i32)) -> Option<i32> {
    value_of(table, pair)
}

/// Whether key `p` of `table` is merged before key `q`, or is `q` itself: the
/// smaller id wins, and of two pairs with the same id the smaller pair.
pub open spec fn ranked_before(table: Seq<((i32, i32), i32)>, p: (i32, i32), q: (i32, i32)) -> bool {
    rank(table, p)->0 < rank(table, q)->0 || (rank(table, p)->0 == rank(table, q)->0 && !pair_lt(
        q,
        p,
    ))
}

/// Whether `p` is the pair of `stats` that is merged first under `table`: it
/// is a key of the table, and no other pair of `stats` that is a key is mapped
/// to a smaller id, or to the same id while being the smaller pair.
pub open spec fn is_first(
    stats: Map<(i32, i32), usize>,
    table: Seq<((i32, i32), i32)>,
    p: (i32, i32),
) -> bool {
    &&& stats.contains_key(p)
    &&& rank(table, p) is Some
    &&& forall|q: (i32, i32)| #[trigger]
        stats.contains_key(q) && rank(table, q) is Some ==> ranked_before(table, p, q)
}

/// At most one pair is merged first.
pub proof fn lemma_first_unique(
    stats: Map<(i32, i32), usize>,
    table: Seq<((i32, i32), i32)>,
    a: (i32, i32),
    b: (i32, i32),
)
    requires
        is_first(stats, table, a),
        is_first(stats, table, b),
    ensures
        a == b,
{
    assert(stats.contains_key(a) && stats.contains_key(b));
}

/// What `next_merge` answers: the pair that is merged first, with its id, or
/// `None` where no pair of `stats` is a key of the table.
pub open spec fn is_next(
    stats: Map<(i32, i32), usize>,
    table: Seq<((i32, i32), i32)>,
    next: Option<((i32, i32), i32)>,
) -> bool {
    match next {
        Some((p, id)) => is_first(stats, table, p) && rank(table, p) == Some(id),
        None => forall|q: (i32, i32)| stats.contains_key(q) ==> rank(table, q) is None,
    }
}

/// Among the pairs of `stats` that are keys of `merges`, the one that is
/// mapped to the smallest id (of two with the same id, the smaller pair), with
/// that id. `None` where no pair of `stats` is a key.
pub fn next_merge(stats: &BTreeMap<(i32, i32), usize>, merges: &IndexMap<(i32, i32), i32>) -> (next:
    Option<((i32, i32), i32)>)
    ensures
        is_next(stats@, merge_entries(*merges), next),
{
    proof {
        crate::order::lemma_pair_keys();
    }
    let ghost table = merge_entries(*merges);
    let mut next: Option<((i32, i32), i32)> = None;
    for kv in it: stats.iter()
        invariant
            table == merge_entries(*merges),
            forall|i: int|
                0 <= i < it.seq().len() ==> stats@.contains_key(*(#[trigger] it.seq()[i]).0),
            forall|k: (i32, i32)| #[trigger]
                stats@.contains_key(k) ==> it.seq().contains((&k, &stats@[k])),
            match next {
                Some((p, id)) => {
                    &&& stats@.contains_key(p)
                    &&& rank(table, p) == Some(id)
                    &&& forall|i: int|
                        0 <= i < it.index() && rank(table, *(#[trigger] it.seq()[i]).0) is Some
                            ==> ranked_before(table, p, *it.seq()[i].0)
                },
                None => forall|i: int|
                    0 <= i < it.index() ==> rank(table, *(#[trigger] it.seq()[i]).0) is None,
            },
            it.index() == it.seq().len() ==> is_next(stats@, table, next),
    {
        let (pair, _count) = kv;
        if let Some(id) = merges_get(merges, *pair) {
            let better = match next {
                Some((p, best)) => id < best || (id == best && (pair.0 < p.0 || (pair.0 == p.0
                    && pair.1 < p.1))),
                None => true,
            };
            if better {
                next = Some((*pair, id));
            }
        }
        assert(it.index() + 1 == it.seq().len() ==> is_next(stats@, table, next)) by {
            assert forall|q: (i32, i32)|
                it.index() + 1 == it.seq().len() && #[trigger] stats@.contains_key(q) && rank(
                    table,
                    q,
                ) is Some implies next is Some && ranked_before(table, (next->0).0, q) by {
                assert(it.seq().contains((&q, &stats@[q])));
                assert(exists|i: int|
                    0 <= i < it.index() + 1 && *(#[trigger] it.seq()[i]).0 == q);
            }
        }
    }
    next
}

/// The pair of `ids` that is merged first under `table`. Meaningful where
/// some pair of `ids` is a key of the table.
pub open spec fn first_pair(ids: Seq<i32>, table: Seq<((i32, i32), i32)>) -> (i32, i32) {
    choose|p: (i32, i32)| is_first(stats_of(ids), table, p)
}

/// Whether some pair of `ids` is a key of `table`.
pub open spec fn mergeable(ids: Seq<i32>, table: Seq<((i32, i32), i32)>) -> bool {
    exists|p: (i32, i32)| is_first(stats_of(ids), table, p)
}

/// The encoding of `ids` under `table`: as long as some pair of the sequence
/// is a key of the table, the one that is mapped to the smallest id is merged
/// into that id.
pub open spec fn encoded(ids: Seq<i32>, table: Seq<((i32, i32), i32)>) -> Seq<i32>
    decreases ids.len(),
{
    if mergeable(ids, table) {
        let p = first_pair(ids, table);
        let next = merged(ids, p, rank(table, p)->0);
        if next.len() < ids.len() {
            encoded(next, table)
        } else {
            ids
        }
    } else {
        ids
    }
}

/// The merges that encoding applies to `ids` under `table`, each with its
/// pair and its id, in the order applied.
pub open spec fn applied(ids: Seq<i32>, table: Seq<((i32, i32), i32)>) -> Seq<((i32, i32), i32)>
    decreases ids.len(),
{
    if mergeable(ids, table) {
        let p = first_pair(ids, table);
        let next = merged(ids, p, rank(table, p)->0);
        if next.len() < ids.len() {
            seq![(p, rank(table, p)->0)] + applied(next, table)
        } else {
            Seq::empty()
        }
    } else {
        Seq::empty()
    }
}

/// One step of encoding: merging the pair that is merged first leaves the
/// encoding as it is, and makes the sequence shorter.
pub proof fn lemma_encoded_step(ids: Seq<i32>, table: Seq<((i32, i32), i32)>, p: (i32, i32), id: i32)
    requires
        is_next(stats_of(ids), table, Some((p, id))),
    ensures
        merged(ids, p, id).len() < ids.len(),
        encoded(ids, table) == encoded(merged(ids, p, id), table),
        applied(ids, table) == seq![(p, id)] + applied(merged(ids, p, id), table),
{
    lemma_first_unique(stats_of(ids), table, p, first_pair(ids, table));
    lemma_pair_count_positive(ids, p);
    let at = choose|i: int| occurs_at(ids, p, i);
    lemma_merged_shorter(ids, p, id, at);
}

/// Where no pair of the sequence is a key of the table, the sequence is its
/// own encoding.
pub proof fn lemma_encoded_done(ids: Seq<i32>, table: Seq<((i32, i32), i32)>)
    requires
        is_next(stats_of(ids), table, None),
    ensures
        encoded(ids, table) == ids,
        applied(ids, table) == Seq::<((i32, i32), i32)>::empty(),
{
    if mergeable(ids, table) {
        let p = first_pair(ids, table);
        assert(stats_of(ids).contains_key(p));
    }
}

/// An encoding holds no pair that is a key of the table: no merge is left to
/// apply.
pub proof fn lemma_encoded_final(ids: Seq<i32>, table: Seq<((i32, i32), i32)>)
    ensures
        !mergeable(encoded(ids, table), table),
    decreases ids.len(),
{
    if mergeable(ids, table) {
        let p = first_pair(ids, table);
        lemma_encoded_step(ids, table, p, rank(table, p)->0);
        lemma_encoded_final(merged(ids, p, rank(table, p)->0), table);
    }
}

/// Whether `id` is an id that an encoding of raw bytes can hold: a raw byte,
/// or the id of a merge of the table.
pub open spec fn is_token(table: Seq<((i32, i32), i32)>, id: i32) -> bool {
    0 <= id < 256 || exists|k: int| 0 <= k < table.len() && (#[trigger] table[k]).1 == id
}

/// Encoding brings in no ids but those of the table.
pub proof fn lemma_encoded_tokens(ids: Seq<i32>, table: Seq<((i32, i32), i32)>)
    requires
        forall|j: int| 0 <= j < ids.len() ==> is_token(table, #[trigger] ids[j]),
    ensures
        forall|j: int|
            0 <= j < encoded(ids, table).len() ==> is_token(
                table,
                #[trigger] encoded(ids, table)[j],
            ),
    decreases ids.len(),
{
    if mergeable(ids, table) {
        let p = first_pair(ids, table);
        let id = rank(table, p)->0;
        let next = merged(ids, p, id);
        if next.len() < ids.len() {
            lemma_merged_elements(ids, p, id);
            lemma_key_index(table, p);
            let k = key_index(table, p)->0;
            assert(table[k].1 == id);
            assert(is_token(table, id));
            assert forall|j: int| 0 <= j < next.len() implies is_token(table, #[trigger] next[j]) by {
                if next[j] != id {
                    let i = choose|i: int| 0 <= i < ids.len() && ids[i] == next[j];
                    assert(is_token(table, ids[i]));
                }
            }
            lemma_encoded_tokens(next, table);
            assert(encoded(ids, table) == encoded(next, table));
        } else {
            assert(encoded(ids, table) == ids);
        }
    } else {
        assert(encoded(ids, table) == ids);
    }
}

/// The ids of raw bytes: each byte widened to a token id.
pub open spec fn byte_ids(bytes: Seq<u8>) -> Seq<i32> {
    Seq::new(bytes.len(), |i: int| bytes[i] as i32)
}

/// Widens each byte to a token id.
pub fn ids_of_bytes(bytes: &[u8]) -> (ids: Vec<i32>)
    ensures
        ids@ == byte_ids(bytes@),
{
    let mut ids: Vec<i32> = Vec::with_capacity(bytes.len());
    let mut k: usize = 0;
    while k < bytes.len()
        invariant
            k <= bytes.len(),
            ids@ == byte_ids(bytes@.take(k as int)),
        decreases bytes.len() - k,
    {
        ids.push(bytes[k] as i32);
        k += 1;
        assert(ids@ =~= byte_ids(bytes@.take(k as int)));
    }
    assert(bytes@.take(bytes.len() as int) == bytes@);
    ids
}

/// The bytes that `ids` stand for under `vocab`: the byte strings of the ids,
/// one after the other.
pub open spec fn expanded(ids: Seq<i32>, vocab: Map<i32, Seq<u8>>) -> Seq<u8>
    decreases ids.len(),
{
    if ids.len() == 0 {
        Seq::empty()
    } else {
        expanded(ids.drop_last(), vocab) + vocab[ids.last()]
    }
}

/// The bytes of a sequence in two parts are the bytes of the first part and
/// then those of the second.
pub proof fn lemma_expanded_concat(a: Seq<i32>, b: Seq<i32>, vocab: Map<i32, Seq<u8>>)
    ensures
        expanded(a + b, vocab) == expanded(a, vocab) + expanded(b, vocab),
    decreases b.len(),
{
    if b.len() == 0 {
        assert(a + b == a);
    } else {
        lemma_expanded_concat(a, b.drop_last(), vocab);
        assert((a + b).drop_last() == a + b.drop_last());
        assert((a + b).last() == b.last());
    }
}

/// The bytes of a single id are its entry in the vocabulary.
pub proof fn lemma_expanded_one(id: i32, vocab: Map<i32, Seq<u8>>)
    ensures
        expanded(seq![id], vocab) == vocab[id],
{
    assert(seq![id].drop_last() =~= Seq::<i32>::empty());
    assert(seq![id].last() == id);
    assert(expanded(seq![id].drop_last(), vocab) =~= Seq::<u8>::empty());
    assert(expanded(seq![id], vocab) =~= vocab[id]);
}

/// Whether `vocab` gives every merge of `table` the bytes of its two halves.
pub open spec fn respects(vocab: Map<i32, Seq<u8>>, table: Seq<((i32, i32), i32)>) -> bool {
    forall|k: int|
        0 <= k < table.len() ==> vocab[(#[trigger] table[k]).1] == vocab[table[k].0.0]
            + vocab[table[k].0.1]
}

/// Merging a pair into an id that stands for the bytes of the pair leaves the
/// bytes of the sequence as they are.
pub proof fn lemma_expanded_merged(
    ids: Seq<i32>,
    pair: (i32, i32),
    idx: i32,
    vocab: Map<i32, Seq<u8>>,
)
    requires
        vocab[idx] == vocab[pair.0] + vocab[pair.1],
    ensures
        expanded(merged(ids, pair, idx), vocab) == expanded(ids, vocab),
    decreases ids.len(),
{
    if ids.len() == 0 {
    } else if ids.len() >= 2 && ids[0] == pair.0 && ids[1] == pair.1 {
        let rest = ids.skip(2);
        lemma_expanded_merged(rest, pair, idx, vocab);
        lemma_expanded_concat(seq![idx], merged(rest, pair, idx), vocab);
        lemma_expanded_concat(seq![pair.0], seq![pair.1], vocab);
        lemma_expanded_concat(seq![pair.0] + seq![pair.1], rest, vocab);
        lemma_expanded_one(idx, vocab);
        lemma_expanded_one(pair.0, vocab);
        lemma_expanded_one(pair.1, vocab);
        assert(ids =~= seq![pair.0] + seq![pair.1] + rest);
    } else {
        let rest = ids.skip(1);
        lemma_expanded_merged(rest, pair, idx, vocab);
        lemma_expanded_concat(seq![ids[0]], merged(rest, pair, idx), vocab);
        lemma_expanded_concat(seq![ids[0]], rest, vocab);
        assert(ids =~= seq![ids[0]] + rest);
    }
}

/// Encoding leaves the bytes of a sequence as they are, under a vocabulary
/// that gives every merge the bytes of its halves.
pub proof fn lemma_encoded_expands(
    ids: Seq<i32>,
    table: Seq<((i32, i32), i32)>,
    vocab: Map<i32, Seq<u8>>,
)
    requires
        respects(vocab, table),
    ensures
        expanded(encoded(ids, table), vocab) == expanded(ids, vocab),
    decreases ids.len(),
{
    if mergeable(ids, table) {
        let p = first_pair(ids, table);
        let id = rank(table, p)->0;
        let next = merged(ids, p, id);
        if next.len() < ids.len() {
            lemma_key_index(table, p);
            let k = key_index(table, p)->0;
            assert(table[k].0 == p && table[k].1 == id);
            lemma_expanded_merged(ids, p, id, vocab);
            lemma_encoded_expands(next, table, vocab);
        }
    }
}

/// The ids of raw bytes stand for those bytes, under a vocabulary in which
/// each raw byte stands for itself.
pub proof fn lemma_expanded_bytes(bytes: Seq<u8>, vocab: Map<i32, Seq<u8>>)
    requires
        forall|id: i32| 0 <= id < 256 ==> #[trigger] vocab[id] == seq![id as u8],
    ensures
        expanded(byte_ids(bytes), vocab) == bytes,
    decreases bytes.len(),
{
    if bytes.len() > 0 {
        lemma_expanded_bytes(bytes.drop_last(), vocab);
        assert(byte_ids(bytes).drop_last() =~= byte_ids(bytes.drop_last()));
        let id = bytes.last() as i32;
        assert(byte_ids(bytes).last() == id);
        assert(vocab[id] == seq![id as u8]);
        assert(expanded(byte_ids(bytes), vocab) =~= bytes);
    }
}

/// The position of the first id of `ids` that has no entry in `vocab`, or the
/// length of `ids` where every id has one.
pub open spec fn known_prefix(ids: Seq<i32>, vocab: Map<i32, Seq<u8>>) -> int
    decreases ids.len(),
{
    if ids.len() == 0 {
        0
    } else {
        let before = known_prefix(ids.drop_last(), vocab);
        if before == ids.len() - 1 && vocab.contains_key(ids.last()) {
            before + 1
        } else {
            before
        }
    }
}

/// Whether every id of `ids` has an entry in `vocab`.
pub open spec fn all_known(ids: Seq<i32>, vocab: Map<i32, Seq<u8>>) -> bool {
    forall|j: int| 0 <= j < ids.len() ==> vocab.contains_key(#[trigger] ids[j])
}

/// What `known_prefix` is: every id before it has an entry, and the id at it,
/// if there is one, has none.
pub proof fn lemma_known_prefix(ids: Seq<i32>, vocab: Map<i32, Seq<u8>>)
    ensures
        0 <= known_prefix(ids, vocab) <= ids.len(),
        all_known(ids.take(known_prefix(ids, vocab)), vocab),
        known_prefix(ids, vocab) < ids.len() ==> !vocab.contains_key(
            ids[known_prefix(ids, vocab)],
        ),
        known_prefix(ids, vocab) == ids.len() <==> all_known(ids, vocab),
    decreases ids.len(),
{
    if ids.len() > 0 {
        let front = ids.drop_last();
        lemma_known_prefix(front, vocab);
        let k = known_prefix(ids, vocab);
        assert(ids.take(k) =~= front.take(k) || k == ids.len());
        if k == ids.len() {
            assert(ids.take(k) == ids);
            assert(front.take(k - 1) == front);
            assert forall|j: int| 0 <= j < ids.len() implies vocab.contains_key(
                #[trigger] ids[j],
            ) by {
                if j < ids.len() - 1 {
                    assert(front[j] == ids[j]);
                }
            }
        } else {
            if all_known(ids, vocab) {
                assert forall|j: int| 0 <= j < front.len() implies vocab.contains_key(
                    #[trigger] front[j],
                ) by {
                    assert(front[j] == ids[j]);
                }
                assert(vocab.contains_key(ids[ids.len() - 1]));
            }
            if k < front.len() {
                assert(front[k] == ids[k]);
            }
        }
    }
}

} // verus!
