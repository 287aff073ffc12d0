//! The vocabulary: the byte string that each token id stands for.
//!
//! A vocabulary is determined by a merge table and a special-token table: the
//! 256 single bytes, then one entry per merge in table order, then the special
//! tokens laid over the result.

use crate::order::lemma_id_keys;
use crate::table::{merge_entries, merges_get_index, merges_len};
use crate::table::{special_entries, specials_get_index, specials_len};
use indexmap::IndexMap;
use std::collections::BTreeMap;
use vstd::prelude::*;
use vstd::utf8::encode_utf8;

verus! {

/// The byte strings held by a vocabulary map.
pub open spec fn vocab_bytes(v: Map<i32, Vec<u8>>) -> Map<i32, Seq<u8>> {
    Map::new(|id: i32| v.contains_key(id), |id: i32| v[id]@)
}

/// The raw bytes below `n`: id `b` stands for the single byte `b`.
pub open spec fn bytes_below(n: int) -> Map<i32, Seq<u8>> {
    Map::new(|id: i32| 0 <= id < n, |id: i32| seq![id as u8])
}

/// The vocabulary of the raw bytes: id `b` stands for the single byte `b`.
pub open spec fn base_vocab() -> Map<i32, Seq<u8>> {
    bytes_below(256)
}

/// Whether both halves of `pair` have an entry in `v`.
pub open spec fn parents_known(v: Map<i32, Seq<u8>>, pair: (i32, i32)) -> bool {
    v.contains_key(pair.0) && v.contains_key(pair.1)
}

/// The vocabulary after one merge: `idx` stands for the bytes of the two
/// halves of `pair`, one after the other. A merge with an unknown half leaves
/// the vocabulary as it is.
pub open spec fn extend_vocab(v: Map<i32, Seq<u8>>, pair: (i32, i32), idx: i32) -> Map<
    i32,
    Seq<u8>,
> {
    if parents_known(v, pair) {
        v.insert(idx, v[pair.0] + v[pair.1])
    } else {
        v
    }
}

/// The vocabulary after the merges `entries`, applied in order to `v`.
pub open spec fn with_merges(v: Map<i32, Seq<u8>>, entries: Seq<((i32, i32), i32)>) -> Map<
    i32,
    Seq<u8>,
>
    decreases entries.len(),
{
    if entries.len() == 0 {
        v
    } else {
        extend_vocab(with_merges(v, entries.drop_last()), entries.last().0, entries.last().1)
    }
}

/// The merges of `entries` that are left out of the vocabulary because one of
/// their halves is unknown at their turn, in table order.
pub open spec fn skipped_merges(v: Map<i32, Seq<u8>>, entries: Seq<((i32, i32), i32)>) -> Seq<
    (i32, i32),
>
    decreases entries.len(),
{
    if entries.len() == 0 {
        Seq::empty()
    } else {
        let before = skipped_merges(v, entries.drop_last());
        if parents_known(with_merges(v, entries.drop_last()), entries.last().0) {
            before
        } else {
            before.push(entries.last().0)
        }
    }
}

/// The vocabulary after the special tokens `specials` are laid over `v`, in
/// order: each token's id stands for the token's UTF-8 bytes.
pub open spec fn with_specials(v: Map<i32, Seq<u8>>, specials: Seq<(Seq<char>, i32)>) -> Map<
    i32,
    Seq<u8>,
>
    decreases specials.len(),
{
    if specials.len() == 0 {
        v
    } else {
        with_specials(v, specials.drop_last()).insert(
            specials.last().1,
            encode_utf8(specials.last().0),
        )
    }
}

/// The vocabulary that a merge table and a special-token table determine.
pub open spec fn vocab_of(merges: Seq<((i32, i32), i32)>, specials: Seq<(Seq<char>, i32)>) -> Map<
    i32,
    Seq<u8>,
> {
    with_specials(with_merges(base_vocab(), merges), specials)
}

/// Whether no special token has the id of a raw byte or of one of the first
/// `count` merges.
pub open spec fn specials_apart(specials: Seq<(Seq<char>, i32)>, count: nat) -> bool {
    forall|i: int| 0 <= i < specials.len() ==> !(0 <= (#[trigger] specials[i]).1 < 256 + count)
}

/// Whether a merge table has the shape that training gives it: the entry at
/// position `k` has the id `256 + k`, and its halves are raw bytes or ids of
/// earlier entries.
pub open spec fn trained_shape(entries: Seq<((i32, i32), i32)>) -> bool {
    forall|k: int|
        0 <= k < entries.len() ==> {
            &&& (#[trigger] entries[k]).1 == 256 + k
            &&& 0 <= entries[k].0.0 < 256 + k
            &&& 0 <= entries[k].0.1 < 256 + k
        }
}

/// The vocabulary of a table of trained shape, before special tokens: it
/// holds the ids from 0 to the last merge id, every raw byte stands for
/// itself, and every merge id stands for the bytes of its two halves.
pub proof fn lemma_merges_vocab(entries: Seq<((i32, i32), i32)>)
    requires
        trained_shape(entries),
    ensures
        forall|id: i32| #[trigger]
            with_merges(base_vocab(), entries).contains_key(id) <==> 0 <= id < 256 + entries.len(),
        forall|id: i32|
            0 <= id < 256 ==> #[trigger] with_merges(base_vocab(), entries)[id] == seq![id as u8],
        forall|k: int|
            0 <= k < entries.len() ==> with_merges(base_vocab(), entries)[(
            #[trigger] entries[k]).1] == with_merges(base_vocab(), entries)[entries[k].0.0]
                + with_merges(base_vocab(), entries)[entries[k].0.1],
    decreases entries.len(),
{
    let w = with_merges(base_vocab(), entries);
    if entries.len() == 0 {
        assert forall|id: i32| #[trigger] w.contains_key(id) <==> 0 <= id < 256 by {}
    } else {
        let front = entries.drop_last();
        let e = entries.last();
        let n = front.len() as int;
        assert forall|k: int| 0 <= k < front.len() implies {
            &&& (#[trigger] front[k]).1 == 256 + k
            &&& 0 <= front[k].0.0 < 256 + k
            &&& 0 <= front[k].0.1 < 256 + k
        } by {
            assert(front[k] == entries[k]);
        }
        lemma_merges_vocab(front);
        let wf = with_merges(base_vocab(), front);
        assert(e == entries[n]);
        assert(wf.contains_key(e.0.0) && wf.contains_key(e.0.1));
        assert(w == wf.insert(e.1, wf[e.0.0] + wf[e.0.1]));
        assert forall|id: i32| #[trigger] w.contains_key(id) <==> 0 <= id < 256 + entries.len() by {
            assert(wf.contains_key(id) <==> 0 <= id < 256 + n);
        }
        assert forall|k: int| 0 <= k < entries.len() implies w[(#[trigger] entries[k]).1]
            == w[entries[k].0.0] + w[entries[k].0.1] by {
            if k < n {
                assert(front[k] == entries[k]);
                assert(wf[front[k].1] == wf[front[k].0.0] + wf[front[k].0.1]);
            }
        }
    }
}

/// Special tokens leave every id that none of them has as it is.
pub proof fn lemma_specials_keep(v: Map<i32, Seq<u8>>, specials: Seq<(Seq<char>, i32)>, id: i32)
    requires
        forall|i: int| 0 <= i < specials.len() ==> (#[trigger] specials[i]).1 != id,
    ensures
        with_specials(v, specials).contains_key(id) <==> v.contains_key(id),
        with_specials(v, specials)[id] == v[id],
    decreases specials.len(),
{
    if specials.len() > 0 {
        let front = specials.drop_last();
        assert forall|i: int| 0 <= i < front.len() implies (#[trigger] front[i]).1 != id by {
            assert(front[i] == specials[i]);
        }
        lemma_specials_keep(v, front, id);
        assert(specials[specials.len() - 1].1 != id);
    }
}

/// The vocabulary of a table of trained shape whose ids no special token
/// has: it holds every id from 0 to the last merge id, every raw byte stands
/// for itself, and every merge id stands for the bytes of its two halves.
pub proof fn lemma_trained_vocab(entries: Seq<((i32, i32), i32)>, specials: Seq<(Seq<char>, i32)>)
    requires
        trained_shape(entries),
        specials_apart(specials, entries.len()),
    ensures
        forall|id: i32|
            0 <= id < 256 + entries.len() ==> #[trigger] vocab_of(entries, specials).contains_key(
                id,
            ),
        forall|id: i32|
            0 <= id < 256 ==> #[trigger] vocab_of(entries, specials)[id] == seq![id as u8],
        forall|k: int|
            0 <= k < entries.len() ==> vocab_of(entries, specials)[(#[trigger] entries[k]).1]
                == vocab_of(entries, specials)[entries[k].0.0] + vocab_of(
                entries,
                specials,
            )[entries[k].0.1],
{
    let w = with_merges(base_vocab(), entries);
    let v = vocab_of(entries, specials);
    lemma_merges_vocab(entries);
    assert forall|id: i32| 0 <= id < 256 + entries.len() implies #[trigger] v.contains_key(id) by {
        lemma_specials_keep(w, specials, id);
        assert(w.contains_key(id));
    }
    assert forall|id: i32| 0 <= id < 256 + entries.len() implies #[trigger] v[id] == w[id] by {
        lemma_specials_keep(w, specials, id);
    }
    assert forall|k: int| 0 <= k < entries.len() implies v[(#[trigger] entries[k]).1]
        == v[entries[k].0.0] + v[entries[k].0.1] by {
        let e = entries[k];
        assert(v[e.1] == w[e.1]);
        assert(v[e.0.0] == w[e.0.0]);
        assert(v[e.0.1] == w[e.0.1]);
    }
    assert forall|id: i32| 0 <= id < 256 implies #[trigger] v[id] == seq![id as u8] by {
        assert(v[id] == w[id]);
    }
}

/// The vocabulary of the 256 raw bytes.
pub fn base_vocabulary() -> (vocab: BTreeMap<i32, Vec<u8>>)
    ensures
        vocab_bytes(vocab@) == base_vocab(),
{
    let mut vocab: BTreeMap<i32, Vec<u8>> = BTreeMap::new();
    let mut id: i32 = 0;
    assert(vocab_bytes(vocab@) =~= bytes_below(0));
    while id < 256
        invariant
            0 <= id <= 256,
            vocab_bytes(vocab@) == bytes_below(id as int),
        decreases 256 - id,
    {
        let mut bytes: Vec<u8> = Vec::new();
        bytes.push(id as u8);
        proof {
            lemma_id_keys();
            assert(bytes@ =~= seq![id as u8]);
        }
        let ghost prev = vocab@;
        vocab.insert(id, bytes);
        proof {
            assert forall|k: i32| #[trigger] vocab@.contains_key(k) implies 0 <= k <= id by {
                if k != id {
                    assert(vocab_bytes(prev).contains_key(k));
                    assert(bytes_below(id as int).contains_key(k));
                }
            }
            assert forall|k: i32| #[trigger]
                bytes_below(id + 1).contains_key(k) implies vocab@.contains_key(k) && vocab@[k]@
                == seq![k as u8] by {
                if k < id {
                    assert(bytes_below(id as int).contains_key(k));
                    assert(vocab_bytes(prev).contains_key(k));
                    assert(vocab_bytes(prev)[k] == bytes_below(id as int)[k]);
                }
            }
            assert(vocab_bytes(vocab@) =~= bytes_below(id + 1));
        }
        id += 1;
    }
    vocab
}

/// Adds the merge `pair -> idx` to `vocab`. The result tells whether both
/// halves were known; where one is not, `vocab` stays as it is.
pub fn extend_vocabulary(vocab: &mut BTreeMap<i32, Vec<u8>>, pair: (i32, i32), idx: i32) -> (added:
    bool)
    ensures
        added == parents_known(vocab_bytes(old(vocab)@), pair),
        vocab_bytes(final(vocab)@) == extend_vocab(vocab_bytes(old(vocab)@), pair, idx),
{
    proof {
        lemma_id_keys();
    }
    let ghost before = vocab_bytes(vocab@);
    let mut token: Vec<u8> = Vec::new();
    match vocab.get(&pair.0) {
        Some(left) => {
            token.extend_from_slice(left.as_slice());
        },
        None => {
            return false;
        },
    }
    match vocab.get(&pair.1) {
        Some(right) => {
            token.extend_from_slice(right.as_slice());
        },
        None => {
            return false;
        },
    }
    assert(token@ =~= before[pair.0] + before[pair.1]);
    vocab.insert(idx, token);
    assert(vocab_bytes(vocab@) =~= extend_vocab(before, pair, idx));
    true
}

/// Lays the special tokens over `vocab`: each token's id then stands for the
/// token's UTF-8 bytes.
pub fn overlay_specials(vocab: &mut BTreeMap<i32, Vec<u8>>, special_tokens: &IndexMap<String, i32>)
    ensures
        vocab_bytes(final(vocab)@) == with_specials(
            vocab_bytes(old(vocab)@),
            special_entries(*special_tokens),
        ),
{
    let ghost specials = special_entries(*special_tokens);
    let ghost start = vocab_bytes(vocab@);
    let n = specials_len(special_tokens);
    let mut i: usize = 0;
    while i < n
        invariant
            i <= n == specials.len(),
            specials == special_entries(*special_tokens),
            vocab_bytes(vocab@) == with_specials(start, specials.take(i as int)),
        decreases n - i,
    {
        if let Some((token, idx)) = specials_get_index(special_tokens, i) {
            let bytes = vstd::slice::slice_to_vec(token.as_str().as_bytes());
            proof {
                lemma_id_keys();
                assert(specials.take(i + 1).drop_last() == specials.take(i as int));
            }
            vocab.insert(idx, bytes);
        }
        i += 1;
    }
    assert(specials.take(n as int) == specials);
}

/// Builds the vocabulary of a merge table and a special-token table, and
/// reports the merges that had to be left out because one of their halves was
/// unknown at their turn.
pub fn build_vocab_report(
    merges: &IndexMap<(i32, i32), i32>,
    special_tokens: &IndexMap<String, i32>,
) -> (r: (BTreeMap<i32, Vec<u8>>, Vec<(i32, i32)>))
    ensures
        vocab_bytes(r.0@) == vocab_of(merge_entries(*merges), special_entries(*special_tokens)),
        r.1@ == skipped_merges(base_vocab(), merge_entries(*merges)),
{
    let ghost entries = merge_entries(*merges);
    let mut vocab = base_vocabulary();
    let mut skipped: Vec<(i32, i32)> = Vec::new();
    let n = merges_len(merges);
    let mut i: usize = 0;
    while i < n
        invariant
            i <= n == entries.len(),
            entries == merge_entries(*merges),
            vocab_bytes(vocab@) == with_merges(base_vocab(), entries.take(i as int)),
            skipped@ == skipped_merges(base_vocab(), entries.take(i as int)),
        decreases n - i,
    {
        if let Some((pair, idx)) = merges_get_index(merges, i) {
            proof {
                assert(entries.take(i + 1).drop_last() == entries.take(i as int));
            }
            let added = extend_vocabulary(&mut vocab, pair, idx);
            if !added {
                skipped.push(pair);
            }
        }
        i += 1;
    }
    assert(entries.take(n as int) == entries);
    overlay_specials(&mut vocab, special_tokens);
    (vocab, skipped)
}

/// Builds the vocabulary of a merge table and a special-token table: the raw
/// bytes, then each merge in table order (one with an unknown half is left
/// out), then the special tokens.
pub fn build_vocab(merges: &IndexMap<(i32, i32), i32>, special_tokens: &IndexMap<String, i32>) -> (vocab:
    BTreeMap<i32, Vec<u8>>)
    ensures
        vocab_bytes(vocab@) == vocab_of(merge_entries(*merges), special_entries(*special_tokens)),
{
    build_vocab_report(merges, special_tokens).0
}

} // verus!
