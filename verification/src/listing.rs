//! The vocabulary listing: one line for each id of the vocabulary, for people
//! to read.

use crate::layout::{is_line, joined, lemma_lines_joined, lines};
use crate::number::{decimal, lemma_decimal_chars, push_decimal};
use crate::order::{lemma_id_keys, lemma_increasing_ids};
use crate::render::{lemma_escaped_visible, render_token, rendered};
use crate::table::{merge_entries, merges_get_index, merges_len};
use crate::text::{chars_of, string_of};
use crate::vocab::vocab_bytes;
use indexmap::IndexMap;
use std::collections::BTreeMap;
use vstd::prelude::*;
use vstd::std_specs::iter::IteratorSpec;

verus! {

/// The pair behind each merge id of a table. Where two entries have the same
/// id, the later one counts.
pub open spec fn parents_of(table: Seq<((i32, i32), i32)>) -> Map<i32, (i32, i32)>
    decreases table.len(),
{
    if table.len() == 0 {
        Map::empty()
    } else {
        parents_of(table.drop_last()).insert(table.last().1, table.last().0)
    }
}

/// Whether the listing shows `id` as a merge: the id has a pair behind it,
/// and both halves of the pair are in the vocabulary.
pub open spec fn shown_as_merge(
    vocab: Map<i32, Seq<u8>>,
    parents: Map<i32, (i32, i32)>,
    id: i32,
) -> bool {
    parents.contains_key(id) && vocab.contains_key(parents[id].0) && vocab.contains_key(
        parents[id].1,
    )
}

/// The line of `id` in the listing. A merge is shown as
/// `[left][right] -> [token] id`, any other id as `[token] id`, each token
/// in its rendering.
pub open spec fn vocab_line(
    vocab: Map<i32, Seq<u8>>,
    parents: Map<i32, (i32, i32)>,
    id: i32,
) -> Seq<char> {
    let tail = seq!['['] + rendered(vocab[id]) + seq![']', ' '] + decimal(id as int);
    if shown_as_merge(vocab, parents, id) {
        seq!['['] + rendered(vocab[parents[id].0]) + seq![']', '['] + rendered(
            vocab[parents[id].1],
        ) + seq![']', ' ', '-', '>', ' '] + tail
    } else {
        tail
    }
}

/// The lines of the ids of `vocab` that are below `upto`, from the smallest
/// id to the largest.
pub open spec fn vocab_lines(
    vocab: Map<i32, Seq<u8>>,
    parents: Map<i32, (i32, i32)>,
    upto: int,
) -> Seq<Seq<char>>
    decreases upto - i32::MIN,
{
    if upto <= i32::MIN {
        Seq::empty()
    } else {
        let before = vocab_lines(vocab, parents, upto - 1);
        if vocab.contains_key((upto - 1) as i32) {
            before.push(vocab_line(vocab, parents, (upto - 1) as i32))
        } else {
            before
        }
    }
}

/// The listing of a vocabulary under a merge table: one line for each of its
/// ids, from the smallest id to the largest, each ended by a line feed.
pub open spec fn vocab_text(vocab: Map<i32, Seq<u8>>, table: Seq<((i32, i32), i32)>) -> Seq<char> {
    joined(vocab_lines(vocab, parents_of(table), i32::MAX + 1))
}

/// Ids that are not in the vocabulary add nothing to the listing.
pub proof fn lemma_lines_gap(
    vocab: Map<i32, Seq<u8>>,
    parents: Map<i32, (i32, i32)>,
    lo: int,
    hi: int,
)
    requires
        i32::MIN <= lo <= hi <= i32::MAX + 1,
        forall|k: i32| lo <= k < hi ==> !vocab.contains_key(k),
    ensures
        vocab_lines(vocab, parents, hi) == vocab_lines(vocab, parents, lo),
    decreases hi - lo,
{
    if lo < hi {
        lemma_lines_gap(vocab, parents, lo, hi - 1);
        assert(!vocab.contains_key((hi - 1) as i32));
    }
}

/// The line of an id holds no line feed and does not end in a carriage
/// return: it is one line of the listing.
pub proof fn lemma_vocab_line(vocab: Map<i32, Seq<u8>>, parents: Map<i32, (i32, i32)>, id: i32)
    ensures
        is_line(vocab_line(vocab, parents, id)),
{
    let token = rendered(vocab[id]);
    let number = decimal(id as int);
    let tail = seq!['['] + token + seq![']', ' '] + number;
    lemma_escaped_visible(crate::text::text_of(vocab[id]));
    lemma_decimal_chars(id as int);
    assert forall|i: int| 0 <= i < tail.len() implies #[trigger] tail[i] != '\n' by {
        if 1 <= i < 1 + token.len() {
            assert(tail[i] == token[i - 1]);
        } else if i >= 3 + token.len() {
            assert(tail[i] == number[i - 3 - token.len()]);
            assert(crate::number::is_digit(number[i - 3 - token.len()]) || number[i - 3
                - token.len()] == '-');
        }
    }
    assert(tail.last() == number.last());
    if shown_as_merge(vocab, parents, id) {
        let left = rendered(vocab[parents[id].0]);
        let right = rendered(vocab[parents[id].1]);
        lemma_escaped_visible(crate::text::text_of(vocab[parents[id].0]));
        lemma_escaped_visible(crate::text::text_of(vocab[parents[id].1]));
        let head = seq!['['] + left + seq![']', '['] + right + seq![']', ' ', '-', '>', ' '];
        let line = head + tail;
        assert(line == vocab_line(vocab, parents, id));
        assert forall|i: int| 0 <= i < line.len() implies #[trigger] line[i] != '\n' by {
            if i >= head.len() {
                assert(line[i] == tail[i - head.len()]);
            } else if 1 <= i < 1 + left.len() {
                assert(line[i] == left[i - 1]);
            } else if 3 + left.len() <= i < 3 + left.len() + right.len() {
                assert(line[i] == right[i - 3 - left.len()]);
            }
        }
        assert(line.last() == tail.last());
    }
}

/// The listing has one line for each id of the vocabulary: its lines are the
/// lines of the ids, from the smallest id to the largest.
pub proof fn lemma_listing_lines(vocab: Map<i32, Seq<u8>>, table: Seq<((i32, i32), i32)>)
    ensures
        lines(vocab_text(vocab, table)) == vocab_lines(vocab, parents_of(table), i32::MAX + 1),
{
    let parents = parents_of(table);
    let ls = vocab_lines(vocab, parents, i32::MAX + 1);
    lemma_vocab_lines(vocab, parents, i32::MAX + 1);
    lemma_lines_joined(ls);
}

/// Where the ids of the vocabulary are those from 0 up to `count`, `count`
/// left out, the listing has `count` lines, and line `k` is the line of id
/// `k`.
pub proof fn lemma_lines_dense(
    vocab: Map<i32, Seq<u8>>,
    parents: Map<i32, (i32, i32)>,
    count: int,
    upto: int,
)
    requires
        0 <= count <= i32::MAX + 1,
        forall|id: i32| vocab.contains_key(id) <==> 0 <= id < count,
        0 <= upto <= i32::MAX + 1,
    ensures
        vocab_lines(vocab, parents, upto).len() == (if upto <= count {
            upto
        } else {
            count
        }),
        forall|k: int|
            0 <= k < vocab_lines(vocab, parents, upto).len() ==> #[trigger] vocab_lines(
                vocab,
                parents,
                upto,
            )[k] == vocab_line(vocab, parents, k as i32),
    decreases upto,
{
    if upto == 0 {
        lemma_lines_gap(vocab, parents, i32::MIN as int, 0);
    } else {
        lemma_lines_dense(vocab, parents, count, upto - 1);
        let before = vocab_lines(vocab, parents, upto - 1);
        let ls = vocab_lines(vocab, parents, upto);
        assert forall|k: int| 0 <= k < ls.len() implies #[trigger] ls[k] == vocab_line(
            vocab,
            parents,
            k as i32,
        ) by {
            if k < before.len() {
                assert(ls[k] == before[k]);
            }
        }
    }
}

/// Every line of the listing is one line.
proof fn lemma_vocab_lines(vocab: Map<i32, Seq<u8>>, parents: Map<i32, (i32, i32)>, upto: int)
    requires
        upto <= i32::MAX + 1,
    ensures
        forall|k: int|
            0 <= k < vocab_lines(vocab, parents, upto).len() ==> is_line(
                #[trigger] vocab_lines(vocab, parents, upto)[k],
            ),
    decreases upto - i32::MIN,
{
    if upto > i32::MIN {
        let before = vocab_lines(vocab, parents, upto - 1);
        let ls = vocab_lines(vocab, parents, upto);
        lemma_vocab_lines(vocab, parents, upto - 1);
        lemma_vocab_line(vocab, parents, (upto - 1) as i32);
        assert forall|k: int| 0 <= k < ls.len() implies is_line(#[trigger] ls[k]) by {
            if k < before.len() {
                assert(ls[k] == before[k]);
            }
        }
    }
}

/// The pair behind each merge id of `merges`.
pub fn merge_parents(merges: &IndexMap<(i32, i32), i32>) -> (parents: BTreeMap<i32, (i32, i32)>)
    ensures
        parents@ == parents_of(merge_entries(*merges)),
{
    let ghost table = merge_entries(*merges);
    let mut parents: BTreeMap<i32, (i32, i32)> = BTreeMap::new();
    let n = merges_len(merges);
    let mut i: usize = 0;
    while i < n
        invariant
            i <= n == table.len(),
            table == merge_entries(*merges),
            parents@ == parents_of(table.take(i as int)),
        decreases n - i,
    {
        if let Some((pair, idx)) = merges_get_index(merges, i) {
            proof {
                lemma_id_keys();
                assert(table.take(i + 1).drop_last() == table.take(i as int));
            }
            parents.insert(idx, pair);
        }
        i += 1;
    }
    assert(table.take(n as int) == table);
    parents
}

/// Appends the characters `chars` to `out`.
fn push_chars(out: &mut Vec<char>, chars: &[char])
    ensures
        final(out)@ == old(out)@ + chars@,
{
    let mut i: usize = 0;
    while i < chars.len()
        invariant
            i <= chars.len(),
            out@ == old(out)@ + chars@.take(i as int),
        decreases chars.len() - i,
    {
        out.push(chars[i]);
        i += 1;
        assert(out@ =~= old(out)@ + chars@.take(i as int));
    }
    assert(chars@.take(chars.len() as int) == chars@);
}

/// Appends the rendering of `token` to `out`.
fn push_rendered(out: &mut Vec<char>, token: &[u8])
    ensures
        final(out)@ == old(out)@ + rendered(token@),
{
    let shown = render_token(token);
    let chars = chars_of(shown.as_str());
    push_chars(out, chars.as_slice());
}

/// Appends the line of `id` and a line feed to `out`.
fn push_vocab_line(
    out: &mut Vec<char>,
    vocab: &BTreeMap<i32, Vec<u8>>,
    parents: &BTreeMap<i32, (i32, i32)>,
    id: i32,
)
    requires
        vocab@.contains_key(id),
    ensures
        final(out)@ == old(out)@ + vocab_line(vocab_bytes(vocab@), parents@, id) + seq!['\n'],
{
    proof {
        lemma_id_keys();
    }
    let ghost v = vocab_bytes(vocab@);
    if let Some(pair) = parents.get(&id) {
        if let Some(left) = vocab.get(&pair.0) {
            if let Some(right) = vocab.get(&pair.1) {
                out.push('[');
                push_rendered(out, left.as_slice());
                out.push(']');
                out.push('[');
                push_rendered(out, right.as_slice());
                out.push(']');
                out.push(' ');
                out.push('-');
                out.push('>');
                out.push(' ');
            }
        }
    }
    let ghost head = out@;
    if let Some(token) = vocab.get(&id) {
        out.push('[');
        push_rendered(out, token.as_slice());
        out.push(']');
        out.push(' ');
        push_decimal(out, id as i64);
        out.push('\n');
    }
    proof {
        let tail = seq!['['] + rendered(v[id]) + seq![']', ' '] + decimal(id as int);
        assert(out@ =~= head + tail + seq!['\n']);
        if shown_as_merge(v, parents@, id) {
            let pair = parents@[id];
            assert(head =~= old(out)@ + (seq!['['] + rendered(v[pair.0]) + seq![']', '[']
                + rendered(v[pair.1]) + seq![']', ' ', '-', '>', ' ']));
            assert(out@ =~= old(out)@ + vocab_line(v, parents@, id) + seq!['\n']);
        } else {
            assert(head == old(out)@);
        }
    }
}

/// Writes the listing of a vocabulary under a merge table: for each id, from
/// the smallest to the largest, its token, and for a merge its two halves too.
pub fn write_vocab(vocab: &BTreeMap<i32, Vec<u8>>, merges: &IndexMap<(i32, i32), i32>) -> (text:
    String)
    ensures
        text@ == vocab_text(vocab_bytes(vocab@), merge_entries(*merges)),
{
    let parents = merge_parents(merges);
    let ghost v = vocab_bytes(vocab@);
    let ghost keys = vocab.keys().remaining();
    let ghost mut bound: int = i32::MIN as int;
    let mut out: Vec<char> = Vec::new();
    proof {
        lemma_id_keys();
        vstd::std_specs::btree::axiom_spec_keys_iter(vocab);
    }
    for key in it: vocab.keys()
        invariant
            v == vocab_bytes(vocab@),
            keys == vocab.keys().remaining(),
            it.seq() == keys,
            i32::MIN <= bound <= i32::MAX + 1,
            it.index() > 0 ==> bound == *keys[it.index() - 1] + 1,
            it.index() == 0 ==> bound == i32::MIN,
            out@ == joined(vocab_lines(v, parents@, bound)),
    {
        let id = *key;
        proof {
            lemma_keys(vocab);
            lemma_increasing_ids(keys);
            assert(keys[it.index() as int] == key);
            assert(keys.unref().to_set().contains(id)) by {
                assert(keys.unref()[it.index() as int] == id);
            }
            assert forall|k: i32| bound <= k < id implies !v.contains_key(k) by {
                if vocab@.contains_key(k) {
                    assert(keys.unref().to_set().contains(k));
                    let m = choose|m: int| 0 <= m < keys.unref().len() && keys.unref()[m] == k;
                    assert(*keys[m] == k);
                }
            }
            lemma_lines_gap(v, parents@, bound, id as int);
            assert(vocab_lines(v, parents@, id + 1).drop_last() == vocab_lines(
                v,
                parents@,
                id as int,
            ));
            bound = id + 1;
        }
        push_vocab_line(&mut out, vocab, &parents, id);
    }
    proof {
        lemma_keys(vocab);
        lemma_increasing_ids(keys);
        assert forall|k: i32| bound <= k < i32::MAX + 1 implies !v.contains_key(k) by {
            if vocab@.contains_key(k) {
                assert(keys.unref().to_set().contains(k));
                let m = choose|m: int| 0 <= m < keys.unref().len() && keys.unref()[m] == k;
                assert(*keys[m] == k);
            }
        }
        lemma_lines_gap(v, parents@, bound, i32::MAX + 1);
    }
    string_of(out.as_slice())
}

/// The keys that a sorted map hands out are the keys of the map.
proof fn lemma_keys(vocab: &BTreeMap<i32, Vec<u8>>)
    ensures
        vocab.keys().remaining().unref().to_set() == vocab@.dom(),
{
    vstd::std_specs::btree::axiom_spec_keys_iter(vocab);
}

} // verus!
