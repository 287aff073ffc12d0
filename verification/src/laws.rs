//! What holds of the tokenizer as a whole: laws that relate its operations.

use crate::bpe::BPETokenizer;
use crate::encoding::{all_known, byte_ids, encoded, expanded, is_next, is_token, mergeable};
use crate::encoding::{lemma_encoded_done, lemma_encoded_expands, lemma_encoded_step};
use crate::encoding::{lemma_encoded_tokens, lemma_expanded_bytes, lemma_expanded_one};
use crate::encoding::{lemma_known_prefix, rank, ranked_before, respects};
use crate::error::BpeError;
use crate::layout::lines;
use crate::listing::{lemma_lines_dense, lemma_listing_lines, parents_of};
use crate::listing::{vocab_line, vocab_lines, vocab_text};
use crate::model::{lemma_model_round_trip, model_text, renumbered};
use crate::stats::{pair_count, stats_of};
use crate::table::{key_index, lemma_key_index};
use crate::text::text_of;
use crate::training::{best_pair, ids_after, ids_below, keys_absent, merges_after};
use crate::training::{lemma_merges_prefix, lemma_top_exists, lemma_training_shape};
use crate::training::{lemma_training_stops, rounds_for};
use crate::vocab::{lemma_merges_vocab, lemma_trained_vocab, specials_apart, trained_shape};
use crate::vocab::{vocab_bytes, vocab_of};
use vstd::prelude::*;
use vstd::utf8::{encode_utf8, encode_utf8_decode_utf8, encode_utf8_valid_utf8};
use vstd::utf8::{is_ascii_chars, is_ascii_chars_encode_utf8};

verus! {

/// Under a tokenizer whose merge table has the shape that training gives it,
/// and whose special tokens have none of the ids of the raw bytes and the
/// merges, the encoding of a text stands for the UTF-8 bytes of the text, and
/// every id of it is in the vocabulary.
pub proof fn lemma_encoding_stands_for_text(tok: BPETokenizer, text: Seq<char>)
    requires
        tok.wf(),
        trained_shape(tok.merges_view()),
        specials_apart(tok.specials_view(), tok.merges_view().len()),
    ensures
        all_known(encoded(byte_ids(encode_utf8(text)), tok.merges_view()), tok.vocab_view()),
        expanded(encoded(byte_ids(encode_utf8(text)), tok.merges_view()), tok.vocab_view())
            == encode_utf8(text),
{
    let table = tok.merges_view();
    let vocab = tok.vocab_view();
    let bytes = encode_utf8(text);
    let start = byte_ids(bytes);
    let ids = encoded(start, table);
    lemma_trained_vocab(table, tok.specials_view());
    assert(respects(vocab, table));
    lemma_encoded_expands(start, table, vocab);
    lemma_expanded_bytes(bytes, vocab);
    assert forall|j: int| 0 <= j < start.len() implies is_token(table, #[trigger] start[j]) by {}
    lemma_encoded_tokens(start, table);
    assert forall|j: int| 0 <= j < ids.len() implies vocab.contains_key(#[trigger] ids[j]) by {
        assert(is_token(table, ids[j]));
        if !(0 <= ids[j] < 256) {
            let k = choose|k: int| 0 <= k < table.len() && (#[trigger] table[k]).1 == ids[j];
            assert(table[k].1 == 256 + k);
        }
    }
}

/// Decoding the encoding of a text gives the text back, under a tokenizer
/// whose merge table has the shape that training gives it and whose special
/// tokens have none of the ids of the raw bytes and the merges. Here `ids` is
/// what `encode` returns for the text, and `decoded` what `decode` returns
/// for `ids`.
pub proof fn law_round_trip(
    tok: BPETokenizer,
    text: Seq<char>,
    ids: Seq<i32>,
    decoded: Result<String, BpeError>,
)
    requires
        tok.wf(),
        trained_shape(tok.merges_view()),
        specials_apart(tok.specials_view(), tok.merges_view().len()),
        ids == encoded(byte_ids(encode_utf8(text)), tok.merges_view()),
        tok.is_decoding(ids, decoded),
    ensures
        decoded matches Ok(back) && back@ == text,
{
    lemma_encoding_stands_for_text(tok, text);
    lemma_known_prefix(ids, tok.vocab_view());
    encode_utf8_valid_utf8(text);
    encode_utf8_decode_utf8(text);
}

/// Training is a function of the text and the vocabulary size: two
/// tokenizers trained on the same text with the same size have the same merge
/// table, and, where they had the same special tokens, the same vocabulary.
pub proof fn law_training_deterministic(
    a: BPETokenizer,
    a_before: BPETokenizer,
    b: BPETokenizer,
    b_before: BPETokenizer,
    text: Seq<char>,
    vocab_size: usize,
)
    requires
        a.is_trained(&a_before, text, vocab_size),
        b.is_trained(&b_before, text, vocab_size),
    ensures
        a.merges_view() == b.merges_view(),
        a_before.specials_view() == b_before.specials_view() ==> a.vocab_view() == b.vocab_view(),
{
}

/// Building the vocabulary again from the merge table and the special tokens
/// of a tokenizer gives the vocabulary that the tokenizer holds. Here
/// `rebuilt` is what `build_vocab` returns for the two tables.
pub proof fn law_vocab_rebuilt(tok: BPETokenizer, rebuilt: Map<i32, Vec<u8>>)
    requires
        tok.wf(),
        vocab_bytes(rebuilt) == vocab_of(tok.merges_view(), tok.specials_view()),
    ensures
        vocab_bytes(rebuilt) == tok.vocab_view(),
{
}

/// Training with the vocabulary size 256 learns no merge. The encoding of a
/// text is then the ids of its bytes. Where no special token has the id of a
/// raw byte, the id of each byte stands for that byte alone, and decoding it
/// gives the text of that byte: for an ASCII byte the character with that
/// code. Here `decoded` is what `decode` returns for the id of `byte`.
pub proof fn law_no_merges(
    tok: BPETokenizer,
    before: BPETokenizer,
    text: Seq<char>,
    input: Seq<char>,
    byte: u8,
    decoded: Result<String, BpeError>,
)
    requires
        tok.is_trained(&before, text, 256),
    ensures
        tok.merges_view() == Seq::<((i32, i32), i32)>::empty(),
        encoded(byte_ids(encode_utf8(input)), tok.merges_view()) == byte_ids(encode_utf8(input)),
        specials_apart(tok.specials_view(), 0) ==> tok.vocab_view().contains_key(byte as i32)
            && expanded(seq![byte as i32], tok.vocab_view()) == seq![byte],
        specials_apart(tok.specials_view(), 0) && tok.is_decoding(seq![byte as i32], decoded) ==> (
        decoded matches Ok(back) && back@ == text_of(seq![byte]) && (byte < 128 ==> back@
            == seq![byte as char])),
{
    let table = tok.merges_view();
    let ids = byte_ids(encode_utf8(input));
    assert(merges_after(byte_ids(encode_utf8(text)), 0) == Seq::<((i32, i32), i32)>::empty());
    assert(!mergeable(ids, table)) by {
        if mergeable(ids, table) {
            let p = crate::encoding::first_pair(ids, table);
            assert(key_index(table, p) is None);
        }
    }
    if specials_apart(tok.specials_view(), 0) {
        let id = byte as i32;
        lemma_trained_vocab(table, tok.specials_view());
        lemma_expanded_one(id, tok.vocab_view());
        assert(tok.vocab_view()[id] == seq![id as u8]);
        lemma_known_prefix(seq![id], tok.vocab_view());
        assert(all_known(seq![id], tok.vocab_view()));
        if byte < 128 {
            lemma_ascii_byte(byte);
        }
    }
}

/// An ASCII byte alone is the UTF-8 encoding of the character with its code.
pub proof fn lemma_ascii_byte(byte: u8)
    requires
        byte < 128,
    ensures
        text_of(seq![byte]) == seq![byte as char],
{
    let chars = seq![byte as char];
    assert(is_ascii_chars(chars));
    is_ascii_chars_encode_utf8(chars);
    encode_utf8_valid_utf8(chars);
    encode_utf8_decode_utf8(chars);
    assert(encode_utf8(chars) =~= seq![byte]);
}

/// A tokenizer that is loaded from the model file of a tokenizer has the
/// pattern, the special tokens and the pairs of the merges of that tokenizer,
/// and its model file is the same text. Where the merge ids of the saved
/// tokenizer are 256 and up in table order, as after training, the two have
/// the same merge table and the same vocabulary. Here `loaded` and `r` are
/// what `load_model` makes of `before` and the model text of `tok`.
pub proof fn law_save_load(
    tok: BPETokenizer,
    loaded: BPETokenizer,
    before: BPETokenizer,
    r: Result<Vec<(i32, i32)>, BpeError>,
)
    requires
        tok.wf(),
        loaded.is_loaded(
            &before,
            model_text(tok.pattern_view(), tok.specials_view(), tok.merges_view()),
            r,
        ),
    ensures
        r is Ok,
        loaded.pattern_view() == tok.pattern_view(),
        loaded.specials_view() == tok.specials_view(),
        loaded.merges_view() == renumbered(tok.merges_view()),
        model_text(loaded.pattern_view(), loaded.specials_view(), loaded.merges_view())
            == model_text(tok.pattern_view(), tok.specials_view(), tok.merges_view()),
        (forall|k: int|
            0 <= k < tok.merges_view().len() ==> (#[trigger] tok.merges_view()[k]).1 == 256 + k)
            ==> loaded.merges_view() == tok.merges_view() && loaded.vocab_view()
            == tok.vocab_view(),
{
    lemma_model_round_trip(tok.pattern_view(), tok.specials_view(), tok.merges_view());
    if forall|k: int|
        0 <= k < tok.merges_view().len() ==> (#[trigger] tok.merges_view()[k]).1 == 256 + k {
        assert(renumbered(tok.merges_view()) =~= tok.merges_view());
    }
}

/// A sequence in which no key of the table stands is its own encoding.
pub proof fn lemma_nothing_to_merge(ids: Seq<i32>, table: Seq<((i32, i32), i32)>)
    requires
        keys_absent(table, ids),
    ensures
        encoded(ids, table) == ids,
{
    assert forall|q: (i32, i32)| stats_of(ids).contains_key(q) implies rank(table, q) is None by {
        lemma_key_index(table, q);
        if key_index(table, q) is Some {
            let j = key_index(table, q)->0;
            assert(pair_count(ids, table[j].0) == 0);
        }
    }
    lemma_encoded_done(ids, table);
}

/// Encoding what training has reached after some rounds, under the table of
/// all rounds, gives what training reaches in the end: encoding applies the
/// merges in the order in which training learned them.
pub proof fn lemma_encoding_follows_training(start: Seq<i32>, done: nat, rounds: nat)
    requires
        done <= rounds,
        ids_below(start, 256),
        start.len() <= usize::MAX,
        256 + rounds <= i32::MAX + 1,
    ensures
        encoded(ids_after(start, done), merges_after(start, rounds)) == ids_after(start, rounds),
    decreases rounds - done,
{
    let table = merges_after(start, rounds);
    let ids = ids_after(start, done);
    lemma_training_shape(start, done);
    lemma_training_shape(start, rounds);
    if done == rounds {
        lemma_nothing_to_merge(ids, table);
    } else if ids.len() < 2 {
        lemma_training_stops(start, done, rounds);
        lemma_nothing_to_merge(ids, table);
    } else {
        let p = best_pair(ids);
        let idx = (256 + done) as i32;
        let next = (done + 1) as nat;
        lemma_top_exists(ids);
        lemma_training_shape(start, next);
        lemma_merges_prefix(start, next, rounds);
        let learned = merges_after(start, next);
        assert(learned == merges_after(start, done).push((p, idx)));
        assert(learned.len() == done + 1);
        assert(table[done as int] == learned[done as int]);
        assert(table[done as int] == (p, idx));
        lemma_key_index(table, p);
        assert(key_index(table, p) == Some(done as int));
        assert forall|q: (i32, i32)| #[trigger]
            stats_of(ids).contains_key(q) && rank(table, q) is Some implies ranked_before(
            table,
            p,
            q,
        ) by {
            lemma_key_index(table, q);
            let j = key_index(table, q)->0;
            if j < done {
                assert(table[j] == learned[j]);
                assert(learned[j] == merges_after(start, done)[j]);
                assert(pair_count(ids, merges_after(start, done)[j].0) == 0);
            }
        }
        assert(is_next(stats_of(ids), table, Some((p, idx))));
        lemma_encoded_step(ids, table, p, idx);
        lemma_encoding_follows_training(start, next, rounds);
    }
}

/// Encoding the text that a tokenizer was trained on gives the ids that
/// training ended with.
pub proof fn law_encoding_of_training_text(
    tok: BPETokenizer,
    before: BPETokenizer,
    text: Seq<char>,
    vocab_size: usize,
)
    requires
        tok.is_trained(&before, text, vocab_size),
        256 <= vocab_size,
        encode_utf8(text).len() <= usize::MAX,
    ensures
        encoded(byte_ids(encode_utf8(text)), tok.merges_view()) == ids_after(
            byte_ids(encode_utf8(text)),
            rounds_for(vocab_size),
        ),
{
    let start = byte_ids(encode_utf8(text));
    assert(ids_after(start, 0) == start);
    lemma_encoding_follows_training(start, 0, rounds_for(vocab_size));
}

/// The vocabulary listing of a tokenizer has one line for each id of the
/// vocabulary, from the smallest id to the largest. Where the merge table
/// has the shape that training gives it and there are no special tokens,
/// these are the ids from 0 to the last merge id, and line `k` is the line
/// of id `k`.
pub proof fn law_listing_lines(tok: BPETokenizer)
    requires
        tok.wf(),
    ensures
        lines(vocab_text(tok.vocab_view(), tok.merges_view())) == vocab_lines(
            tok.vocab_view(),
            parents_of(tok.merges_view()),
            i32::MAX + 1,
        ),
        trained_shape(tok.merges_view()) && tok.specials_view().len() == 0 ==> {
            &&& lines(vocab_text(tok.vocab_view(), tok.merges_view())).len() == 256
                + tok.merges_view().len()
            &&& forall|k: int|
                0 <= k < 256 + tok.merges_view().len() ==> #[trigger] lines(
                    vocab_text(tok.vocab_view(), tok.merges_view()),
                )[k] == vocab_line(tok.vocab_view(), parents_of(tok.merges_view()), k as i32)
        },
{
    let table = tok.merges_view();
    let vocab = tok.vocab_view();
    lemma_listing_lines(vocab, table);
    if trained_shape(table) && tok.specials_view().len() == 0 {
        lemma_merges_vocab(table);
        lemma_lines_dense(vocab, parents_of(table), 256 + table.len() as int, i32::MAX + 1);
    }
}

} // verus!
