//! The tokenizer: a merge table, its vocabulary, and the operations on them.

use crate::encoding::{all_known, applied, byte_ids, encoded, expanded, ids_of_bytes};
use crate::encoding::{is_token, known_prefix};
use crate::encoding::{lemma_encoded_done, lemma_encoded_final, lemma_encoded_step};
use crate::encoding::{lemma_encoded_tokens, lemma_known_prefix, mergeable, next_merge};
use crate::error::BpeError;
use crate::layout::lines;
use crate::listing::{vocab_text, write_vocab};
use crate::merge::{merge, merged};
use crate::model::{model_text, parse_model, read_model, storable, write_model};
use crate::stats::get_stats;
use crate::table::{distinct_keys, lemma_inserted_distinct};
use crate::table::{merge_entries, merges_insert, merges_new, special_entries, specials_new};
use crate::text::{decode_lossy, text_of};
use crate::training::{counts_after, ids_after, ids_below, keys_absent, merges_after};
use crate::training::{lemma_best_pair, lemma_round_keeps_shape, lemma_training_stops};
use crate::training::{most_frequent_pair, rounds_for, FIRST_MERGE_ID, MAX_VOCAB_SIZE};
use crate::vocab::{base_vocab, base_vocabulary, extend_vocabulary, overlay_specials};
use crate::vocab::{skipped_merges, trained_shape, vocab_bytes, vocab_of, with_merges};
use indexmap::IndexMap;
use std::collections::BTreeMap;
use vstd::prelude::*;
use vstd::utf8::encode_utf8;

verus! {

/// The two texts in which a tokenizer is saved.
pub struct SavedModel {
    /// The model file, from which the tokenizer can be loaded again.
    pub model: String,
    /// The vocabulary listing, for people to read.
    pub vocab: String,
}

/// A byte-level byte-pair-encoding tokenizer.
pub struct BPETokenizer {
    merges: IndexMap<(i32, i32), i32>,
    pattern: String,
    special_tokens: IndexMap<String, i32>,
    vocab: BTreeMap<i32, Vec<u8>>,
}

impl BPETokenizer {
    /// The merge table: its entries in the order learned.
    pub closed spec fn merges_view(&self) -> Seq<((i32, i32), i32)> {
        merge_entries(self.merges)
    }

    /// The special tokens: their entries in the order inserted.
    pub closed spec fn specials_view(&self) -> Seq<(Seq<char>, i32)> {
        special_entries(self.special_tokens)
    }

    /// The vocabulary: the byte string of each known id.
    pub closed spec fn vocab_view(&self) -> Map<i32, Seq<u8>> {
        vocab_bytes(self.vocab@)
    }

    /// The split pattern.
    pub closed spec fn pattern_view(&self) -> Seq<char> {
        self.pattern@
    }

    /// The invariant of a tokenizer: no table holds a key twice, the
    /// vocabulary is the one that the two tables determine, and what a model
    /// file stores can be read back from it.
    pub open spec fn wf(&self) -> bool {
        &&& distinct_keys(self.merges_view())
        &&& distinct_keys(self.specials_view())
        &&& self.vocab_view() == vocab_of(self.merges_view(), self.specials_view())
        &&& storable(self.pattern_view(), self.specials_view(), self.merges_view())
    }

    /// Whether this tokenizer is what training on `text` with `vocab_size`
    /// makes of the tokenizer `before`: the merge table is the one learned
    /// from the bytes of the text, and the pattern and the special tokens are
    /// those of `before`.
    pub open spec fn is_trained(&self, before: &Self, text: Seq<char>, vocab_size: usize) -> bool {
        &&& self.wf()
        &&& self.pattern_view() == before.pattern_view()
        &&& self.specials_view() == before.specials_view()
        &&& self.merges_view() == merges_after(byte_ids(encode_utf8(text)), rounds_for(vocab_size))
        &&& trained_shape(self.merges_view())
    }

    /// Whether this tokenizer and `r` are what loading the model file
    /// `contents` makes of the tokenizer `before`: what the file holds, or,
    /// for a malformed file, `before` and an error that names the first
    /// fault.
    pub open spec fn is_loaded(
        &self,
        before: &Self,
        contents: Seq<char>,
        r: Result<Vec<(i32, i32)>, BpeError>,
    ) -> bool {
        match parse_model(lines(contents)) {
            Ok(model) => {
                &&& r matches Ok(skipped) && skipped@ == skipped_merges(base_vocab(), model.merges)
                &&& self.wf()
                &&& self.pattern_view() == model.pattern
                &&& self.specials_view() == model.specials
                &&& self.merges_view() == model.merges
            },
            Err(e) => {
                &&& r == Err::<Vec<(i32, i32)>, BpeError>(
                    BpeError::FormatError { line: e.0 as usize, fault: e.1 },
                )
                &&& *self == *before
            },
        }
    }

    /// Whether `r` is what decoding `ids` gives: the text of the bytes that
    /// the ids stand for, or an error that names the first id that is not in
    /// the vocabulary.
    pub open spec fn is_decoding(&self, ids: Seq<i32>, r: Result<String, BpeError>) -> bool {
        match r {
            Ok(text) => {
                &&& all_known(ids, self.vocab_view())
                &&& text@ == text_of(expanded(ids, self.vocab_view()))
            },
            Err(e) => {
                &&& known_prefix(ids, self.vocab_view()) < ids.len()
                &&& e == BpeError::LookupError { id: ids[known_prefix(ids, self.vocab_view())] }
            },
        }
    }

    /// A tokenizer without merges, special tokens or pattern: its vocabulary
    /// is the 256 raw bytes.
    pub fn new() -> (tokenizer: Self)
        ensures
            tokenizer.wf(),
            tokenizer.merges_view() == Seq::<((i32, i32), i32)>::empty(),
            tokenizer.specials_view() == Seq::<(Seq<char>, i32)>::empty(),
            tokenizer.pattern_view() == Seq::<char>::empty(),
            tokenizer.vocab_view() == base_vocab(),
    {
        let merges = merges_new();
        let pattern = String::new();
        let special_tokens = specials_new();
        let vocab = crate::vocab::build_vocab(&merges, &special_tokens);
        BPETokenizer { merges, pattern, special_tokens, vocab }
    }

    /// Learns `vocab_size - 256` merges from `text`, or as many as the text
    /// and the range of token ids allow, and replaces the merge table and the
    /// vocabulary by what was learned. Each round merges the most frequent
    /// pair of adjacent ids (among equally frequent pairs the smallest) into
    /// the next free id; training ends early once fewer than two ids are
    /// left, or once the largest id is given. The pattern and the special
    /// tokens stay, and the special tokens are laid over the new vocabulary.
    ///
    /// A `vocab_size` below 256 is refused, and the tokenizer stays as it is.
    /// Otherwise the result tells, for each merge learned, how often its pair
    /// stood in the sequence when it was merged.
    pub fn train(&mut self, text: &str, vocab_size: usize) -> (r: Result<Vec<usize>, BpeError>)
        requires
            old(self).wf(),
        ensures
            final(self).wf(),
            vocab_size < 256 ==> r == Err::<Vec<usize>, BpeError>(BpeError::InvalidArgument)
                && *final(self) == *old(self),
            vocab_size >= 256 ==> final(self).is_trained(old(self), text@, vocab_size),
            vocab_size >= 256 ==> (r matches Ok(counts) && counts@ == counts_after(
                byte_ids(encode_utf8(text@)),
                rounds_for(vocab_size),
            )),
    {
        if vocab_size < 256 {
            return Err(BpeError::InvalidArgument);
        }
        let num_merges = if vocab_size > MAX_VOCAB_SIZE {
            MAX_VOCAB_SIZE - 256
        } else {
            vocab_size - 256
        };
        let mut ids = ids_of_bytes(text.as_bytes());
        let ghost start = ids@;
        let mut merges = merges_new();
        let mut vocab = base_vocabulary();
        let mut counts: Vec<usize> = Vec::new();
        let mut i: usize = 0;
        while i < num_merges && ids.len() >= 2
            invariant
                i <= num_merges <= MAX_VOCAB_SIZE - 256,
                counts@ == counts_after(start, i as nat),
                ids@ == ids_after(start, i as nat),
                merge_entries(merges) == merges_after(start, i as nat),
                merge_entries(merges).len() == i,
                ids_below(ids@, FIRST_MERGE_ID + i),
                trained_shape(merge_entries(merges)),
                keys_absent(merge_entries(merges), ids@),
                distinct_keys(merge_entries(merges)),
                vocab_bytes(vocab@) == with_merges(base_vocab(), merge_entries(merges)),
            decreases num_merges - i,
        {
            let stats = get_stats(ids.as_slice());
            let ghost entries = merge_entries(merges);
            proof {
                let first = (ids@[0], ids@[1]);
                assert(crate::stats::occurs_at(ids@, first, 0));
                crate::stats::lemma_pair_count_positive(ids@, first);
                assert(stats@.contains_key(first));
            }
            let (pair, count) = match most_frequent_pair(&stats) {
                Some(choice) => choice,
                None => vstd::pervasive::unreached(),
            };
            let idx: i32 = 256 + i as i32;
            proof {
                lemma_best_pair(ids@, pair);
                lemma_round_keeps_shape(ids@, entries, pair, idx);
                lemma_inserted_distinct(entries, pair, idx);
                assert(entries.push((pair, idx)).drop_last() == entries);
            }
            ids = merge(ids.as_slice(), pair, idx);
            merges_insert(&mut merges, pair, idx);
            extend_vocabulary(&mut vocab, pair, idx);
            counts.push(count);
            i += 1;
        }
        proof {
            if i < num_merges {
                lemma_training_stops(start, i as nat, num_merges as nat);
            }
        }
        overlay_specials(&mut vocab, &self.special_tokens);
        self.merges = merges;
        self.vocab = vocab;
        Ok(counts)
    }

    /// Encodes `text`: its UTF-8 bytes as ids, on which the merges of the
    /// table are applied, each time the one with the smallest id among those
    /// whose pair stands in the sequence, until none applies. Special tokens
    /// are not looked for.
    pub fn encode(&self, text: &str) -> (ids: Vec<i32>)
        ensures
            ids@ == encoded(byte_ids(encode_utf8(text@)), self.merges_view()),
            !mergeable(ids@, self.merges_view()),
            forall|j: int| 0 <= j < ids.len() ==> is_token(self.merges_view(), #[trigger] ids@[j]),
    {
        self.encode_with_steps(text).0
    }

    /// Encodes `text` as `encode` does, and tells which merges were applied,
    /// each with its pair and its id, in the order applied.
    pub fn encode_with_steps(&self, text: &str) -> (r: (Vec<i32>, Vec<((i32, i32), i32)>))
        ensures
            r.0@ == encoded(byte_ids(encode_utf8(text@)), self.merges_view()),
            r.1@ == applied(byte_ids(encode_utf8(text@)), self.merges_view()),
            !mergeable(r.0@, self.merges_view()),
            forall|j: int| 0 <= j < r.0.len() ==> is_token(self.merges_view(), #[trigger] r.0@[j]),
    {
        let mut ids = ids_of_bytes(text.as_bytes());
        let mut steps: Vec<((i32, i32), i32)> = Vec::new();
        let ghost start = ids@;
        let ghost table = merge_entries(self.merges);
        proof {
            lemma_encoded_final(start, table);
            lemma_encoded_tokens(start, table);
        }
        loop
            invariant_except_break
                applied(start, table) == steps@ + applied(ids@, table),
            invariant
                table == merge_entries(self.merges),
                encoded(start, table) == encoded(ids@, table),
            ensures
                encoded(start, table) == ids@,
                applied(start, table) == steps@,
            decreases ids.len(),
        {
            let stats = get_stats(ids.as_slice());
            match next_merge(&stats, &self.merges) {
                Some((pair, idx)) => {
                    proof {
                        lemma_encoded_step(ids@, table, pair, idx);
                        assert(steps@.push((pair, idx)) + applied(merged(ids@, pair, idx), table)
                            =~= steps@ + applied(ids@, table));
                    }
                    ids = merge(ids.as_slice(), pair, idx);
                    steps.push((pair, idx));
                },
                None => {
                    proof {
                        lemma_encoded_done(ids@, table);
                        assert(steps@ + applied(ids@, table) =~= steps@);
                    }
                    break ;
                },
            }
        }
        (ids, steps)
    }

    /// Decodes `ids`: the byte strings of the ids, one after the other, read
    /// as UTF-8; a part that is no valid UTF-8 is read as U+FFFD. An id
    /// without an entry in the vocabulary is an error, which names the first
    /// such id.
    pub fn decode(&self, ids: Vec<i32>) -> (r: Result<String, BpeError>)
        ensures
            self.is_decoding(ids@, r),
    {
        let ghost vocab = vocab_bytes(self.vocab@);
        let mut text_bytes: Vec<u8> = Vec::new();
        let mut i: usize = 0;
        proof {
            lemma_known_prefix(ids@, vocab);
        }
        while i < ids.len()
            invariant
                i <= ids.len(),
                vocab == vocab_bytes(self.vocab@),
                forall|j: int| 0 <= j < i ==> vocab.contains_key(#[trigger] ids@[j]),
                text_bytes@ == expanded(ids@.take(i as int), vocab),
                0 <= known_prefix(ids@, vocab) <= ids.len(),
                all_known(ids@.take(known_prefix(ids@, vocab)), vocab),
                known_prefix(ids@, vocab) < ids.len() ==> !vocab.contains_key(
                    ids@[known_prefix(ids@, vocab)],
                ),
                known_prefix(ids@, vocab) == ids.len() <==> all_known(ids@, vocab),
            decreases ids.len() - i,
        {
            let id = ids[i];
            proof {
                crate::order::lemma_id_keys();
                assert(ids@.take(i + 1).drop_last() == ids@.take(i as int));
            }
            match self.vocab.get(&id) {
                Some(bytes) => {
                    text_bytes.extend_from_slice(bytes.as_slice());
                },
                None => {
                    proof {
                        let k = known_prefix(ids@, vocab);
                        if k > i {
                            assert(ids@.take(k)[i as int] == ids@[i as int]);
                        }
                    }
                    return Err(BpeError::LookupError { id });
                },
            }
            i += 1;
        }
        proof {
            assert(ids@.take(ids.len() as int) == ids@);
        }
        Ok(decode_lossy(text_bytes.as_slice()))
    }

    /// Writes the tokenizer down: the model file, which holds the pattern,
    /// the special tokens and the pairs of the merges in the order learned,
    /// and the vocabulary listing.
    pub fn save_model(&self) -> (files: SavedModel)
        ensures
            files.model@ == model_text(
                self.pattern_view(),
                self.specials_view(),
                self.merges_view(),
            ),
            files.vocab@ == vocab_text(self.vocab_view(), self.merges_view()),
    {
        SavedModel {
            model: write_model(self.pattern.as_str(), &self.special_tokens, &self.merges),
            vocab: write_vocab(&self.vocab, &self.merges),
        }
    }

    /// Loads the tokenizer from the text of a model file: the pattern, the
    /// special tokens and the merges, the merge of the `k`-th merge line with
    /// the id `256 + k`; the vocabulary is built from them. A malformed file is
    /// an error that names the first fault, and leaves the tokenizer as it is.
    /// Otherwise the result holds the pairs of the merges that the vocabulary
    /// leaves out, because one of their halves was unknown at their turn.
    pub fn load_model(&mut self, contents: &str) -> (r: Result<Vec<(i32, i32)>, BpeError>)
        requires
            old(self).wf(),
        ensures
            final(self).wf(),
            final(self).is_loaded(old(self), contents@, r),
    {
        match read_model(contents) {
            Ok((pattern, special_tokens, merges)) => {
                let (vocab, skipped) = crate::vocab::build_vocab_report(&merges, &special_tokens);
                self.pattern = pattern;
                self.special_tokens = special_tokens;
                self.merges = merges;
                self.vocab = vocab;
                Ok(skipped)
            },
            Err(error) => Err(error),
        }
    }

    /// The merge table.
    pub fn merges(&self) -> (merges: &IndexMap<(i32, i32), i32>)
        ensures
            merge_entries(*merges) == self.merges_view(),
    {
        &self.merges
    }

    /// The special tokens.
    pub fn special_tokens(&self) -> (special_tokens: &IndexMap<String, i32>)
        ensures
            special_entries(*special_tokens) == self.specials_view(),
    {
        &self.special_tokens
    }

    /// The vocabulary.
    pub fn vocab(&self) -> (vocab: &BTreeMap<i32, Vec<u8>>)
        ensures
            vocab_bytes(vocab@) == self.vocab_view(),
    {
        &self.vocab
    }

    /// The split pattern.
    pub fn pattern(&self) -> (pattern: &str)
        ensures
            pattern@ == self.pattern_view(),
    {
        self.pattern.as_str()
    }
}

} // verus!
