use rust_llm::{build_vocab, BPETokenizer, BpeError};

fn table_of(tokenizer: &BPETokenizer) -> Vec<((i32, i32), i32)> {
    tokenizer.merges().iter().map(|(pair, id)| (*pair, *id)).collect()
}

#[test]
fn trains_the_three_best_pairs_in_order() {
    let mut tokenizer = BPETokenizer::new();
    assert_eq!(tokenizer.train("aaabdaaabac", 259), Ok(vec![4, 2, 2]));
    assert_eq!(
        table_of(&tokenizer),
        vec![((97, 97), 256), ((97, 98), 257), ((256, 257), 258)]
    );
    let ids = tokenizer.encode("aaabdaaabac");
    assert_eq!(ids, vec![258, 100, 258, 97, 99]);
    assert_eq!(tokenizer.decode(ids), Ok(String::from("aaabdaaabac")));
    assert_eq!(tokenizer.vocab().get(&256), Some(&b"aa".to_vec()));
    assert_eq!(tokenizer.vocab().get(&257), Some(&b"ab".to_vec()));
    assert_eq!(tokenizer.vocab().get(&258), Some(&b"aaab".to_vec()));
    assert_eq!(tokenizer.vocab().len(), 259);
}

#[test]
fn equal_counts_go_to_the_smaller_pair() {
    let mut tokenizer = BPETokenizer::new();
    assert_eq!(tokenizer.train("abcd", 259), Ok(vec![1, 1, 1]));
    assert_eq!(
        table_of(&tokenizer),
        vec![((97, 98), 256), ((99, 100), 257), ((256, 257), 258)]
    );
    let mut other = BPETokenizer::new();
    assert_eq!(other.train("abab", 258), Ok(vec![2, 1]));
    assert_eq!(table_of(&other), vec![((97, 98), 256), ((256, 256), 257)]);
}

#[test]
fn training_twice_gives_the_same_tokenizer() {
    let text = "the cat sat on the mat, the cat sat on the hat";
    let mut first = BPETokenizer::new();
    let mut second = BPETokenizer::new();
    let counts = first.train(text, 270).unwrap();
    assert_eq!(second.train(text, 270), Ok(counts.clone()));
    assert_eq!(table_of(&first), table_of(&second));
    assert_eq!(first.vocab(), second.vocab());
    assert_eq!(first.merges().len(), 14);
    assert_eq!(counts.len(), 14);
    assert_eq!(&counts[..3], &[6, 4, 4]);
    assert_eq!(
        &table_of(&first)[..3],
        &[((97, 116), 256), ((101, 32), 257), ((104, 257), 258)]
    );
}

#[test]
fn training_again_starts_from_the_bytes() {
    let mut again = BPETokenizer::new();
    assert!(again.train("zzzzzz", 258).is_ok());
    assert!(again.train("aaabdaaabac", 259).is_ok());
    let mut fresh = BPETokenizer::new();
    assert!(fresh.train("aaabdaaabac", 259).is_ok());
    assert_eq!(table_of(&again), table_of(&fresh));
    assert_eq!(again.vocab(), fresh.vocab());
}

#[test]
fn small_vocabulary_is_refused() {
    let mut tokenizer = BPETokenizer::new();
    assert!(tokenizer.train("aaaa", 257).is_ok());
    assert_eq!(tokenizer.train("abc", 255), Err(BpeError::InvalidArgument));
    assert_eq!(tokenizer.train("abc", 0), Err(BpeError::InvalidArgument));
    assert_eq!(table_of(&tokenizer), vec![((97, 97), 256)]);
}

#[test]
fn training_stops_when_the_text_is_used_up() {
    let mut tokenizer = BPETokenizer::new();
    assert_eq!(tokenizer.train("ab", 300), Ok(vec![1]));
    assert_eq!(table_of(&tokenizer), vec![((97, 98), 256)]);
    let mut empty = BPETokenizer::new();
    assert_eq!(empty.train("", 300), Ok(vec![]));
    assert_eq!(empty.merges().len(), 0);
    let mut single = BPETokenizer::new();
    assert_eq!(single.train("a", 300), Ok(vec![]));
    assert_eq!(single.merges().len(), 0);
}

#[test]
fn size_256_learns_nothing() {
    let mut tokenizer = BPETokenizer::new();
    assert_eq!(tokenizer.train("aaaaaaaa", 256), Ok(vec![]));
    assert_eq!(tokenizer.merges().len(), 0);
    assert_eq!(tokenizer.encode("aaaa"), vec![97, 97, 97, 97]);
    assert_eq!(tokenizer.encode("h\u{e9}"), vec![104, 195, 169]);
    assert_eq!(tokenizer.encode(""), Vec::<i32>::new());
    for byte in 0..128 {
        let text = tokenizer.decode(vec![byte]).unwrap();
        assert_eq!(text.as_bytes(), &[byte as u8]);
    }
    for byte in 0..256 {
        assert_eq!(tokenizer.vocab().get(&byte), Some(&vec![byte as u8]));
    }
}

#[test]
fn decoding_an_encoding_gives_the_text_back() {
    let mut tokenizer = BPETokenizer::new();
    assert!(tokenizer.train("hello world, hello there, \u{4f60}\u{597d} \u{4f60}\u{597d}", 300).is_ok());
    for text in ["", "a", "hello", "hello world", "\u{4f60}\u{597d}", "unseen \u{1f600} text\n\ttabs", "hellohello"] {
        let ids = tokenizer.encode(text);
        assert_eq!(tokenizer.decode(ids), Ok(String::from(text)));
    }
    assert!(tokenizer.encode("hello hello").len() < "hello hello".len());
}

#[test]
fn encoding_prefers_the_merge_learned_first() {
    let mut tokenizer = BPETokenizer::new();
    assert!(tokenizer.train("aaabdaaabac", 259).is_ok());
    assert_eq!(tokenizer.encode("aab"), vec![256, 98]);
    assert_eq!(tokenizer.encode("ab"), vec![257]);
    assert_eq!(tokenizer.encode("aaab"), vec![258]);
    assert_eq!(tokenizer.encode("aaa"), vec![256, 97]);
    assert_eq!(tokenizer.encode("xyz"), vec![120, 121, 122]);
}

#[test]
fn decoding_reads_bad_bytes_as_the_replacement_character() {
    let tokenizer = BPETokenizer::new();
    assert_eq!(tokenizer.decode(vec![255]), Ok(String::from("\u{fffd}")));
    assert_eq!(tokenizer.decode(vec![104, 228, 189, 160]), Ok(String::from("h\u{4f60}")));
    assert_eq!(tokenizer.decode(vec![104, 228, 105]), Ok(String::from("h\u{fffd}i")));
    assert_eq!(tokenizer.decode(vec![]), Ok(String::new()));
}

#[test]
fn decoding_an_unknown_id_is_an_error() {
    let mut tokenizer = BPETokenizer::new();
    assert_eq!(tokenizer.decode(vec![300]), Err(BpeError::LookupError { id: 300 }));
    assert_eq!(tokenizer.decode(vec![97, -1, 300]), Err(BpeError::LookupError { id: -1 }));
    assert!(tokenizer.train("aaaa", 257).is_ok());
    assert_eq!(tokenizer.decode(vec![256, 256]), Ok(String::from("aaaa")));
    assert_eq!(tokenizer.decode(vec![256, 257]), Err(BpeError::LookupError { id: 257 }));
}

#[test]
fn a_new_tokenizer_is_empty() {
    let tokenizer = BPETokenizer::new();
    assert_eq!(tokenizer.merges().len(), 0);
    assert_eq!(tokenizer.special_tokens().len(), 0);
    assert_eq!(tokenizer.pattern(), "");
    assert_eq!(tokenizer.vocab().len(), 256);
}

#[test]
fn rebuilding_the_vocabulary_gives_the_one_held() {
    let mut tokenizer = BPETokenizer::new();
    assert!(tokenizer.train("a rose is a rose is a rose", 270).is_ok());
    let rebuilt = build_vocab(tokenizer.merges(), tokenizer.special_tokens());
    assert_eq!(&rebuilt, tokenizer.vocab());
}

#[test]
fn a_size_beyond_the_ids_trains_as_far_as_the_text_goes() {
    let mut huge = BPETokenizer::new();
    let counts = huge.train("aaabdaaabac", usize::MAX).unwrap();
    let mut large = BPETokenizer::new();
    assert_eq!(large.train("aaabdaaabac", 1000), Ok(counts.clone()));
    assert_eq!(table_of(&huge), table_of(&large));
    assert_eq!(huge.vocab(), large.vocab());
    assert_eq!(&table_of(&huge)[..3], &[((97, 97), 256), ((97, 98), 257), ((256, 257), 258)]);
    assert_eq!(huge.encode("aaabdaaabac").len(), 1);
    assert_eq!(huge.decode(huge.encode("aaabdaaabac")), Ok(String::from("aaabdaaabac")));
}

#[test]
fn encoding_tells_the_merges_it_applied() {
    let mut tokenizer = BPETokenizer::new();
    assert!(tokenizer.train("aaabdaaabac", 259).is_ok());
    assert_eq!(
        tokenizer.encode_with_steps("aaabdaaabac"),
        (vec![258, 100, 258, 97, 99], vec![((97, 97), 256), ((97, 98), 257), ((256, 257), 258)])
    );
    assert_eq!(tokenizer.encode_with_steps("abab"), (vec![257, 257], vec![((97, 98), 257)]));
    assert_eq!(tokenizer.encode_with_steps("xyz"), (vec![120, 121, 122], vec![]));
    assert_eq!(tokenizer.encode_with_steps(""), (vec![], vec![]));
}
