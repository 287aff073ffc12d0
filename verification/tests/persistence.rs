use rust_llm::model::{read_model, write_model};
use rust_llm::{build_vocab, BPETokenizer, BpeError, FormatFault};

fn fault(line: usize, fault: FormatFault) -> BpeError {
    BpeError::FormatError { line, fault }
}

fn load(contents: &str) -> Result<BPETokenizer, BpeError> {
    let mut tokenizer = BPETokenizer::new();
    tokenizer.load_model(contents)?;
    Ok(tokenizer)
}

fn load_error(contents: &str) -> BpeError {
    match load(contents) {
        Ok(_) => panic!("the file was accepted"),
        Err(error) => error,
    }
}

#[test]
fn the_model_file_lists_the_pairs_in_the_order_learned() {
    let mut tokenizer = BPETokenizer::new();
    assert_eq!(tokenizer.save_model().model, "minbpe v1\n\n0\n");
    assert!(tokenizer.train("aaabdaaabac", 259).is_ok());
    assert_eq!(tokenizer.save_model().model, "minbpe v1\n\n0\n97 97\n97 98\n256 257\n");
}

#[test]
fn a_saved_tokenizer_loads_to_the_same_tokenizer() {
    let mut tokenizer = BPETokenizer::new();
    assert!(tokenizer.train("the cat sat on the mat, the cat sat on the hat", 290).is_ok());
    let saved = tokenizer.save_model();
    let mut loaded = BPETokenizer::new();
    assert_eq!(loaded.load_model(&saved.model), Ok(vec![]));
    assert_eq!(loaded.merges(), tokenizer.merges());
    assert_eq!(loaded.special_tokens(), tokenizer.special_tokens());
    assert_eq!(loaded.pattern(), tokenizer.pattern());
    assert_eq!(loaded.vocab(), tokenizer.vocab());
    let again = loaded.save_model();
    assert_eq!(again.model, saved.model);
    assert_eq!(again.vocab, saved.vocab);
    assert_eq!(loaded.encode("the cat"), tokenizer.encode("the cat"));
}

#[test]
fn a_file_with_special_tokens_and_a_pattern_is_saved_as_it_was_loaded() {
    let contents = "minbpe v1\n\\p{L}+|\\s+\n2\n<|endoftext|> 100257\n<|pad|> -7\n104 105\n256 33\n";
    let tokenizer = load(contents).unwrap();
    assert_eq!(tokenizer.pattern(), "\\p{L}+|\\s+");
    let specials: Vec<(String, i32)> =
        tokenizer.special_tokens().iter().map(|(token, id)| (token.clone(), *id)).collect();
    assert_eq!(
        specials,
        vec![(String::from("<|endoftext|>"), 100257), (String::from("<|pad|>"), -7)]
    );
    let merges: Vec<((i32, i32), i32)> =
        tokenizer.merges().iter().map(|(pair, id)| (*pair, *id)).collect();
    assert_eq!(merges, vec![((104, 105), 256), ((256, 33), 257)]);
    assert_eq!(tokenizer.vocab().get(&100257), Some(&b"<|endoftext|>".to_vec()));
    assert_eq!(tokenizer.vocab().get(&-7), Some(&b"<|pad|>".to_vec()));
    assert_eq!(tokenizer.vocab().get(&257), Some(&b"hi!".to_vec()));
    assert_eq!(tokenizer.save_model().model, contents);
    assert_eq!(tokenizer.encode("hi!hi"), vec![257, 256]);
    assert_eq!(tokenizer.decode(vec![257, 100257]), Ok(String::from("hi!<|endoftext|>")));
}

#[test]
fn loading_is_lenient_about_white_space() {
    let tokenizer =
        load("  minbpe v1 \r\n  a b \t\r\n1\r\n  <s>\u{a0}\u{3000}7  \r\n\t97   98\r\n98 99").unwrap();
    assert_eq!(tokenizer.pattern(), "a b");
    assert_eq!(tokenizer.special_tokens().get("<s>"), Some(&7));
    let merges: Vec<((i32, i32), i32)> =
        tokenizer.merges().iter().map(|(pair, id)| (*pair, *id)).collect();
    assert_eq!(merges, vec![((97, 98), 256), ((98, 99), 257)]);
    assert_eq!(tokenizer.save_model().model, "minbpe v1\na b\n1\n<s> 7\n97 98\n98 99\n");
}

#[test]
fn ids_may_carry_a_sign_and_leading_zeros() {
    let tokenizer = load("minbpe v1\n\n+1\n<s> -0\n+097 0098\n").unwrap();
    assert_eq!(tokenizer.special_tokens().get("<s>"), Some(&0));
    assert_eq!(tokenizer.merges().get(&(97, 98)), Some(&256));
    assert_eq!(tokenizer.vocab().get(&0), Some(&b"<s>".to_vec()));
}

#[test]
fn a_negative_count_announces_no_special_token() {
    let tokenizer = load("minbpe v1\n\n-3\n97 98\n").unwrap();
    assert_eq!(tokenizer.special_tokens().len(), 0);
    assert_eq!(tokenizer.merges().len(), 1);
}

#[test]
fn a_repeated_line_keeps_its_first_place_and_takes_the_later_id() {
    let tokenizer = load("minbpe v1\n\n2\n<a> 1\n<a> 2\n1 2\n3 4\n1 2\n").unwrap();
    let specials: Vec<(String, i32)> =
        tokenizer.special_tokens().iter().map(|(token, id)| (token.clone(), *id)).collect();
    assert_eq!(specials, vec![(String::from("<a>"), 2)]);
    let merges: Vec<((i32, i32), i32)> =
        tokenizer.merges().iter().map(|(pair, id)| (*pair, *id)).collect();
    assert_eq!(merges, vec![((1, 2), 258), ((3, 4), 257)]);
}

#[test]
fn merges_with_an_unknown_half_are_left_out_and_reported() {
    let mut tokenizer = BPETokenizer::new();
    assert_eq!(
        tokenizer.load_model("minbpe v1\n\n0\n97 98\n300 97\n256 257\n256 97\n"),
        Ok(vec![(300, 97), (256, 257)])
    );
    assert_eq!(tokenizer.vocab().get(&256), Some(&b"ab".to_vec()));
    assert_eq!(tokenizer.vocab().get(&257), None);
    assert_eq!(tokenizer.vocab().get(&258), None);
    assert_eq!(tokenizer.vocab().get(&259), Some(&b"aba".to_vec()));
    assert_eq!(tokenizer.decode(vec![257]), Err(BpeError::LookupError { id: 257 }));
    assert_eq!(&build_vocab(tokenizer.merges(), tokenizer.special_tokens()), tokenizer.vocab());
}

#[test]
fn a_wrong_tag_is_refused() {
    assert_eq!(load_error("minbpe v2\n\n0\n"), fault(0, FormatFault::BadTag));
    assert_eq!(load_error("\n\n0\n"), fault(0, FormatFault::BadTag));
    assert_eq!(load_error("minbpe  v1\n\n0\n"), fault(0, FormatFault::BadTag));
}

#[test]
fn a_file_that_ends_early_is_refused() {
    assert_eq!(load_error(""), fault(0, FormatFault::Truncated));
    assert_eq!(load_error("minbpe v1"), fault(1, FormatFault::Truncated));
    assert_eq!(load_error("minbpe v1\n"), fault(1, FormatFault::Truncated));
    assert_eq!(load_error("minbpe v1\n\n"), fault(2, FormatFault::Truncated));
    assert_eq!(load_error("minbpe v1\n\n2\n<a> 1\n"), fault(4, FormatFault::Truncated));
    assert_eq!(load_error("minbpe v1\n\n1\n"), fault(3, FormatFault::Truncated));
}

#[test]
fn a_field_that_is_no_number_is_refused() {
    assert_eq!(load_error("minbpe v1\n\nx\n"), fault(2, FormatFault::NotANumber));
    assert_eq!(load_error("minbpe v1\n\n 1\n<a> 1\n"), fault(2, FormatFault::NotANumber));
    assert_eq!(load_error("minbpe v1\n\n\n"), fault(2, FormatFault::NotANumber));
    assert_eq!(load_error("minbpe v1\n\n1\n<a> x\n"), fault(3, FormatFault::NotANumber));
    assert_eq!(load_error("minbpe v1\n\n0\n97 9x\n"), fault(3, FormatFault::NotANumber));
    assert_eq!(load_error("minbpe v1\n\n0\n97 98\nx 98\n"), fault(4, FormatFault::NotANumber));
    assert_eq!(load_error("minbpe v1\n\n0\n97 2147483648\n"), fault(3, FormatFault::NotANumber));
    assert_eq!(load_error("minbpe v1\n\n0\n97 -\n"), fault(3, FormatFault::NotANumber));
    assert_eq!(load_error("minbpe v1\n\n0\n97 1.5\n"), fault(3, FormatFault::NotANumber));
}

#[test]
fn a_line_with_the_wrong_number_of_fields_is_refused() {
    assert_eq!(load_error("minbpe v1\n\n1\n<a>\n"), fault(3, FormatFault::WrongFieldCount));
    assert_eq!(load_error("minbpe v1\n\n1\n<a> 1 2\n"), fault(3, FormatFault::WrongFieldCount));
    assert_eq!(load_error("minbpe v1\n\n0\n97\n"), fault(3, FormatFault::WrongFieldCount));
    assert_eq!(load_error("minbpe v1\n\n0\n97 98 99\n"), fault(3, FormatFault::WrongFieldCount));
    assert_eq!(load_error("minbpe v1\n\n0\n97 98\n\n"), fault(4, FormatFault::WrongFieldCount));
    assert_eq!(load_error("minbpe v1\n\n1\n97 98\n\n"), fault(4, FormatFault::WrongFieldCount));
}

#[test]
fn the_first_fault_is_the_one_reported() {
    assert_eq!(load_error("minbpe v1\n\n3\n<a> x\n<b>\n"), fault(3, FormatFault::NotANumber));
    assert_eq!(load_error("minbpe v1\n\n3\n<a> 1\n<b>\n"), fault(4, FormatFault::WrongFieldCount));
    assert_eq!(load_error("minbpe v1\n\n0\n1 2\n3\n4 x\n"), fault(4, FormatFault::WrongFieldCount));
}

#[test]
fn a_failed_load_leaves_the_tokenizer_as_it_was() {
    let mut tokenizer = BPETokenizer::new();
    assert!(tokenizer.train("aaabdaaabac", 259).is_ok());
    let before = tokenizer.save_model();
    assert_eq!(
        tokenizer.load_model("minbpe v1\npattern\n0\n1 2\n3 4\nbroken\n"),
        Err(fault(5, FormatFault::WrongFieldCount))
    );
    let after = tokenizer.save_model();
    assert_eq!(after.model, before.model);
    assert_eq!(after.vocab, before.vocab);
    assert_eq!(tokenizer.encode("aaab"), vec![258]);
}

#[test]
fn the_listing_has_one_line_for_each_id() {
    let mut tokenizer = BPETokenizer::new();
    assert!(tokenizer.train("ab", 257).is_ok());
    let listing = tokenizer.save_model().vocab;
    assert!(listing.ends_with('\n'));
    let lines: Vec<&str> = listing.split('\n').collect();
    assert_eq!(lines.len(), 258);
    assert_eq!(lines[257], "");
    assert_eq!(lines.len() - 1, tokenizer.vocab().len());
    assert_eq!(lines[0], "[\\u0000] 0");
    assert_eq!(lines[10], "[\\u000a] 10");
    assert_eq!(lines[13], "[\\u000d] 13");
    assert_eq!(lines[32], "[ ] 32");
    assert_eq!(lines[97], "[a] 97");
    assert_eq!(lines[98], "[b] 98");
    assert_eq!(lines[127], "[\\u007f] 127");
    assert_eq!(lines[128], "[\u{fffd}] 128");
    assert_eq!(lines[255], "[\u{fffd}] 255");
    assert_eq!(lines[256], "[a][b] -> [ab] 256");
    for (id, line) in lines[..257].iter().enumerate() {
        assert!(line.ends_with(&format!("] {}", id)), "line {:?}", line);
    }
}

#[test]
fn the_listing_shows_each_id_and_the_halves_of_a_merge() {
    let mut tokenizer = BPETokenizer::new();
    assert!(tokenizer.train("aaabdaaabac", 259).is_ok());
    let listing = tokenizer.save_model().vocab;
    assert!(listing.starts_with("[\\u0000] 0\n[\\u0001] 1\n"));
    assert!(listing.contains("\n[a] 97\n[b] 98\n"));
    assert!(listing.contains("\n[~] 126\n[\\u007f] 127\n[\u{fffd}] 128\n"));
    assert!(listing.ends_with(
        "[\u{fffd}] 255\n[a][a] -> [aa] 256\n[a][b] -> [ab] 257\n[aa][ab] -> [aaab] 258\n"
    ));
    assert_eq!(listing.matches('\n').count(), 259);
    assert_eq!(listing.lines().count(), 259);
}

#[test]
fn the_listing_goes_by_id_and_shows_special_tokens_plainly() {
    let tokenizer = load("minbpe v1\n\n2\n<e> 300\n<n> -2\n97 98\n400 401\n").unwrap();
    let listing = tokenizer.save_model().vocab;
    assert!(listing.starts_with("[<n>] -2\n[\\u0000] 0\n"));
    assert!(listing.ends_with("[\u{fffd}] 255\n[a][b] -> [ab] 256\n[<e>] 300\n"));
}

#[test]
fn a_special_token_on_a_skipped_merge_id_is_shown_plainly() {
    let tokenizer = load("minbpe v1\n\n1\n<e> 256\n400 401\n").unwrap();
    let listing = tokenizer.save_model().vocab;
    assert!(listing.ends_with("[\u{fffd}] 255\n[<e>] 256\n"));
}

#[test]
fn the_model_functions_work_on_plain_tables() {
    let mut specials = indexmap::IndexMap::new();
    specials.insert(String::from("<s>"), 1000);
    let mut merges = indexmap::IndexMap::new();
    merges.insert((1, 2), 256);
    merges.insert((-3, 256), 999);
    let text = write_model("pat", &specials, &merges);
    assert_eq!(text, "minbpe v1\npat\n1\n<s> 1000\n1 2\n-3 256\n");
    let (pattern, read_specials, read_merges) = read_model(&text).unwrap();
    assert_eq!(pattern, "pat");
    assert_eq!(read_specials, specials);
    let pairs: Vec<((i32, i32), i32)> = read_merges.iter().map(|(p, id)| (*p, *id)).collect();
    assert_eq!(pairs, vec![((1, 2), 256), ((-3, 256), 257)]);
}
