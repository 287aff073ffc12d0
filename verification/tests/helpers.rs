use rust_llm::encoding::{ids_of_bytes, next_merge};
use rust_llm::layout::{is_space_char, split_lines, split_words, trimmed};
use rust_llm::listing::{merge_parents, write_vocab};
use rust_llm::number::{push_decimal, push_digits, read_id};
use rust_llm::render::hex_digit;
use rust_llm::text::{chars_of, same_chars, string_of};
use rust_llm::training::most_frequent_pair;
use rust_llm::vocab::{base_vocabulary, build_vocab_report, extend_vocabulary, overlay_specials};
use rust_llm::{b_as_literal, build_vocab, get_stats, merge, render_token, replace_control_characters};
use std::collections::BTreeMap;

fn chars(s: &str) -> Vec<char> {
    s.chars().collect()
}

fn texts(rows: Vec<Vec<char>>) -> Vec<String> {
    rows.into_iter().map(|row| row.into_iter().collect()).collect()
}

#[test]
fn merge_does_not_overlap() {
    assert_eq!(merge(&[5, 5, 5], (5, 5), 99), vec![99, 5]);
    assert_eq!(merge(&[5, 5, 5, 5], (5, 5), 99), vec![99, 99]);
    assert_eq!(merge(&[5, 5, 5, 5, 5], (5, 5), 99), vec![99, 99, 5]);
}

#[test]
fn merge_replaces_every_occurrence() {
    assert_eq!(merge(&[1, 2, 3, 1, 2], (1, 2), 4), vec![4, 3, 4]);
    assert_eq!(merge(&[1, 2, 3], (2, 1), 4), vec![1, 2, 3]);
    assert_eq!(merge(&[], (1, 2), 4), Vec::<i32>::new());
    assert_eq!(merge(&[1], (1, 1), 4), vec![1]);
    assert_eq!(merge(&[3, 1, 2], (1, 2), 1), vec![3, 1]);
    assert_eq!(merge(&[1, 1, 2], (1, 2), 9), vec![1, 9]);
}

#[test]
fn stats_count_adjacent_pairs() {
    let stats = get_stats(&[1, 2, 3, 1, 2]);
    let expected: BTreeMap<(i32, i32), usize> =
        [((1, 2), 2), ((2, 3), 1), ((3, 1), 1)].into_iter().collect();
    assert_eq!(stats, expected);
    let overlapping = get_stats(&[7, 7, 7, 7]);
    assert_eq!(overlapping.get(&(7, 7)), Some(&3));
    assert_eq!(overlapping.len(), 1);
}

#[test]
fn stats_of_short_input_are_empty() {
    assert!(get_stats(&[]).is_empty());
    assert!(get_stats(&[42]).is_empty());
}

#[test]
fn the_most_frequent_pair_wins_and_ties_go_to_the_smaller_pair() {
    assert_eq!(most_frequent_pair(&get_stats(&[])), None);
    assert_eq!(most_frequent_pair(&get_stats(&[1, 2, 3, 1, 2])), Some(((1, 2), 2)));
    assert_eq!(most_frequent_pair(&get_stats(&[9, 8, 7, 6])), Some(((7, 6), 1)));
    assert_eq!(most_frequent_pair(&get_stats(&[2, 1, 2, 0, 2, 0])), Some(((2, 0), 2)));
    assert_eq!(most_frequent_pair(&get_stats(&[5, 9, 5, 3])), Some(((5, 3), 1)));
    assert_eq!(most_frequent_pair(&get_stats(&[-1, 0, 0, -1, -1])), Some(((-1, -1), 1)));
}

#[test]
fn the_next_merge_is_the_one_with_the_smallest_id() {
    let mut merges = indexmap::IndexMap::new();
    merges.insert((3, 4), 300);
    merges.insert((1, 2), 256);
    merges.insert((2, 3), 256);
    assert_eq!(next_merge(&get_stats(&[3, 4, 1, 2, 3]), &merges), Some(((1, 2), 256)));
    assert_eq!(next_merge(&get_stats(&[3, 4, 2, 3]), &merges), Some(((2, 3), 256)));
    assert_eq!(next_merge(&get_stats(&[3, 4, 4]), &merges), Some(((3, 4), 300)));
    assert_eq!(next_merge(&get_stats(&[4, 3, 2, 1]), &merges), None);
    assert_eq!(next_merge(&get_stats(&[]), &merges), None);
}

#[test]
fn bytes_are_widened_to_ids() {
    assert_eq!(ids_of_bytes(&[0, 97, 255]), vec![0, 97, 255]);
    assert_eq!(ids_of_bytes(&[]), Vec::<i32>::new());
}

#[test]
fn the_vocabulary_is_bytes_then_merges_then_special_tokens() {
    let mut merges = indexmap::IndexMap::new();
    merges.insert((104, 105), 256);
    merges.insert((256, 33), 257);
    merges.insert((500, 33), 258);
    merges.insert((257, 257), 104);
    let mut specials = indexmap::IndexMap::new();
    specials.insert(String::from("<|end|>"), 9000);
    specials.insert(String::from("\u{e9}"), 33);
    let vocab = build_vocab(&merges, &specials);
    assert_eq!(vocab.len(), 256 + 2 + 1);
    assert_eq!(vocab.get(&0), Some(&vec![0u8]));
    assert_eq!(vocab.get(&255), Some(&vec![255u8]));
    assert_eq!(vocab.get(&256), Some(&b"hi".to_vec()));
    assert_eq!(vocab.get(&257), Some(&b"hi!".to_vec()));
    assert_eq!(vocab.get(&258), None);
    assert_eq!(vocab.get(&104), Some(&b"hi!hi!".to_vec()));
    assert_eq!(vocab.get(&9000), Some(&b"<|end|>".to_vec()));
    assert_eq!(vocab.get(&33), Some(&vec![0xc3u8, 0xa9]));
    let (same, skipped) = build_vocab_report(&merges, &specials);
    assert_eq!(same, vocab);
    assert_eq!(skipped, vec![(500, 33)]);
}

#[test]
fn the_vocabulary_is_built_step_by_step() {
    let mut vocab = base_vocabulary();
    assert_eq!(vocab.len(), 256);
    assert!(extend_vocabulary(&mut vocab, (97, 98), 256));
    assert!(!extend_vocabulary(&mut vocab, (97, 300), 257));
    assert!(!extend_vocabulary(&mut vocab, (-1, 97), 257));
    assert!(extend_vocabulary(&mut vocab, (256, 256), 97));
    assert_eq!(vocab.get(&256), Some(&b"ab".to_vec()));
    assert_eq!(vocab.get(&97), Some(&b"abab".to_vec()));
    assert_eq!(vocab.len(), 257);
    let mut specials = indexmap::IndexMap::new();
    specials.insert(String::from("x"), 256);
    specials.insert(String::from("y"), 256);
    overlay_specials(&mut vocab, &specials);
    assert_eq!(vocab.get(&256), Some(&b"y".to_vec()));
}

#[test]
fn byte_literals_escape_what_is_not_visible() {
    assert_eq!(b_as_literal(b""), "b\"\"");
    assert_eq!(b_as_literal(b"hi there"), "b\"hi there\"");
    assert_eq!(b_as_literal(b"a\n\t\r\x0c b"), "b\"a\n\t\r\x0c b\"");
    assert_eq!(b_as_literal(&[0, 0x0b, 0x1f, 0x7f, 0x80, 0xff]), "b\"\\x00\\x0b\\x1f\\x7f\\x80\\xff\"");
    assert_eq!(b_as_literal(b"!~\"\\"), "b\"!~\"\\\"");
    assert_eq!(b_as_literal(&[0xab, 0xcd, 0xef, 0x9a]), "b\"\\xab\\xcd\\xef\\x9a\"");
}

#[test]
fn control_characters_are_escaped() {
    assert_eq!(replace_control_characters("plain text"), "plain text");
    assert_eq!(replace_control_characters("a\nb\tc"), "a\\u000ab\\u0009c");
    assert_eq!(replace_control_characters("\u{0}\u{1f}\u{7f}\u{80}\u{9f}"), "\\u0000\\u001f\\u007f\\u0080\\u009f");
    assert_eq!(replace_control_characters(" ~\u{a0}\u{e9}\u{4f60}\u{1f600}"), " ~\u{a0}\u{e9}\u{4f60}\u{1f600}");
    assert_eq!(replace_control_characters(""), "");
}

#[test]
fn tokens_are_rendered_as_text() {
    assert_eq!(render_token(b"hello"), "hello");
    assert_eq!(render_token(b"a\x01b"), "a\\u0001b");
    assert_eq!(render_token(&[0xe4, 0xbd, 0xa0]), "\u{4f60}");
    assert_eq!(render_token(&[0xff]), "\u{fffd}");
    assert_eq!(render_token(&[0x61, 0xe4, 0xbd, 0x0a]), "a\u{fffd}\\u000a");
    assert_eq!(render_token(&[0xc2, 0x85]), "\\u0085");
    assert_eq!(render_token(&[]), "");
}

#[test]
fn hex_digits_are_lower_case() {
    let digits: String = (0..16).map(hex_digit).collect();
    assert_eq!(digits, "0123456789abcdef");
}

#[test]
fn numbers_are_written_in_decimal() {
    for (n, text) in [
        (0i64, "0"),
        (7, "7"),
        (10, "10"),
        (-1, "-1"),
        (256, "256"),
        (2147483647, "2147483647"),
        (-2147483648, "-2147483648"),
        (i64::MAX, "9223372036854775807"),
        (i64::MIN, "-9223372036854775808"),
    ] {
        let mut out = vec!['x'];
        push_decimal(&mut out, n);
        assert_eq!(out.into_iter().collect::<String>(), format!("x{}", text));
    }
    let mut out = Vec::new();
    push_digits(&mut out, u64::MAX);
    assert_eq!(out.into_iter().collect::<String>(), "18446744073709551615");
}

#[test]
fn ids_are_read_from_decimal() {
    for (text, id) in [
        ("0", Some(0)),
        ("-0", Some(0)),
        ("+0", Some(0)),
        ("7", Some(7)),
        ("+7", Some(7)),
        ("-7", Some(-7)),
        ("007", Some(7)),
        ("2147483647", Some(2147483647)),
        ("+2147483647", Some(2147483647)),
        ("2147483648", None),
        ("-2147483648", Some(-2147483648)),
        ("-2147483649", None),
        ("00000000000000000000000000000000000000012", Some(12)),
        ("99999999999999999999999999999999", None),
        ("-99999999999999999999999999999999", None),
        ("", None),
        ("-", None),
        ("+", None),
        ("+-1", None),
        ("--1", None),
        ("1-", None),
        ("1a", None),
        ("a1", None),
        (" 1", None),
        ("1 ", None),
        ("1.0", None),
        ("1_000", None),
        ("\u{661}", None),
    ] {
        assert_eq!(read_id(&chars(text)), id, "reading {:?}", text);
        assert_eq!(read_id(&chars(text)), text.parse::<i32>().ok(), "reading {:?}", text);
    }
}

#[test]
fn white_space_is_what_the_standard_library_calls_white_space() {
    for code in 0..0x11_0000u32 {
        if let Some(c) = char::from_u32(code) {
            assert_eq!(is_space_char(c), c.is_whitespace(), "character {:x}", code);
        }
    }
}

#[test]
fn control_characters_are_what_the_standard_library_calls_control() {
    for code in 0..0x11_0000u32 {
        if let Some(c) = char::from_u32(code) {
            let text = c.to_string();
            assert_eq!(replace_control_characters(&text) != text, c.is_control(), "character {:x}", code);
        }
    }
}

#[test]
fn byte_literals_show_graphic_and_white_space_bytes() {
    for byte in 0..=255u8 {
        let plain = byte.is_ascii_graphic() || byte.is_ascii_whitespace();
        let expected = if plain {
            format!("b\"{}\"", byte as char)
        } else {
            format!("b\"\\x{:02x}\"", byte)
        };
        assert_eq!(b_as_literal(&[byte]), expected);
    }
}

#[test]
fn a_text_is_split_into_lines() {
    assert_eq!(texts(split_lines(&chars(""))), Vec::<String>::new());
    assert_eq!(texts(split_lines(&chars("a"))), vec!["a"]);
    assert_eq!(texts(split_lines(&chars("a\n"))), vec!["a"]);
    assert_eq!(texts(split_lines(&chars("a\nb"))), vec!["a", "b"]);
    assert_eq!(texts(split_lines(&chars("a\r\nb\r\n"))), vec!["a", "b"]);
    assert_eq!(texts(split_lines(&chars("\n\na\n\n"))), vec!["", "", "a", ""]);
    assert_eq!(texts(split_lines(&chars("a\r\r\nb\rc\nd\r"))), vec!["a\r", "b\rc", "d\r"]);
    for text in ["", "a", "a\n", "a\nb", "a\r\nb\r\n", "\n\na\n\n", "\r\n", "x\ny\r\n\r\nz"] {
        let expected: Vec<String> = text.lines().map(String::from).collect();
        assert_eq!(texts(split_lines(&chars(text))), expected);
    }
}

#[test]
fn a_line_is_split_into_words() {
    assert_eq!(texts(split_words(&chars(""))), Vec::<String>::new());
    assert_eq!(texts(split_words(&chars("   \t "))), Vec::<String>::new());
    assert_eq!(texts(split_words(&chars("a"))), vec!["a"]);
    assert_eq!(texts(split_words(&chars("ab cd"))), vec!["ab", "cd"]);
    assert_eq!(texts(split_words(&chars("  ab \t cd\u{3000}e\r\n"))), vec!["ab", "cd", "e"]);
    for text in ["", " a ", "a  b", "\u{a0}x\u{2003}y z\u{85}", "one two three four"] {
        let expected: Vec<String> = text.split_whitespace().map(String::from).collect();
        assert_eq!(texts(split_words(&chars(text))), expected);
    }
}

#[test]
fn trimming_removes_white_space_at_both_ends() {
    for text in ["", " ", "a", " a", "a ", "  a b  ", "\t\r\n x \u{a0}y\u{3000}", "   "] {
        let result: String = trimmed(&chars(text)).into_iter().collect();
        assert_eq!(result, text.trim());
    }
}

#[test]
fn strings_and_characters_convert_both_ways() {
    assert_eq!(chars_of("h\u{e9}\u{1f600}"), vec!['h', '\u{e9}', '\u{1f600}']);
    assert_eq!(chars_of(""), Vec::<char>::new());
    assert_eq!(string_of(&['h', '\u{e9}', '\u{1f600}']), "h\u{e9}\u{1f600}");
    assert_eq!(string_of(&[]), "");
    assert!(same_chars(&['a', 'b'], &['a', 'b']));
    assert!(!same_chars(&['a', 'b'], &['a', 'c']));
    assert!(!same_chars(&['a', 'b'], &['a']));
    assert!(same_chars(&[], &[]));
}

#[test]
fn the_later_of_two_merges_with_one_id_is_its_origin() {
    let mut merges = indexmap::IndexMap::new();
    merges.insert((1, 2), 256);
    merges.insert((3, 4), 257);
    merges.insert((5, 6), 256);
    let parents = merge_parents(&merges);
    assert_eq!(parents.get(&256), Some(&(5, 6)));
    assert_eq!(parents.get(&257), Some(&(3, 4)));
    assert_eq!(parents.len(), 2);
}

#[test]
fn a_listing_is_written_for_any_vocabulary() {
    let mut vocab: BTreeMap<i32, Vec<u8>> = BTreeMap::new();
    vocab.insert(i32::MAX, b"top".to_vec());
    vocab.insert(i32::MIN, b"low".to_vec());
    vocab.insert(5, b"lo".to_vec());
    vocab.insert(6, b"w\n".to_vec());
    vocab.insert(7, b"low\n".to_vec());
    vocab.insert(8, b"x".to_vec());
    let mut merges = indexmap::IndexMap::new();
    merges.insert((5, 6), 7);
    merges.insert((5, 99), 8);
    merges.insert((5, 5), 9);
    assert_eq!(
        write_vocab(&vocab, &merges),
        "[low] -2147483648\n[lo] 5\n[w\\u000a] 6\n[lo][w\\u000a] -> [low\\u000a] 7\n[x] 8\n[top] 2147483647\n"
    );
    assert_eq!(write_vocab(&BTreeMap::new(), &merges), "");
}
