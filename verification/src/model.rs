//! The model file: the text in which a merge table, the special tokens and
//! the pattern are stored, and reading them back from it.
//!
//! The first line is the format tag, the second the pattern, the third the
//! number of special tokens. Then come the special tokens, one line each with
//! the token and its id, and then the merges, one line each with the two ids of
//! the pair, in the order learned. The id of a merge is not written: it is 256
//! plus the merge's position.

use crate::error::{BpeError, FormatFault};
use crate::layout::{is_line, is_plain, is_trimmed, is_word, joined, lines, rows, trim, words};
use crate::layout::{lemma_lines_joined, lemma_words_pair};
use crate::layout::{lemma_lines_plain, lemma_trim, lemma_words};
use crate::layout::{split_lines, split_words, trimmed};
use crate::number::{decimal, is_digit, parse_id, push_decimal, push_digits, read_id};
use crate::number::{lemma_decimal_chars, lemma_parse_decimal};
use crate::table::{distinct_keys, inserted, lemma_inserted_distinct, lemma_key_index};
use crate::table::{merge_entries, merges_get_index, merges_insert, merges_len, merges_new};
use crate::table::{special_entries, specials_get_index, specials_insert, specials_len, specials_new};
use crate::text::{chars_of, string_of};
use crate::training::FIRST_MERGE_ID;
use indexmap::IndexMap;
use vstd::prelude::*;

verus! {

/// The format tag: the first line of a model file.
pub open spec fn tag() -> Seq<char> {
    "minbpe v1"@
}

/// The line of a special token: the token, a blank, and its id.
pub open spec fn special_line(entry: (Seq<char>, i32)) -> Seq<char> {
    entry.0 + seq![' '] + decimal(entry.1 as int)
}

/// The line of a merge: the two ids of its pair, with a blank between them.
pub open spec fn merge_line(entry: ((i32, i32), i32)) -> Seq<char> {
    decimal(entry.0.0 as int) + seq![' '] + decimal(entry.0.1 as int)
}

/// The lines of the special tokens, in table order.
pub open spec fn special_lines(specials: Seq<(Seq<char>, i32)>) -> Seq<Seq<char>>
    decreases specials.len(),
{
    if specials.len() == 0 {
        Seq::empty()
    } else {
        special_lines(specials.drop_last()).push(special_line(specials.last()))
    }
}

/// The lines of the merges, in table order.
pub open spec fn merge_lines(merges: Seq<((i32, i32), i32)>) -> Seq<Seq<char>>
    decreases merges.len(),
{
    if merges.len() == 0 {
        Seq::empty()
    } else {
        merge_lines(merges.drop_last()).push(merge_line(merges.last()))
    }
}

/// The three lines that a model file starts with.
pub open spec fn header_lines(pattern: Seq<char>, count: int) -> Seq<Seq<char>> {
    seq![tag(), pattern, decimal(count)]
}

/// The lines of the model file of a pattern, special tokens and merges.
pub open spec fn model_lines(
    pattern: Seq<char>,
    specials: Seq<(Seq<char>, i32)>,
    merges: Seq<((i32, i32), i32)>,
) -> Seq<Seq<char>> {
    header_lines(pattern, specials.len() as int) + special_lines(specials) + merge_lines(merges)
}

/// The text of the model file of a pattern, special tokens and merges.
pub open spec fn model_text(
    pattern: Seq<char>,
    specials: Seq<(Seq<char>, i32)>,
    merges: Seq<((i32, i32), i32)>,
) -> Seq<char> {
    joined(model_lines(pattern, specials, merges))
}

/// Appends the characters `line` and a line feed to `out`.
fn push_line(out: &mut Vec<char>, line: &[char])
    ensures
        final(out)@ == old(out)@ + line@ + seq!['\n'],
{
    let mut i: usize = 0;
    while i < line.len()
        invariant
            i <= line.len(),
            out@ == old(out)@ + line@.take(i as int),
        decreases line.len() - i,
    {
        out.push(line[i]);
        i += 1;
        assert(out@ =~= old(out)@ + line@.take(i as int));
    }
    assert(line@.take(line.len() as int) == line@);
    out.push('\n');
}

/// Writes the model file of a pattern, special tokens and a merge table.
pub fn write_model(
    pattern: &str,
    special_tokens: &IndexMap<String, i32>,
    merges: &IndexMap<(i32, i32), i32>,
) -> (text: String)
    ensures
        text@ == model_text(pattern@, special_entries(*special_tokens), merge_entries(*merges)),
{
    let ghost specials = special_entries(*special_tokens);
    let ghost table = merge_entries(*merges);
    let ghost header = header_lines(pattern@, specials.len() as int);
    let mut out: Vec<char> = Vec::new();
    let tag_chars = chars_of("minbpe v1");
    push_line(&mut out, tag_chars.as_slice());
    let pattern_chars = chars_of(pattern);
    push_line(&mut out, pattern_chars.as_slice());
    let count = specials_len(special_tokens);
    let mut count_chars: Vec<char> = Vec::new();
    push_digits(&mut count_chars, count as u64);
    push_line(&mut out, count_chars.as_slice());
    proof {
        let h1 = seq![tag()];
        let h2 = seq![tag(), pattern@];
        assert(h1.drop_last() =~= Seq::<Seq<char>>::empty());
        assert(joined(h1.drop_last()) =~= Seq::<char>::empty());
        assert(h2.drop_last() =~= h1);
        assert(header.drop_last() =~= h2);
        assert(count_chars@ =~= decimal(count as int));
        assert(joined(h1) =~= tag() + seq!['\n']);
        assert(joined(h2) =~= joined(h1) + pattern@ + seq!['\n']);
        assert(joined(header) =~= joined(h2) + decimal(count as int) + seq!['\n']);
        assert(out@ =~= joined(header));
        assert(header + special_lines(specials.take(0)) =~= header);
    }
    let mut i: usize = 0;
    while i < count
        invariant
            i <= count == specials.len(),
            specials == special_entries(*special_tokens),
            header == header_lines(pattern@, specials.len() as int),
            out@ == joined(header + special_lines(specials.take(i as int))),
        decreases count - i,
    {
        if let Some((token, id)) = specials_get_index(special_tokens, i) {
            let mut line = chars_of(token.as_str());
            line.push(' ');
            push_decimal(&mut line, id as i64);
            proof {
                let done = header + special_lines(specials.take(i as int));
                let next = header + special_lines(specials.take(i + 1));
                assert(specials.take(i + 1).drop_last() == specials.take(i as int));
                assert(line@ =~= special_line(specials[i as int]));
                assert(next =~= done.push(line@));
                assert(next.drop_last() =~= done);
            }
            push_line(&mut out, line.as_slice());
        }
        i += 1;
    }
    let total = merges_len(merges);
    let ghost top = header + special_lines(specials);
    proof {
        assert(specials.take(count as int) == specials);
        assert(top + merge_lines(table.take(0)) =~= top);
    }
    let mut j: usize = 0;
    while j < total
        invariant
            j <= total == table.len(),
            table == merge_entries(*merges),
            out@ == joined(top + merge_lines(table.take(j as int))),
        decreases total - j,
    {
        if let Some((pair, _id)) = merges_get_index(merges, j) {
            let mut line: Vec<char> = Vec::new();
            push_decimal(&mut line, pair.0 as i64);
            line.push(' ');
            push_decimal(&mut line, pair.1 as i64);
            proof {
                let done = top + merge_lines(table.take(j as int));
                let next = top + merge_lines(table.take(j + 1));
                assert(table.take(j + 1).drop_last() == table.take(j as int));
                assert(line@ =~= merge_line(table[j as int]));
                assert(next =~= done.push(line@));
                assert(next.drop_last() =~= done);
            }
            push_line(&mut out, line.as_slice());
        }
        j += 1;
    }
    proof {
        assert(table.take(total as int) == table);
    }
    string_of(out.as_slice())
}

/// What a model file holds.
pub struct Model {
    pub pattern: Seq<char>,
    pub specials: Seq<(Seq<char>, i32)>,
    pub merges: Seq<((i32, i32), i32)>,
}

/// What the line of a special token holds: two words, the token and its id.
pub open spec fn parse_special(line: Seq<char>) -> Result<(Seq<char>, i32), FormatFault> {
    let ws = words(line);
    if ws.len() != 2 {
        Err(FormatFault::WrongFieldCount)
    } else {
        match parse_id(ws[1]) {
            Some(id) => Ok((ws[0], id)),
            None => Err(FormatFault::NotANumber),
        }
    }
}

/// What the line of a merge holds: two words, the ids of the pair.
pub open spec fn parse_merge(line: Seq<char>) -> Result<(i32, i32), FormatFault> {
    let ws = words(line);
    if ws.len() != 2 {
        Err(FormatFault::WrongFieldCount)
    } else {
        match (parse_id(ws[0]), parse_id(ws[1])) {
            (Some(left), Some(right)) => Ok((left, right)),
            _ => Err(FormatFault::NotANumber),
        }
    }
}

/// The special-token table that the lines `ls` give, read in order and
/// inserted one by one; or the first fault, with its line, where `first` is
/// the number of the first of the lines.
pub open spec fn parse_specials(ls: Seq<Seq<char>>, first: int) -> Result<
    Seq<(Seq<char>, i32)>,
    (int, FormatFault),
>
    decreases ls.len(),
{
    if ls.len() == 0 {
        Ok(Seq::empty())
    } else {
        match parse_specials(ls.drop_last(), first) {
            Err(e) => Err(e),
            Ok(table) => match parse_special(ls.last()) {
                Err(fault) => Err((first + ls.len() - 1, fault)),
                Ok(entry) => Ok(inserted(table, entry.0, entry.1)),
            },
        }
    }
}

/// The merge table that the lines `ls` give, read in order and inserted one
/// by one, the merge of line `k` with the id `256 + k`; or the first fault,
/// with its line, where `first` is the number of the first of the lines.
pub open spec fn parse_merges(ls: Seq<Seq<char>>, first: int) -> Result<
    Seq<((i32, i32), i32)>,
    (int, FormatFault),
>
    decreases ls.len(),
{
    if ls.len() == 0 {
        Ok(Seq::empty())
    } else {
        match parse_merges(ls.drop_last(), first) {
            Err(e) => Err(e),
            Ok(table) => match parse_merge(ls.last()) {
                Err(fault) => Err((first + ls.len() - 1, fault)),
                Ok(pair) => if FIRST_MERGE_ID + ls.len() - 1 > i32::MAX {
                    Err((first + ls.len() - 1, FormatFault::TooManyMerges))
                } else {
                    Ok(inserted(table, pair, (FIRST_MERGE_ID + ls.len() - 1) as i32))
                },
            },
        }
    }
}

/// The number of special-token lines that the count line announces.
pub open spec fn announced(count: i32) -> int {
    if count < 0 {
        0
    } else {
        count as int
    }
}

/// What the lines `ls` of a model file hold, or the first fault with its
/// line (counted from 0).
pub open spec fn parse_model(ls: Seq<Seq<char>>) -> Result<Model, (int, FormatFault)> {
    if ls.len() < 1 {
        Err((0, FormatFault::Truncated))
    } else if trim(ls[0]) != tag() {
        Err((0, FormatFault::BadTag))
    } else if ls.len() < 2 {
        Err((1, FormatFault::Truncated))
    } else if ls.len() < 3 {
        Err((2, FormatFault::Truncated))
    } else {
        match parse_id(ls[2]) {
            None => Err((2, FormatFault::NotANumber)),
            Some(count) => {
                let n = announced(count);
                let end = specials_end(ls.len() as int, n);
                match parse_specials(ls.subrange(3, end), 3) {
                    Err(e) => Err(e),
                    Ok(specials) => if ls.len() < 3 + n {
                        Err((ls.len() as int, FormatFault::Truncated))
                    } else {
                        match parse_merges(ls.skip(end), end) {
                            Err(e) => Err(e),
                            Ok(merges) => Ok(Model { pattern: trim(ls[1]), specials, merges }),
                        }
                    },
                }
            },
        }
    }
}

/// Whether a pattern, special tokens and merges can be read back from their
/// model file: the pattern is one line without white space at its ends, the
/// special tokens are words, and the counts stay within the ids.
pub open spec fn storable(
    pattern: Seq<char>,
    specials: Seq<(Seq<char>, i32)>,
    merges: Seq<((i32, i32), i32)>,
) -> bool {
    &&& is_plain(pattern)
    &&& is_trimmed(pattern)
    &&& forall|i: int| 0 <= i < specials.len() ==> is_word((#[trigger] specials[i]).0)
    &&& specials.len() <= i32::MAX
    &&& FIRST_MERGE_ID + merges.len() <= i32::MAX + 1
}

/// A fault among the first lines stays the fault of all lines.
pub proof fn lemma_specials_fault_stays(ls: Seq<Seq<char>>, k: int, first: int)
    requires
        0 <= k <= ls.len(),
        parse_specials(ls.take(k), first) is Err,
    ensures
        parse_specials(ls, first) == parse_specials(ls.take(k), first),
    decreases ls.len() - k,
{
    if k < ls.len() {
        assert(ls.take(k + 1).drop_last() == ls.take(k));
        lemma_specials_fault_stays(ls, k + 1, first);
    } else {
        assert(ls.take(k) == ls);
    }
}

/// A fault among the first lines stays the fault of all lines.
pub proof fn lemma_merges_fault_stays(ls: Seq<Seq<char>>, k: int, first: int)
    requires
        0 <= k <= ls.len(),
        parse_merges(ls.take(k), first) is Err,
    ensures
        parse_merges(ls, first) == parse_merges(ls.take(k), first),
    decreases ls.len() - k,
{
    if k < ls.len() {
        assert(ls.take(k + 1).drop_last() == ls.take(k));
        lemma_merges_fault_stays(ls, k + 1, first);
    } else {
        assert(ls.take(k) == ls);
    }
}

/// Reads the line of a special token.
pub fn read_special(line: &[char]) -> (r: Result<(String, i32), FormatFault>)
    ensures
        match r {
            Ok(entry) => parse_special(line@) == Ok::<(Seq<char>, i32), FormatFault>(
                (entry.0@, entry.1),
            ) && is_word(entry.0@),
            Err(fault) => parse_special(line@) == Err::<(Seq<char>, i32), FormatFault>(fault),
        },
{
    let ws = split_words(line);
    proof {
        lemma_words(line@);
    }
    if ws.len() != 2 {
        return Err(FormatFault::WrongFieldCount);
    }
    assert(rows(ws@)[0] == ws@[0]@ && rows(ws@)[1] == ws@[1]@);
    match read_id(ws[1].as_slice()) {
        Some(id) => Ok((string_of(ws[0].as_slice()), id)),
        None => Err(FormatFault::NotANumber),
    }
}

/// Reads the line of a merge.
pub fn read_merge(line: &[char]) -> (r: Result<(i32, i32), FormatFault>)
    ensures
        r == parse_merge(line@),
{
    let ws = split_words(line);
    if ws.len() != 2 {
        return Err(FormatFault::WrongFieldCount);
    }
    assert(rows(ws@)[0] == ws@[0]@ && rows(ws@)[1] == ws@[1]@);
    match (read_id(ws[0].as_slice()), read_id(ws[1].as_slice())) {
        (Some(left), Some(right)) => Ok((left, right)),
        _ => Err(FormatFault::NotANumber),
    }
}

/// The end of the special-token lines among `len` lines, of which the count
/// line announces `n`: line `3 + n`, or the end of the file where that comes
/// first.
pub open spec fn specials_end(len: int, n: int) -> int {
    if 3 + n <= len {
        3 + n
    } else {
        len
    }
}

/// Reads the special-token lines: `n` lines from line 3 on.
fn read_specials(ls: &Vec<Vec<char>>, n: usize) -> (r: Result<IndexMap<String, i32>, BpeError>)
    requires
        3 <= ls.len(),
    ensures
        match parse_specials(rows(ls@).subrange(3, specials_end(ls.len() as int, n as int)), 3) {
            Err(e) => r matches Err(error) && error == (BpeError::FormatError {
                line: e.0 as usize,
                fault: e.1,
            }),
            Ok(table) => if ls.len() < 3 + n {
                r matches Err(error) && error == (BpeError::FormatError {
                    line: ls.len(),
                    fault: FormatFault::Truncated,
                })
            } else {
                &&& r matches Ok(specials) && special_entries(specials) == table
                &&& distinct_keys(table)
                &&& table.len() <= n
                &&& forall|i: int| 0 <= i < table.len() ==> is_word((#[trigger] table[i]).0)
            },
        },
{
    let ghost all = rows(ls@);
    let ghost end = specials_end(ls.len() as int, n as int);
    let ghost section = all.subrange(3, end);
    let mut specials = specials_new();
    let mut k: usize = 0;
    assert(section.take(0) =~= Seq::<Seq<char>>::empty());
    while k < n
        invariant
            all == rows(ls@),
            3 <= ls.len(),
            end == specials_end(ls.len() as int, n as int),
            section == all.subrange(3, end),
            k <= n,
            3 + k <= end,
            parse_specials(section.take(k as int), 3) == Ok::<
                Seq<(Seq<char>, i32)>,
                (int, FormatFault),
            >(special_entries(specials)),
            distinct_keys(special_entries(specials)),
            forall|i: int|
                0 <= i < special_entries(specials).len() ==> is_word(
                    (#[trigger] special_entries(specials)[i]).0,
                ),
            special_entries(specials).len() <= k,
        decreases n - k,
    {
        if 3 + k >= ls.len() {
            proof {
                assert(section.take(k as int) == section);
            }
            return Err(BpeError::FormatError { line: ls.len(), fault: FormatFault::Truncated });
        }
        let ghost table = special_entries(specials);
        proof {
            assert(all[3 + k] == ls@[3 + k]@);
            assert(section[k as int] == all[3 + k]);
            assert(section.take(k + 1).drop_last() == section.take(k as int));
            assert(section.take(k + 1).last() == section[k as int]);
        }
        match read_special(ls[3 + k].as_slice()) {
            Ok((token, id)) => {
                proof {
                    lemma_inserted_distinct(table, token@, id);
                    lemma_key_index(table, token@);
                }
                specials_insert(&mut specials, token, id);
            },
            Err(fault) => {
                proof {
                    lemma_specials_fault_stays(section, k + 1, 3);
                }
                return Err(BpeError::FormatError { line: 3 + k, fault });
            },
        }
        k += 1;
    }
    assert(section.take(n as int) == section);
    Ok(specials)
}

/// Reads the merge lines: all lines from line `start` on.
fn read_merges(ls: &Vec<Vec<char>>, start: usize) -> (r: Result<
    IndexMap<(i32, i32), i32>,
    BpeError,
>)
    requires
        start <= ls.len(),
    ensures
        match parse_merges(rows(ls@).skip(start as int), start as int) {
            Err(e) => r matches Err(error) && error == (BpeError::FormatError {
                line: e.0 as usize,
                fault: e.1,
            }),
            Ok(table) => {
                &&& r matches Ok(merges) && merge_entries(merges) == table
                &&& distinct_keys(table)
                &&& FIRST_MERGE_ID + table.len() <= i32::MAX + 1
            },
        },
{
    let ghost all = rows(ls@);
    let ghost rest = all.skip(start as int);
    let mut merges = merges_new();
    let mut j: usize = start;
    assert(rest.take(0) =~= Seq::<Seq<char>>::empty());
    while j < ls.len()
        invariant
            all == rows(ls@),
            start <= j <= ls.len(),
            rest == all.skip(start as int),
            parse_merges(rest.take(j - start), start as int) == Ok::<
                Seq<((i32, i32), i32)>,
                (int, FormatFault),
            >(merge_entries(merges)),
            distinct_keys(merge_entries(merges)),
            merge_entries(merges).len() <= j - start,
            FIRST_MERGE_ID + (j - start) <= i32::MAX + 1,
        decreases ls.len() - j,
    {
        let ghost table = merge_entries(merges);
        proof {
            assert(all[j as int] == ls@[j as int]@);
            assert(rest[j - start] == all[j as int]);
            assert(rest.take(j - start + 1).drop_last() == rest.take(j - start));
            assert(rest.take(j - start + 1).last() == rest[j - start]);
        }
        match read_merge(ls[j].as_slice()) {
            Ok(pair) => {
                if j - start > 0x7fff_ffff - 256 {
                    proof {
                        lemma_merges_fault_stays(rest, j - start + 1, start as int);
                    }
                    return Err(
                        BpeError::FormatError { line: j, fault: FormatFault::TooManyMerges },
                    );
                }
                let idx: i32 = 256 + (j - start) as i32;
                proof {
                    lemma_inserted_distinct(table, pair, idx);
                    lemma_key_index(table, pair);
                }
                merges_insert(&mut merges, pair, idx);
            },
            Err(fault) => {
                proof {
                    lemma_merges_fault_stays(rest, j - start + 1, start as int);
                }
                return Err(BpeError::FormatError { line: j, fault });
            },
        }
        j += 1;
    }
    assert(rest.take(ls.len() - start) == rest);
    Ok(merges)
}

/// Reads a model file: the pattern, the special tokens and the merge table
/// that it holds; or the first fault in it.
pub fn read_model(contents: &str) -> (r: Result<
    (String, IndexMap<String, i32>, IndexMap<(i32, i32), i32>),
    BpeError,
>)
    ensures
        match parse_model(lines(contents@)) {
            Ok(model) => match r {
                Ok(loaded) => {
                    &&& loaded.0@ == model.pattern
                    &&& special_entries(loaded.1) == model.specials
                    &&& merge_entries(loaded.2) == model.merges
                    &&& storable(model.pattern, model.specials, model.merges)
                    &&& distinct_keys(model.specials)
                    &&& distinct_keys(model.merges)
                },
                Err(_) => false,
            },
            Err(e) => match r {
                Ok(_) => false,
                Err(error) => error == (BpeError::FormatError { line: e.0 as usize, fault: e.1 }),
            },
        },
{
    let chars = chars_of(contents);
    let ls = split_lines(chars.as_slice());
    let ghost all = rows(ls@);
    proof {
        lemma_lines_plain(contents@);
    }
    if ls.len() < 1 {
        return Err(BpeError::FormatError { line: 0, fault: FormatFault::Truncated });
    }
    assert(all[0] == ls@[0]@);
    let first = trimmed(ls[0].as_slice());
    let tag_chars = chars_of("minbpe v1");
    if !crate::text::same_chars(first.as_slice(), tag_chars.as_slice()) {
        return Err(BpeError::FormatError { line: 0, fault: FormatFault::BadTag });
    }
    if ls.len() < 2 {
        return Err(BpeError::FormatError { line: 1, fault: FormatFault::Truncated });
    }
    assert(all[1] == ls@[1]@);
    let pattern_chars = trimmed(ls[1].as_slice());
    proof {
        lemma_trim(all[1]);
    }
    if ls.len() < 3 {
        return Err(BpeError::FormatError { line: 2, fault: FormatFault::Truncated });
    }
    assert(all[2] == ls@[2]@);
    let count = match read_id(ls[2].as_slice()) {
        Some(count) => count,
        None => {
            return Err(BpeError::FormatError { line: 2, fault: FormatFault::NotANumber });
        },
    };
    let n: usize = if count < 0 {
        0
    } else {
        count as usize
    };
    let specials = match read_specials(&ls, n) {
        Ok(specials) => specials,
        Err(error) => {
            return Err(error);
        },
    };
    let merges = match read_merges(&ls, 3 + n) {
        Ok(merges) => merges,
        Err(error) => {
            return Err(error);
        },
    };
    Ok((string_of(pattern_chars.as_slice()), specials, merges))
}

/// A merge table with its ids given anew: the entry at position `k` gets the
/// id `256 + k`.
pub open spec fn renumbered(merges: Seq<((i32, i32), i32)>) -> Seq<((i32, i32), i32)> {
    Seq::new(merges.len(), |k: int| (merges[k].0, (FIRST_MERGE_ID + k) as i32))
}

/// The decimal form of an integer is a word and can stand at the end of a
/// line.
pub proof fn lemma_decimal_word(n: int)
    ensures
        is_word(decimal(n)),
        is_line(decimal(n)),
{
    lemma_decimal_chars(n);
    let d = decimal(n);
    assert forall|i: int| 0 <= i < d.len() implies !crate::layout::is_space(#[trigger] d[i])
        && d[i] != '\n' by {
        assert(is_digit(d[i]) || d[i] == '-');
    }
}

/// The line of a special token whose token is a word reads back as the
/// entry, and is a line.
pub proof fn lemma_special_line(entry: (Seq<char>, i32))
    requires
        is_word(entry.0),
    ensures
        parse_special(special_line(entry)) == Ok::<(Seq<char>, i32), FormatFault>(entry),
        is_line(special_line(entry)),
{
    let d = decimal(entry.1 as int);
    let line = special_line(entry);
    lemma_decimal_word(entry.1 as int);
    lemma_decimal_chars(entry.1 as int);
    lemma_parse_decimal(entry.1 as int);
    lemma_words_pair(entry.0, d);
    assert(words(line)[1] == d && words(line)[0] == entry.0);
    assert(line.last() == d.last());
    assert forall|i: int| 0 <= i < line.len() implies #[trigger] line[i] != '\n' by {
        if i < entry.0.len() {
            assert(line[i] == entry.0[i]);
        } else if i > entry.0.len() {
            assert(line[i] == d[i - entry.0.len() - 1]);
        }
    }
}

/// The line of a merge reads back as the pair of the merge, and is a line.
pub proof fn lemma_merge_line(entry: ((i32, i32), i32))
    ensures
        parse_merge(merge_line(entry)) == Ok::<(i32, i32), FormatFault>(entry.0),
        is_line(merge_line(entry)),
{
    let left = decimal(entry.0.0 as int);
    let right = decimal(entry.0.1 as int);
    let line = merge_line(entry);
    lemma_decimal_word(entry.0.0 as int);
    lemma_decimal_word(entry.0.1 as int);
    lemma_decimal_chars(entry.0.1 as int);
    lemma_parse_decimal(entry.0.0 as int);
    lemma_parse_decimal(entry.0.1 as int);
    lemma_words_pair(left, right);
    assert(words(line)[1] == right && words(line)[0] == left);
    assert(line.last() == right.last());
    assert forall|i: int| 0 <= i < line.len() implies #[trigger] line[i] != '\n' by {
        if i < left.len() {
            assert(line[i] == left[i]);
        } else if i > left.len() {
            assert(line[i] == right[i - left.len() - 1]);
        }
    }
}

/// The lines of special tokens that are words, with distinct tokens, read
/// back as the table.
pub proof fn lemma_special_lines(specials: Seq<(Seq<char>, i32)>, first: int)
    requires
        distinct_keys(specials),
        forall|i: int| 0 <= i < specials.len() ==> is_word((#[trigger] specials[i]).0),
    ensures
        special_lines(specials).len() == specials.len(),
        forall|k: int|
            0 <= k < special_lines(specials).len() ==> is_line(#[trigger] special_lines(specials)[k]),
        parse_specials(special_lines(specials), first) == Ok::<
            Seq<(Seq<char>, i32)>,
            (int, FormatFault),
        >(specials),
    decreases specials.len(),
{
    if specials.len() > 0 {
        let front = specials.drop_last();
        let e = specials.last();
        assert forall|i: int| 0 <= i < front.len() implies is_word((#[trigger] front[i]).0) by {
            assert(front[i] == specials[i]);
        }
        assert(distinct_keys(front)) by {
            assert forall|i: int, j: int| 0 <= i < j < front.len() implies (#[trigger] front[i]).0
                != (#[trigger] front[j]).0 by {
                assert(front[i] == specials[i] && front[j] == specials[j]);
            }
        }
        lemma_special_lines(front, first);
        assert(e == specials[specials.len() - 1]);
        lemma_special_line(e);
        let ls = special_lines(specials);
        assert(ls.drop_last() =~= special_lines(front));
        assert(ls.last() == special_line(e));
        lemma_key_index(front, e.0);
        assert(crate::table::key_index(front, e.0) is None) by {
            if crate::table::key_index(front, e.0) is Some {
                let i = crate::table::key_index(front, e.0)->0;
                assert(specials[i] == front[i]);
            }
        }
        assert(inserted(front, e.0, e.1) =~= specials);
        assert(parse_specials(ls.drop_last(), first) == Ok::<
            Seq<(Seq<char>, i32)>,
            (int, FormatFault),
        >(front));
        assert forall|k: int| 0 <= k < ls.len() implies is_line(#[trigger] ls[k]) by {
            if k < ls.len() - 1 {
                assert(ls[k] == special_lines(front)[k]);
            }
        }
    } else {
        assert(specials =~= Seq::<(Seq<char>, i32)>::empty());
    }
}

/// The lines of merges with distinct pairs read back as the table with its
/// ids given anew, and the ids do not show in the lines.
pub proof fn lemma_merge_lines(merges: Seq<((i32, i32), i32)>, first: int)
    requires
        distinct_keys(merges),
        FIRST_MERGE_ID + merges.len() <= i32::MAX + 1,
    ensures
        merge_lines(merges).len() == merges.len(),
        forall|k: int|
            0 <= k < merge_lines(merges).len() ==> is_line(#[trigger] merge_lines(merges)[k]),
        parse_merges(merge_lines(merges), first) == Ok::<
            Seq<((i32, i32), i32)>,
            (int, FormatFault),
        >(renumbered(merges)),
        merge_lines(renumbered(merges)) == merge_lines(merges),
    decreases merges.len(),
{
    if merges.len() > 0 {
        let front = merges.drop_last();
        let e = merges.last();
        assert(distinct_keys(front)) by {
            assert forall|i: int, j: int| 0 <= i < j < front.len() implies (#[trigger] front[i]).0
                != (#[trigger] front[j]).0 by {
                assert(front[i] == merges[i] && front[j] == merges[j]);
            }
        }
        lemma_merge_lines(front, first);
        assert(e == merges[merges.len() - 1]);
        lemma_merge_line(e);
        let ls = merge_lines(merges);
        assert(ls.drop_last() =~= merge_lines(front));
        assert(ls.last() == merge_line(e));
        let again = renumbered(front);
        lemma_key_index(again, e.0);
        assert(crate::table::key_index(again, e.0) is None) by {
            if crate::table::key_index(again, e.0) is Some {
                let i = crate::table::key_index(again, e.0)->0;
                assert(again[i].0 == front[i].0);
                assert(merges[i] == front[i]);
            }
        }
        let idx = (FIRST_MERGE_ID + ls.len() - 1) as i32;
        assert(inserted(again, e.0, idx) =~= renumbered(merges));
        assert(parse_merges(ls.drop_last(), first) == Ok::<
            Seq<((i32, i32), i32)>,
            (int, FormatFault),
        >(again));
        assert forall|k: int| 0 <= k < ls.len() implies is_line(#[trigger] ls[k]) by {
            if k < ls.len() - 1 {
                assert(ls[k] == merge_lines(front)[k]);
            }
        }
        assert(renumbered(merges).drop_last() =~= again);
        assert(merge_line(renumbered(merges).last()) == merge_line(e));
    } else {
        assert(renumbered(merges) =~= Seq::<((i32, i32), i32)>::empty());
        assert(renumbered(merges) =~= merges);
    }
}

/// The format tag is a line without white space at its ends.
pub proof fn lemma_tag()
    ensures
        is_line(tag()),
        is_trimmed(tag()),
{
    reveal_strlit("minbpe v1");
    let t = tag();
    assert(t.len() == 9);
    assert(t[0] == 'm' && t[1] == 'i' && t[2] == 'n' && t[3] == 'b' && t[4] == 'p' && t[5] == 'e'
        && t[6] == ' ' && t[7] == 'v' && t[8] == '1');
}

/// What can be stored is read back from its model file: the pattern and the
/// special tokens as they are, and the merges in their order, with the ids
/// that their positions give them. Writing what was read gives the same file.
pub proof fn lemma_model_round_trip(
    pattern: Seq<char>,
    specials: Seq<(Seq<char>, i32)>,
    merges: Seq<((i32, i32), i32)>,
)
    requires
        storable(pattern, specials, merges),
        distinct_keys(specials),
        distinct_keys(merges),
    ensures
        parse_model(lines(model_text(pattern, specials, merges))) matches Ok(model)
            && model.pattern == pattern && model.specials == specials && model.merges
            == renumbered(merges),
        model_text(pattern, specials, renumbered(merges)) == model_text(pattern, specials, merges),
{
    let n = specials.len() as int;
    let header = header_lines(pattern, n);
    let sl = special_lines(specials);
    let ml = merge_lines(merges);
    let all = model_lines(pattern, specials, merges);
    lemma_tag();
    lemma_decimal_word(n);
    lemma_parse_decimal(n);
    lemma_special_lines(specials, 3);
    lemma_merge_lines(merges, 3 + n);
    crate::layout::lemma_trim(tag());
    crate::layout::lemma_trim(pattern);
    assert(all[0] == tag() && all[1] == pattern && all[2] == decimal(n));
    assert(is_line(pattern)) by {
        if pattern.len() > 0 {
            assert(!crate::layout::is_space(pattern.last()));
        }
    }
    assert forall|k: int| 0 <= k < all.len() implies is_line(#[trigger] all[k]) by {
        if k >= 3 + n {
            assert(all[k] == ml[k - 3 - n]);
        } else if k >= 3 {
            assert(all[k] == sl[k - 3]);
        }
    }
    lemma_lines_joined(all);
    assert(all.subrange(3, 3 + n) =~= sl);
    assert(all.skip(3 + n) =~= ml);
    assert(specials_end(all.len() as int, n) == 3 + n);
    assert(parse_id(all[2]) == Some(n as i32));
    assert(announced(n as i32) == n);
}

} // verus!
