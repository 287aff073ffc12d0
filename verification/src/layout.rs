//! The layout of a text: its lines, the words of a line, and trimming.

use vstd::prelude::*;

verus! {

/// Whether `c` is white space: one of the characters U+0009 to U+000D,
/// U+0020, U+0085, U+00A0, U+1680, U+2000 to U+200A, U+2028, U+2029, U+202F,
/// U+205F and U+3000.
pub open spec fn is_space(c: char) -> bool {
    ||| '\u{9}' <= c <= '\u{d}'
    ||| c == ' '
    ||| c == '\u{85}'
    ||| c == '\u{a0}'
    ||| c == '\u{1680}'
    ||| '\u{2000}' <= c <= '\u{200a}'
    ||| c == '\u{2028}'
    ||| c == '\u{2029}'
    ||| c == '\u{202f}'
    ||| c == '\u{205f}'
    ||| c == '\u{3000}'
}

/// Tells whether `c` is white space.
pub fn is_space_char(c: char) -> (b: bool)
    ensures
        b == is_space(c),
{
    (c >= '\u{9}' && c <= '\u{d}') || c == ' ' || c == '\u{85}' || c == '\u{a0}' || c
        == '\u{1680}' || (c >= '\u{2000}' && c <= '\u{200a}') || c == '\u{2028}' || c
        == '\u{2029}' || c == '\u{202f}' || c == '\u{205f}' || c == '\u{3000}'
}

/// The character sequences that a sequence of vectors holds.
pub open spec fn rows(v: Seq<Vec<char>>) -> Seq<Seq<char>> {
    Seq::new(v.len(), |i: int| v[i]@)
}

/// Whether `w` is a word: not empty and free of white space.
pub open spec fn is_word(w: Seq<char>) -> bool {
    w.len() > 0 && forall|i: int| 0 <= i < w.len() ==> !is_space(#[trigger] w[i])
}

/// The words of `s`: its maximal runs of characters that are not white
/// space, from left to right.
pub open spec fn words(s: Seq<char>) -> Seq<Seq<char>>
    decreases s.len(),
{
    if s.len() == 0 {
        Seq::empty()
    } else {
        let front = s.drop_last();
        let before = words(front);
        if is_space(s.last()) {
            before
        } else if front.len() > 0 && !is_space(front.last()) {
            before.drop_last().push(before.last().push(s.last()))
        } else {
            before.push(seq![s.last()])
        }
    }
}

/// Splits `s` into its words.
pub fn split_words(s: &[char]) -> (ws: Vec<Vec<char>>)
    ensures
        rows(ws@) == words(s@),
{
    let mut ws: Vec<Vec<char>> = Vec::new();
    let mut current: Vec<char> = Vec::new();
    let mut i: usize = 0;
    assert(rows(ws@) =~= words(s@.take(0)));
    while i < s.len()
        invariant
            i <= s.len(),
            current.len() > 0 <==> i > 0 && !is_space(s@[i - 1]),
            current.len() > 0 ==> words(s@.take(i as int)) == rows(ws@).push(current@),
            current.len() == 0 ==> words(s@.take(i as int)) == rows(ws@),
        decreases s.len() - i,
    {
        let c = s[i];
        proof {
            assert(s@.take(i + 1).drop_last() == s@.take(i as int));
            assert(s@.take(i + 1).last() == c);
            if i > 0 {
                assert(s@.take(i as int).last() == s@[i - 1]);
            }
        }
        if is_space_char(c) {
            if current.len() > 0 {
                let ghost before = rows(ws@);
                ws.push(current);
                current = Vec::new();
                assert(rows(ws@) =~= words(s@.take(i + 1)));
            }
        } else {
            let ghost w = current@;
            current.push(c);
            proof {
                let before = words(s@.take(i as int));
                if w.len() > 0 {
                    assert(before.drop_last() =~= rows(ws@));
                    assert(before.last() == w);
                    assert(words(s@.take(i + 1)) == before.drop_last().push(before.last().push(c)));
                } else {
                    assert(current@ =~= seq![c]);
                    assert(words(s@.take(i + 1)) == before.push(seq![c]));
                }
            }
        }
        i += 1;
    }
    assert(s@.take(s.len() as int) == s@);
    if current.len() > 0 {
        ws.push(current);
        assert(rows(ws@) =~= words(s@));
    }
    ws
}

/// A line without the carriage return that may end it.
pub open spec fn strip_cr(l: Seq<char>) -> Seq<char> {
    if l.len() > 0 && l.last() == '\r' {
        l.drop_last()
    } else {
        l
    }
}

/// The characters of `s` after its last line feed: the line that is not
/// ended yet.
pub open spec fn open_line(s: Seq<char>) -> Seq<char>
    decreases s.len(),
{
    if s.len() == 0 || s.last() == '\n' {
        Seq::empty()
    } else {
        open_line(s.drop_last()).push(s.last())
    }
}

/// The lines of `s` that a line feed ends, each without that line feed and
/// without a carriage return before it.
pub open spec fn closed_lines(s: Seq<char>) -> Seq<Seq<char>>
    decreases s.len(),
{
    if s.len() == 0 {
        Seq::empty()
    } else if s.last() == '\n' {
        closed_lines(s.drop_last()).push(strip_cr(open_line(s.drop_last())))
    } else {
        closed_lines(s.drop_last())
    }
}

/// The lines of `s`: the lines that a line feed ends, and after them what
/// follows the last line feed, unless that is empty.
pub open spec fn lines(s: Seq<char>) -> Seq<Seq<char>> {
    if open_line(s).len() > 0 {
        closed_lines(s).push(open_line(s))
    } else {
        closed_lines(s)
    }
}

/// Splits `s` into its lines.
pub fn split_lines(s: &[char]) -> (ls: Vec<Vec<char>>)
    ensures
        rows(ls@) == lines(s@),
{
    let mut ls: Vec<Vec<char>> = Vec::new();
    let mut current: Vec<char> = Vec::new();
    let mut i: usize = 0;
    assert(rows(ls@) =~= closed_lines(s@.take(0)));
    while i < s.len()
        invariant
            i <= s.len(),
            rows(ls@) == closed_lines(s@.take(i as int)),
            current@ == open_line(s@.take(i as int)),
        decreases s.len() - i,
    {
        let c = s[i];
        proof {
            assert(s@.take(i + 1).drop_last() == s@.take(i as int));
            assert(s@.take(i + 1).last() == c);
        }
        if c == '\n' {
            let n = current.len();
            if n > 0 && current[n - 1] == '\r' {
                current.pop();
            }
            assert(current@ =~= strip_cr(open_line(s@.take(i as int))));
            ls.push(current);
            current = Vec::new();
            assert(rows(ls@) =~= closed_lines(s@.take(i + 1)));
        } else {
            current.push(c);
        }
        i += 1;
    }
    assert(s@.take(s.len() as int) == s@);
    if current.len() > 0 {
        ls.push(current);
        assert(rows(ls@) =~= lines(s@));
    }
    ls
}

/// `s` without the white space it starts with.
pub open spec fn trim_start(s: Seq<char>) -> Seq<char>
    decreases s.len(),
{
    if s.len() > 0 && is_space(s[0]) {
        trim_start(s.skip(1))
    } else {
        s
    }
}

/// `s` without the white space it ends with.
pub open spec fn trim_end(s: Seq<char>) -> Seq<char>
    decreases s.len(),
{
    if s.len() > 0 && is_space(s.last()) {
        trim_end(s.drop_last())
    } else {
        s
    }
}

/// `s` without the white space at its two ends.
pub open spec fn trim(s: Seq<char>) -> Seq<char> {
    trim_end(trim_start(s))
}

/// Removes the white space at the two ends of `s`.
pub fn trimmed(s: &[char]) -> (t: Vec<char>)
    ensures
        t@ == trim(s@),
{
    let mut lo: usize = 0;
    assert(s@.skip(0) == s@);
    while lo < s.len() && is_space_char(s[lo])
        invariant
            lo <= s.len(),
            trim_start(s@) == trim_start(s@.skip(lo as int)),
        decreases s.len() - lo,
    {
        assert(s@.skip(lo as int).skip(1) == s@.skip(lo + 1));
        lo += 1;
    }
    let mut hi: usize = s.len();
    assert(s@.subrange(lo as int, hi as int) == s@.skip(lo as int));
    while hi > lo && is_space_char(s[hi - 1])
        invariant
            lo <= hi <= s.len(),
            trim(s@) == trim_end(s@.subrange(lo as int, hi as int)),
        decreases hi,
    {
        assert(s@.subrange(lo as int, hi as int).drop_last() == s@.subrange(lo as int, hi - 1));
        hi -= 1;
    }
    vstd::slice::slice_to_vec(vstd::slice::slice_subrange(s, lo, hi))
}

/// The text of the lines `ls`: each line, ended by a line feed.
pub open spec fn joined(ls: Seq<Seq<char>>) -> Seq<char>
    decreases ls.len(),
{
    if ls.len() == 0 {
        Seq::empty()
    } else {
        joined(ls.drop_last()) + ls.last() + seq!['\n']
    }
}

/// Whether `l` can be a line of a text: it holds no line feed and does not
/// end in a carriage return.
pub open spec fn is_line(l: Seq<char>) -> bool {
    is_plain(l) && (l.len() == 0 || l.last() != '\r')
}

/// Characters without a line feed add to the open line of a text, and to
/// nothing else.
pub proof fn lemma_append_plain(x: Seq<char>, l: Seq<char>)
    requires
        is_plain(l),
    ensures
        closed_lines(x + l) == closed_lines(x),
        open_line(x + l) == open_line(x) + l,
    decreases l.len(),
{
    if l.len() == 0 {
        assert(x + l =~= x);
        assert(open_line(x) + l =~= open_line(x));
    } else {
        let front = l.drop_last();
        assert forall|i: int| 0 <= i < front.len() implies #[trigger] front[i] != '\n' by {
            assert(front[i] == l[i]);
        }
        lemma_append_plain(x, front);
        assert((x + l).drop_last() =~= x + front);
        assert((x + l).last() == l[l.len() - 1]);
        assert(open_line(x + front).push(l.last()) =~= open_line(x) + l);
    }
}

/// The lines of a text that was joined from lines are those lines.
pub proof fn lemma_lines_joined(ls: Seq<Seq<char>>)
    requires
        forall|k: int| 0 <= k < ls.len() ==> is_line(#[trigger] ls[k]),
    ensures
        closed_lines(joined(ls)) == ls,
        open_line(joined(ls)).len() == 0,
        lines(joined(ls)) == ls,
    decreases ls.len(),
{
    if ls.len() > 0 {
        let front = ls.drop_last();
        let l = ls.last();
        assert forall|k: int| 0 <= k < front.len() implies is_line(#[trigger] front[k]) by {
            assert(front[k] == ls[k]);
        }
        assert(is_line(ls[ls.len() - 1]));
        lemma_lines_joined(front);
        let x = joined(front);
        lemma_append_plain(x, l);
        let y = x + l;
        let z = y + seq!['\n'];
        assert(joined(ls) == z);
        assert(z.drop_last() =~= y);
        assert(z.last() == '\n');
        assert(open_line(y) =~= l);
        assert(strip_cr(l) == l);
        assert(closed_lines(z) =~= ls);
    }
}

/// A word that follows the start of a text or white space is the next word
/// of the text.
pub proof fn lemma_words_word(pre: Seq<char>, w: Seq<char>, k: int)
    requires
        is_word(w),
        1 <= k <= w.len(),
        pre.len() == 0 || is_space(pre.last()),
    ensures
        words(pre + w.take(k)) == words(pre).push(w.take(k)),
    decreases k,
{
    let s = pre + w.take(k);
    assert(s.drop_last() =~= pre + w.take(k - 1));
    assert(s.last() == w[k - 1]);
    assert(!is_space(w[k - 1]));
    if k == 1 {
        assert(pre + w.take(0) =~= pre);
        assert(w.take(1) =~= seq![w[0]]);
    } else {
        lemma_words_word(pre, w, k - 1);
        let front = pre + w.take(k - 1);
        assert(front.last() == w[k - 2]);
        assert(!is_space(w[k - 2]));
        let before = words(front);
        assert(before.drop_last() =~= words(pre));
        assert(before.last().push(w[k - 1]) =~= w.take(k));
    }
}

/// Two words with a blank between them are the two words of that text.
pub proof fn lemma_words_pair(a: Seq<char>, b: Seq<char>)
    requires
        is_word(a),
        is_word(b),
    ensures
        words(a + seq![' '] + b) == seq![a, b],
{
    let none = Seq::<char>::empty();
    lemma_words_word(none, a, a.len() as int);
    assert(a.take(a.len() as int) == a);
    assert(none + a =~= a);
    assert(words(a) =~= seq![a]);
    let pre = a + seq![' '];
    assert(pre.drop_last() =~= a);
    assert(pre.last() == ' ');
    assert(words(pre) == words(a));
    lemma_words_word(pre, b, b.len() as int);
    assert(b.take(b.len() as int) == b);
    assert(words(pre + b) =~= seq![a, b]);
}

/// Whether `s` holds no line feed.
pub open spec fn is_plain(s: Seq<char>) -> bool {
    forall|i: int| 0 <= i < s.len() ==> #[trigger] s[i] != '\n'
}

/// Whether `s` neither starts nor ends with white space.
pub open spec fn is_trimmed(s: Seq<char>) -> bool {
    s.len() == 0 || (!is_space(s[0]) && !is_space(s.last()))
}

/// Every word of a text is a word, and a text that ends in a character that
/// is not white space has a word.
pub proof fn lemma_words(s: Seq<char>)
    ensures
        forall|k: int| 0 <= k < words(s).len() ==> is_word(#[trigger] words(s)[k]),
        s.len() > 0 && !is_space(s.last()) ==> words(s).len() > 0,
    decreases s.len(),
{
    if s.len() > 0 {
        let front = s.drop_last();
        lemma_words(front);
        let before = words(front);
        if !is_space(s.last()) && front.len() > 0 && !is_space(front.last()) {
            let w = before.last().push(s.last());
            assert(is_word(before.last()));
            assert forall|i: int| 0 <= i < w.len() implies !is_space(#[trigger] w[i]) by {
                if i < w.len() - 1 {
                    assert(w[i] == before.last()[i]);
                }
            }
            assert forall|k: int| 0 <= k < words(s).len() implies is_word(
                #[trigger] words(s)[k],
            ) by {
                if k < words(s).len() - 1 {
                    assert(words(s)[k] == before[k]);
                }
            }
        }
    }
}

/// What `trim_start` leaves: the end of the text, from its first character
/// that is not white space.
pub proof fn lemma_trim_start(s: Seq<char>)
    ensures
        trim_start(s).len() <= s.len(),
        trim_start(s) == s.skip(s.len() - trim_start(s).len()),
        trim_start(s).len() > 0 ==> !is_space(trim_start(s)[0]),
        s.len() > 0 && !is_space(s[0]) ==> trim_start(s) == s,
    decreases s.len(),
{
    if s.len() > 0 && is_space(s[0]) {
        let rest = s.skip(1);
        lemma_trim_start(rest);
        assert(rest.skip(rest.len() - trim_start(rest).len()) =~= s.skip(
            s.len() - trim_start(s).len(),
        ));
    } else {
        assert(s.skip(0) == s);
    }
}

/// What `trim_end` leaves: the start of the text, up to its last character
/// that is not white space.
pub proof fn lemma_trim_end(s: Seq<char>)
    ensures
        trim_end(s).len() <= s.len(),
        trim_end(s) == s.take(trim_end(s).len() as int),
        trim_end(s).len() > 0 ==> !is_space(trim_end(s).last()),
        s.len() > 0 && !is_space(s.last()) ==> trim_end(s) == s,
    decreases s.len(),
{
    if s.len() > 0 && is_space(s.last()) {
        let front = s.drop_last();
        lemma_trim_end(front);
        assert(front.take(trim_end(front).len() as int) =~= s.take(trim_end(s).len() as int));
    } else {
        assert(s.take(s.len() as int) == s);
    }
}

/// Trimming leaves a trimmed text, which is a part of the text; a trimmed
/// text is left as it is.
pub proof fn lemma_trim(s: Seq<char>)
    ensures
        is_trimmed(trim(s)),
        is_plain(s) ==> is_plain(trim(s)),
        is_trimmed(s) ==> trim(s) == s,
{
    let t = trim_start(s);
    lemma_trim_start(s);
    lemma_trim_end(t);
    let u = trim_end(t);
    if u.len() > 0 {
        assert(u[0] == t[0]);
    }
    if is_plain(s) {
        assert forall|i: int| 0 <= i < u.len() implies #[trigger] u[i] != '\n' by {
            assert(u[i] == t[i]);
            assert(t[i] == s[i + (s.len() - t.len())]);
        }
    }
}

/// No line of a text holds a line feed.
pub proof fn lemma_lines_plain(s: Seq<char>)
    ensures
        is_plain(open_line(s)),
        forall|k: int| 0 <= k < closed_lines(s).len() ==> is_plain(#[trigger] closed_lines(s)[k]),
        forall|k: int| 0 <= k < lines(s).len() ==> is_plain(#[trigger] lines(s)[k]),
    decreases s.len(),
{
    if s.len() > 0 {
        let front = s.drop_last();
        lemma_lines_plain(front);
        if s.last() == '\n' {
            let l = strip_cr(open_line(front));
            assert forall|i: int| 0 <= i < l.len() implies #[trigger] l[i] != '\n' by {
                assert(l[i] == open_line(front)[i]);
            }
            assert forall|k: int| 0 <= k < closed_lines(s).len() implies is_plain(
                #[trigger] closed_lines(s)[k],
            ) by {
                if k < closed_lines(s).len() - 1 {
                    assert(closed_lines(s)[k] == closed_lines(front)[k]);
                }
            }
        } else {
            let l = open_line(s);
            assert forall|i: int| 0 <= i < l.len() implies #[trigger] l[i] != '\n' by {
                if i < l.len() - 1 {
                    assert(l[i] == open_line(front)[i]);
                }
            }
        }
    }
    assert forall|k: int| 0 <= k < lines(s).len() implies is_plain(#[trigger] lines(s)[k]) by {
        if k < closed_lines(s).len() {
            assert(lines(s)[k] == closed_lines(s)[k]);
        }
    }
}

} // verus!
