//! Rewriting an id sequence by replacing a pair of adjacent ids with one id.

use crate::stats::occurs_at;
use vstd::prelude::*;

verus! {

/// The sequence obtained from `ids` by scanning left to right and replacing
/// each occurrence of `pair` by `idx`. An occurrence that has been replaced is
/// consumed: scanning resumes after it, so occurrences never overlap.
pub open spec fn merged(ids: Seq<i32>, pair: (i32, i32), idx: i32) -> Seq<i32>
    decreases ids.len(),
{
    if ids.len() == 0 {
        Seq::empty()
    } else if ids.len() >= 2 && ids[0] == pair.0 && ids[1] == pair.1 {
        seq![idx] + merged(ids.skip(2), pair, idx)
    } else {
        seq![ids[0]] + merged(ids.skip(1), pair, idx)
    }
}

/// Replaces every non-overlapping occurrence of `pair` in `ids`, scanning from
/// the left, by `idx`.
pub fn merge(ids: &[i32], pair: (i32, i32), idx: i32) -> (newids: Vec<i32>)
    ensures
        newids@ == merged(ids@, pair, idx),
{
    let mut newids: Vec<i32> = Vec::with_capacity(ids.len());
    let mut i: usize = 0;
    assert(ids@.skip(0) == ids@);
    while i < ids.len()
        invariant
            i <= ids.len(),
            merged(ids@, pair, idx) == newids@ + merged(ids@.skip(i as int), pair, idx),
        decreases ids.len() - i,
    {
        let ghost rest = ids@.skip(i as int);
        if i < ids.len() - 1 && ids[i] == pair.0 && ids[i + 1] == pair.1 {
            newids.push(idx);
            proof {
                assert(rest.skip(2) == ids@.skip(i + 2));
            }
            i += 2;
        } else {
            newids.push(ids[i]);
            proof {
                assert(rest.skip(1) == ids@.skip(i + 1));
            }
            i += 1;
        }
    }
    newids
}

/// Every id of the merged sequence is the new id or an id of the input, and
/// the merged sequence is not longer than the input.
pub proof fn lemma_merged_elements(ids: Seq<i32>, pair: (i32, i32), idx: i32)
    ensures
        merged(ids, pair, idx).len() <= ids.len(),
        forall|j: int|
            0 <= j < merged(ids, pair, idx).len() ==> #[trigger] merged(ids, pair, idx)[j] == idx
                || ids.contains(merged(ids, pair, idx)[j]),
    decreases ids.len(),
{
    if ids.len() == 0 {
    } else {
        let k: int = if ids.len() >= 2 && ids[0] == pair.0 && ids[1] == pair.1 {
            2
        } else {
            1
        };
        let rest = ids.skip(k);
        lemma_merged_elements(rest, pair, idx);
        let m = merged(ids, pair, idx);
        assert forall|j: int| 0 <= j < m.len() implies #[trigger] m[j] == idx || ids.contains(
            m[j],
        ) by {
            if j == 0 {
                if k == 1 {
                    assert(ids[0] == m[0]);
                }
            } else {
                let x = merged(rest, pair, idx)[j - 1];
                assert(m[j] == x);
                if x != idx {
                    let i = choose|i: int| 0 <= i < rest.len() && rest[i] == x;
                    assert(ids[i + k] == x);
                }
            }
        }
    }
}

/// Merging a pair that occurs somewhere makes the sequence shorter.
pub proof fn lemma_merged_shorter(ids: Seq<i32>, pair: (i32, i32), idx: i32, i: int)
    requires
        occurs_at(ids, pair, i),
    ensures
        merged(ids, pair, idx).len() < ids.len(),
    decreases ids.len(),
{
    if ids[0] == pair.0 && ids[1] == pair.1 {
        lemma_merged_elements(ids.skip(2), pair, idx);
    } else {
        assert(occurs_at(ids.skip(1), pair, i - 1));
        lemma_merged_shorter(ids.skip(1), pair, idx, i - 1);
    }
}

/// The first id of a merged sequence is the new id or the first id of the
/// input.
pub proof fn lemma_merged_head(ids: Seq<i32>, pair: (i32, i32), idx: i32)
    ensures
        merged(ids, pair, idx).len() == 0 <==> ids.len() == 0,
        ids.len() > 0 ==> merged(ids, pair, idx)[0] == (if occurs_at(ids, pair, 0) {
            idx
        } else {
            ids[0]
        }),
{
}

/// A pair that stands somewhere in the merged sequence, and does not hold the
/// new id, stands somewhere in the input too and is not the merged pair:
/// merging brings no two old ids together.
pub proof fn lemma_merged_pairs(ids: Seq<i32>, pair: (i32, i32), idx: i32, q: (i32, i32), j: int)
    requires
        occurs_at(merged(ids, pair, idx), q, j),
        q.0 != idx,
        q.1 != idx,
    ensures
        q != pair,
        exists|i: int| occurs_at(ids, q, i),
    decreases ids.len(),
{
    let m = merged(ids, pair, idx);
    lemma_merged_head(ids, pair, idx);
    if occurs_at(ids, pair, 0) {
        let rest = ids.skip(2);
        assert(m == seq![idx] + merged(rest, pair, idx));
        assert(occurs_at(merged(rest, pair, idx), q, j - 1));
        lemma_merged_pairs(rest, pair, idx, q, j - 1);
        let i = choose|i: int| occurs_at(rest, q, i);
        assert(occurs_at(ids, q, i + 2));
    } else {
        let rest = ids.skip(1);
        let r = merged(rest, pair, idx);
        assert(m == seq![ids[0]] + r);
        if j == 0 {
            lemma_merged_head(rest, pair, idx);
            assert(r[0] == m[1]);
            assert(!occurs_at(rest, pair, 0));
            assert(rest[0] == ids[1]);
            assert(occurs_at(ids, q, 0));
        } else {
            assert(occurs_at(r, q, j - 1));
            lemma_merged_pairs(rest, pair, idx, q, j - 1);
            let i = choose|i: int| occurs_at(rest, q, i);
            assert(occurs_at(ids, q, i + 1));
        }
    }
}

} // verus!
