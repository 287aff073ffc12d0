//! Insertion-ordered maps: the merge table and the special-token table.
//!
//! Both tables are `indexmap::IndexMap`s. Their contents are modelled as the
//! sequence of their entries in insertion order; the functions below are the
//! only places where the maps themselves are touched.

use indexmap::IndexMap;
use vstd::prelude::*;

verus! {

/// `indexmap::IndexMap`, a hash map that keeps its entries in the order in
/// which their keys were first inserted. Nothing is known of a value of it
/// but what the functions below say.
#[verifier::external_type_specification]
#[verifier::external_body]
#[verifier::reject_recursive_types(K)]
#[verifier::reject_recursive_types(V)]
#[verifier::reject_recursive_types(S)]
pub struct ExIndexMap<K, V, S>(IndexMap<K, V, S>);

/// The entries of a merge table, in insertion order.
pub uninterp spec fn merge_entries(m: IndexMap<(i32, i32), i32>) -> Seq<((i32, i32), i32)>;

/// The position of the first entry whose key is `key`, if there is one.
pub open spec fn key_index<K, V>(entries: Seq<(K, V)>, key: K) -> Option<int>
    decreases entries.len(),
{
    if entries.len() == 0 {
        None
    } else if entries[0].0 == key {
        Some(0)
    } else {
        match key_index(entries.skip(1), key) {
            Some(i) => Some(i + 1),
            None => None,
        }
    }
}

/// The value of the first entry whose key is `key`, if there is one.
pub open spec fn value_of<K, V>(entries: Seq<(K, V)>, key: K) -> Option<V> {
    match key_index(entries, key) {
        Some(i) => Some(entries[i].1),
        None => None,
    }
}

/// What `key_index` finds: the first entry with the key, or that there is no
/// entry with it.
pub proof fn lemma_key_index<K, V>(entries: Seq<(K, V)>, key: K)
    ensures
        match key_index(entries, key) {
            Some(i) => 0 <= i < entries.len() && entries[i].0 == key && forall|j: int|
                0 <= j < i ==> (#[trigger] entries[j]).0 != key,
            None => forall|j: int| 0 <= j < entries.len() ==> (#[trigger] entries[j]).0 != key,
        },
    decreases entries.len(),
{
    if entries.len() > 0 && entries[0].0 != key {
        let rest = entries.skip(1);
        lemma_key_index(rest, key);
        match key_index(rest, key) {
            Some(i) => {
                assert forall|j: int| 0 <= j < i + 1 implies (#[trigger] entries[j]).0 != key by {
                    if j > 0 {
                        assert(rest[j - 1] == entries[j]);
                    }
                }
            },
            None => {
                assert forall|j: int| 0 <= j < entries.len() implies (#[trigger] entries[j]).0
                    != key by {
                    if j > 0 {
                        assert(rest[j - 1] == entries[j]);
                    }
                }
            },
        }
    }
}

/// Whether no two entries have the same key.
pub open spec fn distinct_keys<K, V>(entries: Seq<(K, V)>) -> bool {
    forall|i: int, j: int|
        0 <= i < j < entries.len() ==> (#[trigger] entries[i]).0 != (#[trigger] entries[j]).0
}

/// The entries after an insertion: an entry with the key keeps its place and
/// takes the new value; without one, the new entry comes last.
pub open spec fn inserted<K, V>(entries: Seq<(K, V)>, key: K, value: V) -> Seq<(K, V)> {
    match key_index(entries, key) {
        Some(i) => entries.update(i, (key, value)),
        None => entries.push((key, value)),
    }
}

/// An insertion keeps the keys distinct.
pub proof fn lemma_inserted_distinct<K, V>(entries: Seq<(K, V)>, key: K, value: V)
    requires
        distinct_keys(entries),
    ensures
        distinct_keys(inserted(entries, key, value)),
{
    lemma_key_index(entries, key);
}

/// `IndexMap::new`: a map without entries.
#[verifier::external_body]
pub(crate) fn merges_new() -> (m: IndexMap<(i32, i32), i32>)
    ensures
        merge_entries(m) == Seq::<((i32, i32), i32)>::empty(),
{
    IndexMap::new()
}

/// `IndexMap::len`: the number of entries.
#[verifier::external_body]
pub(crate) fn merges_len(m: &IndexMap<(i32, i32), i32>) -> (n: usize)
    ensures
        n == merge_entries(*m).len(),
{
    m.len()
}

/// `IndexMap::get_index`: the entry at position `i` of the insertion order,
/// or `None` when `i` is not below the number of entries.
#[verifier::external_body]
pub(crate) fn merges_get_index(m: &IndexMap<(i32, i32), i32>, i: usize) -> (r: Option<
    ((i32, i32), i32),
>)
    ensures
        match r {
            Some(entry) => i < merge_entries(*m).len() && entry == merge_entries(*m)[i as int],
            None => i >= merge_entries(*m).len(),
        },
{
    m.get_index(i).map(|(k, v)| (*k, *v))
}

/// `IndexMap::get`: the value stored under `pair`, or `None` when no entry has
/// that key.
#[verifier::external_body]
pub(crate) fn merges_get(m: &IndexMap<(i32, i32), i32>, pair: (i32, i32)) -> (r: Option<i32>)
    ensures
        r == value_of(merge_entries(*m), pair),
{
    m.get(&pair).copied()
}

/// `IndexMap::insert`: where an entry with the key exists, it keeps its place
/// and takes the new value, and the old value is returned; otherwise the new
/// entry becomes the last one and `None` is returned.
#[verifier::external_body]
pub(crate) fn merges_insert(m: &mut IndexMap<(i32, i32), i32>, pair: (i32, i32), idx: i32) -> (r:
    Option<i32>)
    ensures
        merge_entries(*final(m)) == inserted(merge_entries(*old(m)), pair, idx),
        r == value_of(merge_entries(*old(m)), pair),
{
    m.insert(pair, idx)
}

/// The entries of a special-token table, in insertion order; each token is
/// given by its characters.
pub uninterp spec fn special_entries(m: IndexMap<String, i32>) -> Seq<(Seq<char>, i32)>;

/// `IndexMap::new`: a map without entries.
#[verifier::external_body]
pub(crate) fn specials_new() -> (m: IndexMap<String, i32>)
    ensures
        special_entries(m) == Seq::<(Seq<char>, i32)>::empty(),
{
    IndexMap::new()
}

/// `IndexMap::len`: the number of entries.
#[verifier::external_body]
pub(crate) fn specials_len(m: &IndexMap<String, i32>) -> (n: usize)
    ensures
        n == special_entries(*m).len(),
{
    m.len()
}

/// `IndexMap::get_index`: the entry at position `i` of the insertion order,
/// or `None` when `i` is not below the number of entries.
#[verifier::external_body]
pub(crate) fn specials_get_index<'a>(m: &'a IndexMap<String, i32>, i: usize) -> (r: Option<
    (&'a String, i32),
>)
    ensures
        match r {
            Some(entry) => i < special_entries(*m).len() && (entry.0@, entry.1) == special_entries(
                *m,
            )[i as int],
            None => i >= special_entries(*m).len(),
        },
{
    m.get_index(i).map(|(k, v)| (k, *v))
}

/// `IndexMap::insert`: where an entry with the key exists, it keeps its place
/// and takes the new value, and the old value is returned; otherwise the new
/// entry becomes the last one and `None` is returned.
#[verifier::external_body]
pub(crate) fn specials_insert(m: &mut IndexMap<String, i32>, token: String, idx: i32) -> (r:
    Option<i32>)
    ensures
        special_entries(*final(m)) == inserted(special_entries(*old(m)), token@, idx),
        r == value_of(special_entries(*old(m)), token@),
{
    m.insert(token, idx)
}

} // verus!
