//! The insertion-ordered maps (`indexmap::IndexMap`) that requests and
//! criteria are written in, seen by the library as sequences of entries.

use indexmap::IndexMap;
use vstd::prelude::*;

use crate::schema::{Json, Question};

verus! {

/// `indexmap::IndexMap`, an insertion-ordered hash map.
#[verifier::external_type_specification]
#[verifier::external_body]
#[verifier::reject_recursive_types(K)]
#[verifier::reject_recursive_types(V)]
#[verifier::reject_recursive_types(S)]
pub struct ExIndexMap<K, V, S>(IndexMap<K, V, S>);

/// `IndexMap::clone` (nothing is stated of the copy).
pub assume_specification<K: Clone, V: Clone, S: Clone>[<IndexMap<K, V, S> as Clone>::clone](
    m: &IndexMap<K, V, S>,
) -> IndexMap<K, V, S>;

/// Entries of a choice-criteria map (option key → optional gloss), in insertion order.
pub uninterp spec fn option_entries(m: IndexMap<String, Option<Json>>) -> Seq<(String, Option<Json>)>;

/// Entries of a question map (question id → question), in insertion order.
pub uninterp spec fn question_entries(m: IndexMap<String, Question>) -> Seq<(String, Question)>;

/// Calls `IndexMap::len`: the number of entries; keys of a map are pairwise distinct.
#[verifier::external_body]
pub(crate) fn option_count(m: &IndexMap<String, Option<Json>>) -> (r: usize)
    ensures
        r == option_entries(*m).len(),
        forall|i: int, j: int|
            0 <= i < j < r ==> option_entries(*m)[i].0@ != option_entries(*m)[j].0@,
{
    m.len()
}

/// Calls `IndexMap::get_index`: the entry at position `i`.
#[verifier::external_body]
pub(crate) fn option_at(m: &IndexMap<String, Option<Json>>, i: usize) -> (r: (&String, &Option<Json>))
    requires
        i < option_entries(*m).len(),
    ensures
        *r.0 == option_entries(*m)[i as int].0,
        *r.1 == option_entries(*m)[i as int].1,
{
    m.get_index(i).unwrap()
}

/// Calls `IndexMap::len`: the number of entries; keys of a map are pairwise distinct.
#[verifier::external_body]
pub(crate) fn question_count(m: &IndexMap<String, Question>) -> (r: usize)
    ensures
        r == question_entries(*m).len(),
        forall|i: int, j: int|
            0 <= i < j < r ==> question_entries(*m)[i].0@ != question_entries(*m)[j].0@,
{
    m.len()
}

/// Calls `IndexMap::get_index`: the entry at position `i`.
#[verifier::external_body]
pub(crate) fn question_at(m: &IndexMap<String, Question>, i: usize) -> (r: (&String, &Question))
    requires
        i < question_entries(*m).len(),
    ensures
        *r.0 == question_entries(*m)[i as int].0,
        *r.1 == question_entries(*m)[i as int].1,
{
    m.get_index(i).unwrap()
}

/// Entries of a token-count map (token → occurrences), in insertion order.
pub uninterp spec fn token_entries(m: IndexMap<String, u32>) -> Seq<(String, u32)>;

/// Views of token-count entries.
pub open spec fn token_views(e: Seq<(String, u32)>) -> Seq<(Seq<char>, u32)> {
    e.map_values(|p: (String, u32)| (p.0@, p.1))
}

/// Position of `key` among the entries' keys, if present.
pub open spec fn key_index(e: Seq<(Seq<char>, u32)>, key: Seq<char>) -> Option<int>
    decreases e.len(),
{
    if e.len() == 0 {
        None
    } else if e.last().0 == key {
        Some(e.len() - 1)
    } else {
        key_index(e.drop_last(), key)
    }
}

/// Calls `IndexMap::new`: no entries.
#[verifier::external_body]
pub(crate) fn token_map_new() -> (r: IndexMap<String, u32>)
    ensures
        token_entries(r).len() == 0,
{
    IndexMap::new()
}

/// Calls `IndexMap::len`: the number of entries; keys of a map are pairwise distinct.
#[verifier::external_body]
pub(crate) fn token_count(m: &IndexMap<String, u32>) -> (r: usize)
    ensures
        r == token_entries(*m).len(),
        forall|i: int, j: int|
            0 <= i < j < r ==> token_entries(*m)[i].0@ != token_entries(*m)[j].0@,
{
    m.len()
}

/// Calls `IndexMap::get_index`: the entry at position `i`.
#[verifier::external_body]
pub(crate) fn token_at(m: &IndexMap<String, u32>, i: usize) -> (r: (&String, u32))
    requires
        i < token_entries(*m).len(),
    ensures
        *r.0 == token_entries(*m)[i as int].0,
        r.1 == token_entries(*m)[i as int].1,
{
    let (k, v) = m.get_index(i).unwrap();
    (k, *v)
}

/// Calls `IndexMap::get`: the count stored under `key`, if any.
#[verifier::external_body]
pub(crate) fn token_get(m: &IndexMap<String, u32>, key: &str) -> (r: Option<u32>)
    ensures
        match key_index(token_views(token_entries(*m)), key@) {
            Some(i) => r == Some(token_entries(*m)[i].1),
            None => r is None,
        },
{
    m.get(key).copied()
}

/// Calls `IndexMap::contains_key`.
#[verifier::external_body]
pub(crate) fn token_contains(m: &IndexMap<String, u32>, key: &str) -> (r: bool)
    ensures
        r == key_index(token_views(token_entries(*m)), key@) is Some,
{
    m.contains_key(key)
}

/// Calls `IndexMap::insert`: an existing key keeps its place (and its stored
/// key) and takes the new count; a new key is appended.
#[verifier::external_body]
pub(crate) fn token_insert(m: &mut IndexMap<String, u32>, key: String, n: u32)
    ensures
        match key_index(token_views(token_entries(*old(m))), key@) {
            Some(i) => token_entries(*final(m)) == token_entries(*old(m)).update(
                i,
                (token_entries(*old(m))[i].0, n),
            ),
            None => token_entries(*final(m)) == token_entries(*old(m)).push((key, n)),
        },
{
    m.insert(key, n);
}

/// Position of a key among option entries, if present.
pub open spec fn option_index(e: Seq<(String, Option<Json>)>, key: Seq<char>) -> Option<int>
    decreases e.len(),
{
    if e.len() == 0 {
        None
    } else if e.last().0@ == key {
        Some(e.len() - 1)
    } else {
        option_index(e.drop_last(), key)
    }
}

/// Calls `IndexMap::new`: no entries.
#[verifier::external_body]
pub(crate) fn option_map_new() -> (r: IndexMap<String, Option<Json>>)
    ensures
        option_entries(r).len() == 0,
{
    IndexMap::new()
}

/// Calls `IndexMap::insert`: an existing key keeps its place and takes the
/// new value; a new key is appended.
#[verifier::external_body]
pub(crate) fn option_insert(m: &mut IndexMap<String, Option<Json>>, key: String, value: Option<Json>)
    ensures
        match option_index(option_entries(*old(m)), key@) {
            Some(i) => option_entries(*final(m)) == option_entries(*old(m)).update(
                i,
                (option_entries(*old(m))[i].0, value),
            ),
            None => option_entries(*final(m)) == option_entries(*old(m)).push((key, value)),
        },
{
    m.insert(key, value);
}

} // verus!
