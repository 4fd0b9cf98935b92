//! Tables from text to text, kept in a concurrent hash map.
//!
//! The map itself is not verified. Each function here makes one call into
//! it and states what that call does to the entries of the table.

use dashmap::DashMap;
use std::collections::hash_map::RandomState;
use vstd::prelude::*;

verus! {

/// The concurrent hash map of the crate `dashmap`. Nothing of its inside is
/// known here.
#[verifier::external_type_specification]
#[verifier::external_body]
#[verifier::reject_recursive_types(K)]
#[verifier::reject_recursive_types(V)]
#[verifier::reject_recursive_types(S)]
pub struct ExDashMap<K, V, S>(DashMap<K, V, S>);

/// What a table is in contracts: a map from the characters of a key to the
/// characters of its value.
pub type Entries = Map<Seq<char>, Seq<char>>;

/// A key with its value.
pub type Pair = (Seq<char>, Seq<char>);

/// The entries that a table holds.
pub uninterp spec fn entries(table: DashMap<String, String, RandomState>) -> Entries;

/// The keys and values of a list of pairs of strings.
pub open spec fn pair_views(pairs: Seq<(String, String)>) -> Seq<Pair> {
    Seq::new(pairs.len(), |i: int| (pairs[i].0@, pairs[i].1@))
}

/// Whether `order` lists the entries of `table`: each entry once, in some
/// order, and nothing else.
pub open spec fn lists(order: Seq<Pair>, table: Entries) -> bool {
    &&& forall|i: int|
        0 <= i < order.len() ==> table.contains_key((#[trigger] order[i]).0) && table[order[i].0]
            == order[i].1
    &&& forall|i: int, j: int|
        0 <= i < j < order.len() ==> (#[trigger] order[i]).0 != (#[trigger] order[j]).0
    &&& forall|key: Seq<char>| #[trigger]
        table.contains_key(key) ==> exists|i: int| 0 <= i < order.len() && (#[trigger] order[i]).0 == key
}

/// Calls `DashMap::new`, which makes a table without entries.
#[verifier::external_body]
pub(crate) fn table_new() -> (out: DashMap<String, String, RandomState>)
    ensures
        entries(out) == Entries::empty(),
{
    DashMap::new()
}

/// Calls `DashMap::insert`, which puts the value under the key and takes the
/// place of the value that the key had before, if it had one. The other
/// entries stay as they are.
#[verifier::external_body]
pub(crate) fn table_insert(
    table: &mut DashMap<String, String, RandomState>,
    key: String,
    value: String,
)
    ensures
        entries(*final(table)) == entries(*old(table)).insert(key@, value@),
{
    table.insert(key, value);
}

/// Calls `DashMap::get`, which finds the entry of a key, and copies the
/// value out of it. There is a result exactly when the table holds the key.
#[verifier::external_body]
pub(crate) fn table_get(table: &DashMap<String, String, RandomState>, key: &str) -> (out: Option<
    String,
>)
    ensures
        out is Some == entries(*table).contains_key(key@),
        out is Some ==> out->0@ == entries(*table)[key@],
{
    match table.get(key) {
        Some(entry) => Some(entry.value().clone()),
        None => None,
    }
}

/// Calls `DashMap::iter`, which visits each entry of the table once, in an
/// order that the table does not promise, and copies key and value out of
/// each.
#[verifier::external_body]
pub(crate) fn table_pairs(table: &DashMap<String, String, RandomState>) -> (out: Vec<
    (String, String),
>)
    ensures
        lists(pair_views(out@), entries(*table)),
{
    table.iter().map(|entry| (entry.key().clone(), entry.value().clone())).collect()
}

/// Calls `DashMap::clone`, which makes a second table with the same entries.
#[verifier::external_body]
pub(crate) fn table_clone(table: &DashMap<String, String, RandomState>) -> (out: DashMap<
    String,
    String,
    RandomState,
>)
    ensures
        entries(out) == entries(*table),
{
    table.clone()
}

} // verus!
