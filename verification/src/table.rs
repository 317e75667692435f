//! The tables of `dashmap` that the layers keep their data in.
//!
//! A table of the outside crate is opaque to the verifier. What it holds has a
//! name here, and each operation that the layers use is stated over that name.
//! A table is changed only through `&mut`, so what is stated of an operation
//! is not disturbed by another thread.

use crate::common::{Entry, EntryModel};
use crate::text::texts;
use dashmap::{DashMap, DashSet};
use std::sync::Arc;
use vstd::prelude::*;

verus! {

/// The concurrent hash map of `dashmap`.
#[verifier::external_type_specification]
#[verifier::external_body]
#[verifier::reject_recursive_types(K)]
#[verifier::reject_recursive_types(V)]
#[verifier::reject_recursive_types(S)]
pub struct ExDashMap<K, V, S>(dashmap::DashMap<K, V, S>);

/// The concurrent hash set of `dashmap`.
#[verifier::external_type_specification]
#[verifier::external_body]
#[verifier::reject_recursive_types(K)]
#[verifier::reject_recursive_types(S)]
pub struct ExDashSet<K, S>(dashmap::DashSet<K, S>);

/// What a table of entries holds.
pub uninterp spec fn entries_in(table: DashMap<String, Arc<Entry>>) -> Map<Seq<char>, EntryModel>;

/// `DashMap::new`: a table that holds nothing.
#[verifier::external_body]
pub(crate) fn new_entries() -> (r: DashMap<String, Arc<Entry>>)
    ensures
        entries_in(r) == (Map::<Seq<char>, EntryModel>::empty()),
{
    DashMap::new()
}

/// `DashMap::insert`: puts the entry under the key, in place of one that was
/// there.
#[verifier::external_body]
pub(crate) fn put_entry(table: &mut DashMap<String, Arc<Entry>>, key: String, entry: Arc<Entry>)
    ensures
        entries_in(*final(table)) == entries_in(*old(table)).insert(key@, (*entry)@),
{
    table.insert(key, entry);
}

/// `DashMap::get`, with the shared pointer that it refers to cloned: the entry
/// under the key, where there is one.
#[verifier::external_body]
pub(crate) fn get_entry(table: &DashMap<String, Arc<Entry>>, key: &str) -> (r: Option<Arc<Entry>>)
    ensures
        match r {
            Some(e) => entries_in(*table).contains_key(key@) && (*e)@ == entries_in(*table)[key@],
            None => !entries_in(*table).contains_key(key@),
        },
{
    table.get(key).map(|slot| slot.value().clone())
}

/// `DashMap::remove`: takes the entry under the key out and hands it over,
/// where there is one.
#[verifier::external_body]
pub(crate) fn take_entry(table: &mut DashMap<String, Arc<Entry>>, key: &str) -> (r: Option<
    Arc<Entry>,
>)
    ensures
        entries_in(*final(table)) == entries_in(*old(table)).remove(key@),
        match r {
            Some(e) => entries_in(*old(table)).contains_key(key@) && (*e)@ == entries_in(
                *old(table),
            )[key@],
            None => !entries_in(*old(table)).contains_key(key@),
        },
{
    table.remove(key).map(|slot| slot.1)
}

/// `DashMap::contains_key`.
#[verifier::external_body]
pub(crate) fn has_entry(table: &DashMap<String, Arc<Entry>>, key: &str) -> (r: bool)
    ensures
        r == entries_in(*table).contains_key(key@),
{
    table.contains_key(key)
}

/// `DashMap::len`.
#[verifier::external_body]
pub(crate) fn count_entries(table: &DashMap<String, Arc<Entry>>) -> (r: usize)
    ensures
        r == entries_in(*table).len(),
{
    table.len()
}

/// Whether `list` holds each key of `held` once, with its entry.
pub open spec fn lists_all(
    list: Seq<(String, Arc<Entry>)>,
    held: Map<Seq<char>, EntryModel>,
) -> bool {
    &&& list.len() == held.len()
    &&& forall|i: int|
        0 <= i < list.len() ==> held.contains_key((#[trigger] list[i]).0@) && (*list[i].1)@
            == held[list[i].0@]
    &&& forall|i: int, j: int|
        0 <= i < j < list.len() ==> (#[trigger] list[i]).0@ != (#[trigger] list[j]).0@
    &&& forall|k: Seq<char>| #[trigger]
        held.contains_key(k) ==> exists|i: int| 0 <= i < list.len() && (#[trigger] list[i]).0@ == k
}

/// `DashMap::iter`, with each key and each shared pointer cloned: every key
/// that the table holds, once, with its entry. The order is left open.
#[verifier::external_body]
pub(crate) fn list_entries(table: &DashMap<String, Arc<Entry>>) -> (r: Vec<(String, Arc<Entry>)>)
    ensures
        lists_all(r@, entries_in(*table)),
{
    table.iter().map(|slot| (slot.key().clone(), slot.value().clone())).collect()
}

/// What a table of lists of keys holds.
pub uninterp spec fn postings_in(table: DashMap<String, Vec<String>>) -> Map<
    Seq<char>,
    Seq<Seq<char>>,
>;

/// `DashMap::new`: a table that holds nothing.
#[verifier::external_body]
pub(crate) fn new_postings() -> (r: DashMap<String, Vec<String>>)
    ensures
        postings_in(r) == (Map::<Seq<char>, Seq<Seq<char>>>::empty()),
{
    DashMap::new()
}

/// `DashMap::insert`: puts the list under the token, in place of one that was
/// there.
#[verifier::external_body]
pub(crate) fn put_posting(
    table: &mut DashMap<String, Vec<String>>,
    token: String,
    keys: Vec<String>,
)
    ensures
        postings_in(*final(table)) == postings_in(*old(table)).insert(token@, texts(keys@)),
{
    table.insert(token, keys);
}

/// `DashMap::get`, with the list cloned: the list under the token, where there
/// is one.
#[verifier::external_body]
pub(crate) fn get_posting(table: &DashMap<String, Vec<String>>, token: &str) -> (r: Option<
    Vec<String>,
>)
    ensures
        match r {
            Some(keys) => postings_in(*table).contains_key(token@) && texts(keys@) == postings_in(
                *table,
            )[token@],
            None => !postings_in(*table).contains_key(token@),
        },
{
    table.get(token).map(|slot| slot.value().clone())
}

/// What a table of vectors holds. A vector is given by the bits of its
/// components.
pub uninterp spec fn vectors_in(table: DashMap<String, Vec<u32>>) -> Map<Seq<char>, Seq<u32>>;

/// `DashMap::new`: a table that holds nothing.
#[verifier::external_body]
pub(crate) fn new_vectors() -> (r: DashMap<String, Vec<u32>>)
    ensures
        vectors_in(r) == (Map::<Seq<char>, Seq<u32>>::empty()),
{
    DashMap::new()
}

/// `DashMap::insert`: puts the vector under the key, in place of one that was
/// there.
#[verifier::external_body]
pub(crate) fn put_vector(table: &mut DashMap<String, Vec<u32>>, key: String, vector: Vec<u32>)
    ensures
        vectors_in(*final(table)) == vectors_in(*old(table)).insert(key@, vector@),
{
    table.insert(key, vector);
}

/// `DashMap::remove`: takes the vector under the key out, where there is one.
#[verifier::external_body]
pub(crate) fn drop_vector(table: &mut DashMap<String, Vec<u32>>, key: &str)
    ensures
        vectors_in(*final(table)) == vectors_in(*old(table)).remove(key@),
{
    table.remove(key);
}

/// `DashMap::contains_key`.
#[verifier::external_body]
pub(crate) fn has_vector(table: &DashMap<String, Vec<u32>>, key: &str) -> (r: bool)
    ensures
        r == vectors_in(*table).contains_key(key@),
{
    table.contains_key(key)
}

/// `DashMap::len`.
#[verifier::external_body]
pub(crate) fn count_vectors(table: &DashMap<String, Vec<u32>>) -> (r: usize)
    ensures
        r == vectors_in(*table).len(),
{
    table.len()
}

/// Whether `list` holds each key of `held` once, with its vector.
pub open spec fn lists_vectors(
    list: Seq<(String, Vec<u32>)>,
    held: Map<Seq<char>, Seq<u32>>,
) -> bool {
    &&& list.len() == held.len()
    &&& forall|i: int|
        0 <= i < list.len() ==> held.contains_key((#[trigger] list[i]).0@) && list[i].1@
            == held[list[i].0@]
    &&& forall|i: int, j: int|
        0 <= i < j < list.len() ==> (#[trigger] list[i]).0@ != (#[trigger] list[j]).0@
    &&& forall|k: Seq<char>| #[trigger]
        held.contains_key(k) ==> exists|i: int| 0 <= i < list.len() && (#[trigger] list[i]).0@ == k
}

/// `DashMap::iter`, with each key and each vector cloned: every key that the
/// table holds, once, with its vector. The order is left open.
#[verifier::external_body]
pub(crate) fn list_vectors(table: &DashMap<String, Vec<u32>>) -> (r: Vec<(String, Vec<u32>)>)
    ensures
        lists_vectors(r@, vectors_in(*table)),
{
    table.iter().map(|slot| (slot.key().clone(), slot.value().clone())).collect()
}

/// What a set of keys holds.
pub uninterp spec fn keys_in(set: DashSet<String>) -> Set<Seq<char>>;

/// `DashSet::new`: a set that holds nothing.
#[verifier::external_body]
pub(crate) fn new_keys() -> (r: DashSet<String>)
    ensures
        keys_in(r) == Set::<Seq<char>>::empty(),
{
    DashSet::new()
}

/// `DashSet::insert`.
#[verifier::external_body]
pub(crate) fn add_key(set: &mut DashSet<String>, key: String)
    ensures
        keys_in(*final(set)) == keys_in(*old(set)).insert(key@),
{
    set.insert(key);
}

/// `DashSet::remove`.
#[verifier::external_body]
pub(crate) fn drop_key(set: &mut DashSet<String>, key: &str)
    ensures
        keys_in(*final(set)) == keys_in(*old(set)).remove(key@),
{
    set.remove(key);
}

/// `DashSet::contains`.
#[verifier::external_body]
pub(crate) fn has_key(set: &DashSet<String>, key: &str) -> (r: bool)
    ensures
        r == keys_in(*set).contains(key@),
{
    set.contains(key)
}

/// `DashSet::len`.
#[verifier::external_body]
pub(crate) fn count_keys(set: &DashSet<String>) -> (r: usize)
    ensures
        r == keys_in(*set).len(),
{
    set.len()
}

} // verus!
