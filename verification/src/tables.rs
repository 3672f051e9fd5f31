//! Hash tables with the Fx hasher.
use rustc_hash::{FxHashMap, FxHashSet};
use vstd::prelude::*;

use crate::model::views;

verus! {

/// `HashMap::get` on an `FxHashMap` with integer keys: what is stored under `key`, if anything.
#[verifier::external_body]
pub(crate) fn table_get<V>(table: &FxHashMap<u64, V>, key: u64) -> (found: Option<&V>)
    ensures
        match found {
            Some(value) => table@.contains_key(key) && *value == table@[key],
            None => !table@.contains_key(key),
        },
{
    table.get(&key)
}

/// `HashMap::insert` on an `FxHashMap` with integer keys: `key` now maps to `value`, every other key
/// as before.
#[verifier::external_body]
pub(crate) fn table_insert<V>(table: &mut FxHashMap<u64, V>, key: u64, value: V)
    ensures
        final(table)@ == old(table)@.insert(key, value),
{
    table.insert(key, value);
}

/// `HashMap::remove` on an `FxHashMap` with integer keys: `key` is gone, and what it mapped to is
/// returned.
#[verifier::external_body]
pub(crate) fn table_remove<V>(table: &mut FxHashMap<u64, V>, key: u64) -> (found: Option<V>)
    ensures
        final(table)@ == old(table)@.remove(key),
        match found {
            Some(value) => old(table)@.contains_key(key) && value == old(table)@[key],
            None => !old(table)@.contains_key(key),
        },
{
    table.remove(&key)
}

/// `HashMap::keys` on an `FxHashMap` with integer keys: each key once, in an order that is left
/// open.
#[verifier::external_body]
pub(crate) fn table_keys<V>(table: &FxHashMap<u64, V>) -> (keys: Vec<u64>)
    ensures
        keys@.no_duplicates(),
        forall|key: u64| keys@.contains(key) == #[trigger] table@.contains_key(key),
{
    table.keys().copied().collect()
}

/// The kind of a path in a mounted file, and its components.
pub type PathKey = (u8, Vec<String>);

/// What an `FxHashMap` from path keys to inode numbers holds.
pub uninterp spec fn path_table(table: FxHashMap<PathKey, u64>) -> Map<(u8, Seq<Seq<char>>), u64>;

/// `FxHashMap::default`: an empty table.
#[verifier::external_body]
pub(crate) fn path_table_new() -> (table: FxHashMap<PathKey, u64>)
    ensures
        (path_table(table) == Map::<(u8, Seq<Seq<char>>), u64>::empty()),
{
    FxHashMap::default()
}

/// `HashMap::get` on an `FxHashMap` from path keys: the inode number stored under `key`, if there is
/// one.
#[verifier::external_body]
pub(crate) fn path_table_get(table: &FxHashMap<PathKey, u64>, key: &PathKey) -> (found: Option<u64>)
    ensures
        found == (if path_table(*table).contains_key((key.0, views(key.1@))) {
            Some(path_table(*table)[(key.0, views(key.1@))])
        } else {
            None
        }),
{
    table.get(key).copied()
}

/// `HashMap::insert` on an `FxHashMap` from path keys: `key` now maps to `ino`, every other key as
/// before.
#[verifier::external_body]
pub(crate) fn path_table_insert(table: &mut FxHashMap<PathKey, u64>, key: PathKey, ino: u64)
    ensures
        path_table(*final(table)) == path_table(*old(table)).insert((key.0, views(key.1@)), ino),
{
    table.insert(key, ino);
}

/// A directory and a file name in it.
pub type NameKey = (u64, String);

/// What an `FxHashMap` from names in directories to inode numbers holds.
pub uninterp spec fn name_table(table: FxHashMap<NameKey, u64>) -> Map<(u64, Seq<char>), u64>;

/// `FxHashMap::default`: an empty table.
#[verifier::external_body]
pub(crate) fn name_table_new() -> (table: FxHashMap<NameKey, u64>)
    ensures
        (name_table(table) == Map::<(u64, Seq<char>), u64>::empty()),
{
    FxHashMap::default()
}

/// `HashMap::get` on an `FxHashMap` from names: the inode number stored under `key`, if there is one.
#[verifier::external_body]
pub(crate) fn name_table_get(table: &FxHashMap<NameKey, u64>, key: &NameKey) -> (found: Option<u64>)
    ensures
        found == (if name_table(*table).contains_key((key.0, key.1@)) {
            Some(name_table(*table)[(key.0, key.1@)])
        } else {
            None
        }),
{
    table.get(key).copied()
}

/// `HashMap::insert` on an `FxHashMap` from names: `key` now maps to `ino`, every other key as
/// before.
#[verifier::external_body]
pub(crate) fn name_table_insert(table: &mut FxHashMap<NameKey, u64>, key: NameKey, ino: u64)
    ensures
        name_table(*final(table)) == name_table(*old(table)).insert((key.0, key.1@), ino),
{
    table.insert(key, ino);
}

/// `HashMap::remove` on an `FxHashMap` from names: `key` is gone, and what it mapped to is returned.
#[verifier::external_body]
pub(crate) fn name_table_remove(table: &mut FxHashMap<NameKey, u64>, key: &NameKey) -> (found:
    Option<u64>)
    ensures
        name_table(*final(table)) == name_table(*old(table)).remove((key.0, key.1@)),
        found == (if name_table(*old(table)).contains_key((key.0, key.1@)) {
            Some(name_table(*old(table))[(key.0, key.1@)])
        } else {
            None
        }),
{
    table.remove(key)
}

/// The elements of an `FxHashSet` of byte strings.
pub uninterp spec fn byte_strings(set: FxHashSet<Vec<u8>>) -> Set<Seq<u8>>;

/// `FxHashSet::default`: an empty set.
#[verifier::external_body]
pub(crate) fn byte_strings_new() -> (set: FxHashSet<Vec<u8>>)
    ensures
        byte_strings(set) == Set::<Seq<u8>>::empty(),
{
    FxHashSet::default()
}

/// `HashSet::contains` on an `FxHashSet` of byte strings.
#[verifier::external_body]
pub(crate) fn byte_strings_contains(set: &FxHashSet<Vec<u8>>, bytes: &[u8]) -> (r: bool)
    ensures
        r == byte_strings(*set).contains(bytes@),
{
    set.contains(bytes)
}

/// `HashSet::insert` on an `FxHashSet` of byte strings: `bytes` is now an element too.
#[verifier::external_body]
pub(crate) fn byte_strings_insert(set: &mut FxHashSet<Vec<u8>>, bytes: Vec<u8>)
    ensures
        byte_strings(*final(set)) == byte_strings(*old(set)).insert(bytes@),
{
    set.insert(bytes);
}

} // verus!
