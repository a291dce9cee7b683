//! The live-size table: an FNV-hashed map from byte offset to requested size.
//!
//! The map is std's `HashMap` with the hasher of the `fnv` crate. That
//! hasher folds the bytes written to it into its state and nothing else, so
//! equal keys hash equally and the map behaves as a map from `u32` to `u32`.
//! What its operations do to the contents is stated here and taken on trust.

use vstd::prelude::*;
use fnv::FnvHashMap;

verus! {

/// The hasher state of the `fnv` crate; carried through, never inspected.
#[verifier::external_type_specification]
#[verifier::external_body]
pub struct ExFnvHasher(fnv::FnvHasher);

/// The hasher factory of std that builds each hasher by `Default`.
#[verifier::external_type_specification]
#[verifier::external_body]
#[verifier::reject_recursive_types(H)]
pub struct ExBuildHasherDefault<H>(std::hash::BuildHasherDefault<H>);

/// The table with no entry.
pub open spec fn no_sizes() -> Map<u32, u32> {
    Map::empty()
}

/// `FnvHashMap::default`: a map that holds nothing.
#[verifier::external_body]
pub(crate) fn table_new() -> (table: FnvHashMap<u32, u32>)
    ensures
        table@ == no_sizes(),
{
    FnvHashMap::default()
}

/// `HashMap::get` on an FNV-hashed map: a reference to the value stored
/// under `key`, if there is one.
#[verifier::external_body]
pub(crate) fn table_get<'a>(table: &'a FnvHashMap<u32, u32>, key: &u32) -> (found: Option<&'a u32>)
    ensures
        found.is_some() == table@.contains_key(*key),
        found.is_some() ==> *found.unwrap() == table@[*key],
{
    table.get(key)
}

/// `HashMap::insert` on an FNV-hashed map: afterwards `key` maps to `value`
/// and every other key is as before.
#[verifier::external_body]
pub(crate) fn table_insert(table: &mut FnvHashMap<u32, u32>, key: u32, value: u32)
    ensures
        final(table)@ == old(table)@.insert(key, value),
{
    table.insert(key, value);
}

/// `HashMap::remove` on an FNV-hashed map: afterwards `key` is absent and
/// every other key is as before.
#[verifier::external_body]
pub(crate) fn table_remove(table: &mut FnvHashMap<u32, u32>, key: u32)
    ensures
        final(table)@ == old(table)@.remove(key),
{
    table.remove(&key);
}

} // verus!
