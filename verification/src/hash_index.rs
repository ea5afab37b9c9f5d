//! Hash indexes of the `ahash` crate, with the map that each one stands for.

use vstd::prelude::*;

verus! {

/// The hash map type of the `ahash` crate.
#[verifier::external_type_specification]
#[verifier::external_body]
#[verifier::reject_recursive_types(K)]
#[verifier::reject_recursive_types(V)]
#[verifier::reject_recursive_types(S)]
pub struct ExAHashMap<K, V, S>(ahash::AHashMap<K, V, S>);

/// The hasher state of the `ahash` crate.
#[verifier::external_type_specification]
#[verifier::external_body]
pub struct ExAHashRandomState(ahash::RandomState);

/// Hash index from a list of component numbers to an archetype number.
pub type KeyIndex = ahash::AHashMap<Vec<u32>, u32, ahash::RandomState>;

/// Hash index from the bits of an entity to a row.
pub type RowIndex = ahash::AHashMap<u64, u32, ahash::RandomState>;

/// The entries of a [`KeyIndex`].
pub uninterp spec fn key_entries(index: KeyIndex) -> Map<Seq<u32>, u32>;

/// The entries of a [`RowIndex`].
pub uninterp spec fn row_entries(index: RowIndex) -> Map<u64, u32>;

/// `ahash::AHashMap::new`: a map without entries.
#[verifier::external_body]
pub(crate) fn key_index_new() -> (fresh: KeyIndex)
    ensures
        key_entries(fresh) == (Map::<Seq<u32>, u32>::empty()),
{
    ahash::AHashMap::new()
}

/// `ahash::AHashMap::get`: the value stored under an equal key, if any. Two
/// vectors of numbers are equal keys when they hold the same numbers in order.
#[verifier::external_body]
pub(crate) fn key_index_get(index: &KeyIndex, key: &Vec<u32>) -> (value: Option<u32>)
    ensures
        match value {
            Some(v) => key_entries(*index).contains_key(key@) && key_entries(*index)[key@] == v,
            None => !key_entries(*index).contains_key(key@),
        },
{
    index.get(key).copied()
}

/// `ahash::AHashMap::insert`: stores the value under the key and leaves every
/// other entry as it was.
#[verifier::external_body]
pub(crate) fn key_index_insert(index: &mut KeyIndex, key: Vec<u32>, value: u32)
    ensures
        key_entries(*final(index)) == key_entries(*old(index)).insert(key@, value),
{
    index.insert(key, value);
}

/// `ahash::AHashMap::new`: a map without entries.
#[verifier::external_body]
pub(crate) fn row_index_new() -> (fresh: RowIndex)
    ensures
        row_entries(fresh) == (Map::<u64, u32>::empty()),
{
    ahash::AHashMap::new()
}

/// `ahash::AHashMap::get`: the value stored under the key, if any.
#[verifier::external_body]
pub(crate) fn row_index_get(index: &RowIndex, key: u64) -> (value: Option<u32>)
    ensures
        match value {
            Some(v) => row_entries(*index).contains_key(key) && row_entries(*index)[key] == v,
            None => !row_entries(*index).contains_key(key),
        },
{
    index.get(&key).copied()
}

/// `ahash::AHashMap::insert`: stores the value under the key and leaves every
/// other entry as it was.
#[verifier::external_body]
pub(crate) fn row_index_insert(index: &mut RowIndex, key: u64, value: u32)
    ensures
        row_entries(*final(index)) == row_entries(*old(index)).insert(key, value),
{
    index.insert(key, value);
}

/// `ahash::AHashMap::remove`: takes the entry of the key out, if there is one,
/// and leaves every other entry as it was.
#[verifier::external_body]
pub(crate) fn row_index_remove(index: &mut RowIndex, key: u64)
    ensures
        row_entries(*final(index)) == row_entries(*old(index)).remove(key),
{
    index.remove(&key);
}

/// `len` of `ahash::AHashMap`: how many entries the map has.
#[verifier::external_body]
pub(crate) fn row_index_len(index: &RowIndex) -> (n: usize)
    ensures
        n == row_entries(*index).dom().len(),
{
    index.len()
}

} // verus!
