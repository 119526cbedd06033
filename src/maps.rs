//! Integer-keyed maps of the `vec_map` crate, seen through the entries they
//! hold.
use vstd::prelude::*;

use vec_map::VecMap;

verus! {

#[verifier::external_type_specification]
#[verifier::external_body]
#[verifier::reject_recursive_types(V)]
pub struct ExVecMap<V>(VecMap<V>);

/// The entries of a map from keys to truth values.
pub uninterp spec fn bool_entries(m: VecMap<bool>) -> Map<nat, bool>;

/// The entries of a map from keys to integers.
pub uninterp spec fn usize_entries(m: VecMap<usize>) -> Map<nat, usize>;

/// The entries of a map from keys to lists of integers.
pub uninterp spec fn list_entries(m: VecMap<Vec<usize>>) -> Map<nat, Seq<usize>>;

/// Relies on VecMap::new: the new map holds no entry.
#[verifier::external_body]
pub(crate) fn bool_map_new() -> (r: VecMap<bool>)
    ensures
        bool_entries(r).dom() =~= Set::empty(),
{
    VecMap::new()
}

/// Relies on VecMap::get: the value stored under the key, if any.
#[verifier::external_body]
pub(crate) fn bool_map_get(m: &VecMap<bool>, key: usize) -> (r: Option<bool>)
    ensures
        r == (if bool_entries(*m).contains_key(key as nat) {
            Some(bool_entries(*m)[key as nat])
        } else {
            None
        }),
{
    m.get(key).copied()
}

/// Relies on VecMap::insert: the key then maps to the value, and the other
/// entries stay.
#[verifier::external_body]
pub(crate) fn bool_map_insert(m: &mut VecMap<bool>, key: usize, value: bool)
    requires
        key < usize::MAX,
    ensures
        bool_entries(*final(m)) == bool_entries(*old(m)).insert(key as nat, value),
{
    m.insert(key, value);
}

/// Relies on VecMap::remove: the key's entry, if any, is gone and the other
/// entries stay.
#[verifier::external_body]
pub(crate) fn bool_map_remove(m: &mut VecMap<bool>, key: usize)
    ensures
        bool_entries(*final(m)) == bool_entries(*old(m)).remove(key as nat),
{
    m.remove(key);
}

/// Relies on VecMap::new: the new map holds no entry.
#[verifier::external_body]
pub(crate) fn usize_map_new() -> (r: VecMap<usize>)
    ensures
        usize_entries(r).dom() =~= Set::empty(),
{
    VecMap::new()
}

/// Relies on VecMap::get: the value stored under the key, if any.
#[verifier::external_body]
pub(crate) fn usize_map_get(m: &VecMap<usize>, key: usize) -> (r: Option<usize>)
    ensures
        r == (if usize_entries(*m).contains_key(key as nat) {
            Some(usize_entries(*m)[key as nat])
        } else {
            None
        }),
{
    m.get(key).copied()
}

/// Relies on VecMap::insert: the key then maps to the value, and the other
/// entries stay.
#[verifier::external_body]
pub(crate) fn usize_map_insert(m: &mut VecMap<usize>, key: usize, value: usize)
    requires
        key < usize::MAX,
    ensures
        usize_entries(*final(m)) == usize_entries(*old(m)).insert(key as nat, value),
{
    m.insert(key, value);
}

/// Relies on VecMap::remove: the key's entry, if any, is gone and the other
/// entries stay.
#[verifier::external_body]
pub(crate) fn usize_map_remove(m: &mut VecMap<usize>, key: usize)
    ensures
        usize_entries(*final(m)) == usize_entries(*old(m)).remove(key as nat),
{
    m.remove(key);
}

/// Relies on VecMap::new: the new map holds no entry.
#[verifier::external_body]
pub(crate) fn list_map_new() -> (r: VecMap<Vec<usize>>)
    ensures
        list_entries(r).dom() =~= Set::empty(),
{
    VecMap::new()
}

/// Relies on VecMap::insert: the key then maps to the list, and the other
/// entries stay.
#[verifier::external_body]
pub(crate) fn list_map_insert(m: &mut VecMap<Vec<usize>>, key: usize, value: Vec<usize>)
    requires
        key < usize::MAX,
    ensures
        list_entries(*final(m)) == list_entries(*old(m)).insert(key as nat, value@),
{
    m.insert(key, value);
}

/// Relies on VecMap::remove: the list stored under the key is handed out,
/// if there is one, and its entry is gone while the other entries stay.
#[verifier::external_body]
pub(crate) fn list_map_remove(m: &mut VecMap<Vec<usize>>, key: usize) -> (r: Option<Vec<usize>>)
    ensures
        r.is_some() == list_entries(*old(m)).contains_key(key as nat),
        r.is_some() ==> r.unwrap()@ == list_entries(*old(m))[key as nat],
        list_entries(*final(m)) == list_entries(*old(m)).remove(key as nat),
{
    m.remove(key)
}

} // verus!
