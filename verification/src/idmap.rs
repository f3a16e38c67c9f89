//! A hash map from the handles in a stream to handles of a diagram: `ahash::AHashMap`.

use ahash::AHashMap;
use vstd::prelude::*;

verus! {

/// The hash map `ahash::AHashMap`.
#[verifier::external_type_specification]
#[verifier::external_body]
#[verifier::reject_recursive_types(K)]
#[verifier::reject_recursive_types(V)]
#[verifier::reject_recursive_types(S)]
pub struct ExAHashMap<K, V, S>(ahash::AHashMap<K, V, S>);

/// The keyed hasher of the map, `ahash::RandomState`.
#[verifier::external_type_specification]
#[verifier::external_body]
pub struct ExRandomState(ahash::RandomState);

/// What a map holds.
pub uninterp spec fn contents(map: AHashMap<u64, usize>) -> Map<u64, usize>;

/// Calls `<ahash::AHashMap as Default>::default`, which makes an empty map.
#[verifier::external_body]
pub(crate) fn empty_map() -> (r: AHashMap<u64, usize>)
    ensures
        contents(r).dom() == Set::<u64>::empty(),
{
    AHashMap::default()
}

/// Calls `ahash::AHashMap::insert`: the map then holds `value` for `key`, and what it held for
/// other keys. The value that it held for `key` before is returned, if there was one.
#[verifier::external_body]
pub(crate) fn put(map: &mut AHashMap<u64, usize>, key: u64, value: usize) -> (r: Option<usize>)
    ensures
        contents(*final(map)) == contents(*old(map)).insert(key, value),
        r == (if contents(*old(map)).contains_key(key) {
            Some(contents(*old(map))[key])
        } else {
            None
        }),
{
    map.insert(key, value)
}

/// Calls `ahash::AHashMap::get`: the value that the map holds for `key`, if there is one.
#[verifier::external_body]
pub(crate) fn find(map: &AHashMap<u64, usize>, key: u64) -> (r: Option<usize>)
    ensures
        r == (if contents(*map).contains_key(key) {
            Some(contents(*map)[key])
        } else {
            None
        }),
{
    map.get(&key).copied()
}

} // verus!
