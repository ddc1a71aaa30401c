//! The hash map that gathers buckets (`rustc_hash::FxHashMap`) and the sort
//! that orders them, as the aggregation uses them.
//!
//! These are calls into code that is not verified here; each item states
//! what the library relies on.
use vstd::prelude::*;

use rustc_hash::{FxBuildHasher, FxHashMap};

use crate::date::Date;

verus! {

/// What a bucket has gathered so far: sats, and the sum of price times sats
/// (cents times sats).
#[derive(Clone, Copy, Debug)]
pub struct BucketAccum {
    pub spent: u64,
    pub cost_basis_value: u128,
}

/// Buckets by their lower price bound, in cents.
pub type BucketMap = FxHashMap<u64, BucketAccum>;

/// `rustc_hash::FxBuildHasher`, the hasher of an `FxHashMap`.
#[verifier::external_type_specification]
#[verifier::external_body]
pub struct ExFxBuildHasher(FxBuildHasher);

/// Calls `FxHashMap::with_capacity_and_hasher` (std's `HashMap` with the Fx
/// hasher). Claimed: the new map is empty.
#[verifier::external_body]
pub(crate) fn fx_map_with_capacity(capacity: usize) -> (r: BucketMap)
    ensures
        r@.dom().is_empty(),
{
    FxHashMap::with_capacity_and_hasher(capacity, FxBuildHasher::default())
}

/// Calls `HashMap::get` on an `FxHashMap` and copies the value out.
/// Claimed: the value stored under `key`, if any.
#[verifier::external_body]
pub(crate) fn fx_map_get(m: &BucketMap, key: u64) -> (r: Option<BucketAccum>)
    ensures
        r == if m@.contains_key(key) {
            Some(m@[key])
        } else {
            None
        },
{
    m.get(&key).copied()
}

/// Calls `HashMap::insert` on an `FxHashMap`. Claimed: afterwards `key` maps
/// to `value` and every other key is unchanged.
#[verifier::external_body]
pub(crate) fn fx_map_insert(m: &mut BucketMap, key: u64, value: BucketAccum)
    ensures
        final(m)@ == old(m)@.insert(key, value),
{
    m.insert(key, value);
}

/// Calls `HashMap::into_iter` on an `FxHashMap` and collects the entries into
/// a `Vec`. Claimed: each entry of the map appears, each key once, and
/// nothing else; the order is the map's own and is not stated.
#[verifier::external_body]
pub(crate) fn fx_map_into_vec(m: BucketMap) -> (r: Vec<(u64, BucketAccum)>)
    ensures
        forall|i: int, j: int| 0 <= i < j < r@.len() ==> r@[i].0 != r@[j].0,
        forall|i: int|
            0 <= i < r@.len() ==> m@.contains_key(#[trigger] r@[i].0) && m@[r@[i].0] == r@[i].1,
        forall|k: u64| #[trigger] m@.contains_key(k) ==> exists|i: int| 0 <= i < r@.len() && r@[i].0 == k,
{
    m.into_iter().collect()
}

/// Calls `slice::sort_unstable_by_key` with the first component as the key.
/// Claimed: the result holds the same entries, in nondecreasing order of
/// that key.
#[verifier::external_body]
pub(crate) fn sort_by_first(v: &mut Vec<(u64, BucketAccum)>)
    ensures
        final(v)@.to_multiset() == old(v)@.to_multiset(),
        forall|i: int, j: int| 0 <= i <= j < final(v)@.len() ==> final(v)@[i].0 <= final(v)@[j].0,
{
    v.sort_unstable_by_key(|e| e.0);
}

/// Calls `slice::sort_unstable` on `u32`s. Claimed: the result holds the same
/// numbers, in nondecreasing order.
#[verifier::external_body]
pub(crate) fn sort_u32(v: &mut Vec<u32>)
    ensures
        final(v)@.to_multiset() == old(v)@.to_multiset(),
        forall|i: int, j: int| 0 <= i <= j < final(v)@.len() ==> final(v)@[i] <= final(v)@[j],
{
    v.sort_unstable();
}

/// Calls `slice::sort_by_key` with `Date::sort_key` as the key. Claimed: the
/// result holds the same dates, in nondecreasing order of that key.
#[verifier::external_body]
pub(crate) fn sort_dates(v: &mut Vec<Date>)
    ensures
        final(v)@.to_multiset() == old(v)@.to_multiset(),
        forall|i: int, j: int|
            0 <= i <= j < final(v)@.len() ==> final(v)@[i].key_of() <= final(v)@[j].key_of(),
{
    v.sort_by_key(|d| d.sort_key());
}
} // verus!
