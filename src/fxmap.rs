//! Hash maps keyed by basis elements, hashed with rustc-hash's Fx hasher.
use crate::basis::BasisElement;
use crate::model::is_enumeration;
use rustc_hash::FxBuildHasher;
use std::collections::HashMap;
use vstd::prelude::*;

verus! {

/// rustc-hash's `FxBuildHasher`, the hasher of every map here: it builds
/// `FxHasher::default()` each time, so equal keys always hash alike.
#[verifier::external_type_specification]
#[verifier::external_body]
pub struct ExFxBuildHasher(FxBuildHasher);

/// A map from basis elements to values, hashed with the Fx hasher.
pub type FxMap<V> = HashMap<BasisElement, V, FxBuildHasher>;

/// An empty map.
pub fn fx_new<V>() -> (r: FxMap<V>)
    ensures
        r@ == Map::<BasisElement, V>::empty(),
{
    HashMap::default()
}

/// Relies on `HashMap::insert` under rustc-hash's `FxBuildHasher`: the hasher
/// is deterministic and the key's `Eq` and `Hash` are derived, so the map
/// afterwards maps `k` to `v` and keeps every other entry.
#[verifier::external_body]
pub fn fx_insert<V>(m: &mut FxMap<V>, k: BasisElement, v: V)
    ensures
        final(m)@ == old(m)@.insert(k, v),
{
    m.insert(k, v);
}

/// Relies on `HashMap::get` under rustc-hash's `FxBuildHasher`: it finds the
/// value stored for `k`, if any.
#[verifier::external_body]
pub fn fx_get<'a, V>(m: &'a FxMap<V>, k: &BasisElement) -> (r: Option<&'a V>)
    ensures
        match r {
            Some(v) => m@.contains_key(*k) && *v == m@[*k],
            None => !m@.contains_key(*k),
        },
{
    m.get(k)
}

/// Relies on `HashMap::iter` under rustc-hash's `FxBuildHasher`: it yields
/// every entry exactly once, in an unspecified order.
#[verifier::external_body]
pub fn fx_entries(m: &FxMap<i32>) -> (r: Vec<(BasisElement, i32)>)
    ensures
        is_enumeration(r@, m@),
{
    m.iter().map(|(k, v)| (*k, *v)).collect()
}

} // verus!
