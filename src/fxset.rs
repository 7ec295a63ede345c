//! The hash set of vertex ids used while resolving adjacency.
//!
//! `FxHashSet` is std's `HashSet` with rustc_hash's `FxHasher`, which hashes a
//! key the same way every time, so the set behaves as a mathematical set.
use vstd::prelude::*;
use rustc_hash::FxHashSet;
use crate::types::VId;

verus! {

/// std's `BuildHasherDefault`, which builds each hasher with `Default`.
#[verifier::external_type_specification]
#[verifier::external_body]
#[verifier::reject_recursive_types(H)]
pub struct ExBuildHasherDefault<H>(std::hash::BuildHasherDefault<H>);

/// rustc_hash's `FxHasher`, a hasher without a random seed.
#[verifier::external_type_specification]
#[verifier::external_body]
pub struct ExFxHasher(rustc_hash::FxHasher);

/// Relies on `HashSet::default` under rustc_hash's `FxHasher`: a new set is empty.
#[verifier::external_body]
pub(crate) fn fx_new() -> (r: FxHashSet<VId>)
    ensures
        r@ == Set::<VId>::empty(),
{
    FxHashSet::default()
}

/// Relies on `HashSet::insert` under rustc_hash's `FxHasher`: the key is added.
#[verifier::external_body]
pub(crate) fn fx_insert(s: &mut FxHashSet<VId>, v: VId)
    ensures
        final(s)@ == old(s)@.insert(v),
{
    s.insert(v);
}

/// Relies on `HashSet::remove` under rustc_hash's `FxHasher`: the key is gone.
#[verifier::external_body]
pub(crate) fn fx_remove(s: &mut FxHashSet<VId>, v: VId)
    ensures
        final(s)@ == old(s)@.remove(v),
{
    s.remove(&v);
}

/// Relies on `Vec::from_iter` over a `HashSet` under rustc_hash's `FxHasher`:
/// each member comes out once, in an order that the set chooses.
#[verifier::external_body]
pub(crate) fn fx_into_vec(s: FxHashSet<VId>) -> (r: Vec<VId>)
    ensures
        r@.to_set() == s@,
        r@.no_duplicates(),
{
    Vec::from_iter(s)
}

} // verus!
