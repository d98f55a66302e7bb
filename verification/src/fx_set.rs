//! The hash set of `rustc_hash` that the exploration keeps its visited keys in.
use vstd::prelude::*;
use rustc_hash::{FxBuildHasher, FxHashSet};

verus! {

/// `rustc_hash::FxBuildHasher`, the hasher builder of `FxHashSet`; opaque here.
#[verifier::external_type_specification]
#[verifier::external_body]
pub struct ExFxBuildHasher(FxBuildHasher);

/// The keys that an `FxHashSet<u64>` holds.
pub uninterp spec fn fx_keys(s: FxHashSet<u64>) -> Set<u64>;

/// `FxHashSet::default()` (std's `HashSet::default` with `FxBuildHasher`):
/// a set that holds no key.
#[verifier::external_body]
pub(crate) fn fx_new() -> (r: FxHashSet<u64>)
    ensures
        fx_keys(r) == Set::<u64>::empty(),
{
    FxHashSet::default()
}

/// `HashSet::insert` on an `FxHashSet<u64>`: afterwards the set holds `k`
/// besides what it held, and the result says whether `k` was new. `u64`'s
/// `Eq` and `Hash` and `FxHasher` are deterministic, which is what std's
/// documented behaviour rests on.
#[verifier::external_body]
pub(crate) fn fx_insert(s: &mut FxHashSet<u64>, k: u64) -> (r: bool)
    ensures
        fx_keys(*final(s)) == fx_keys(*old(s)).insert(k),
        r == !fx_keys(*old(s)).contains(k),
{
    s.insert(k)
}

/// `HashSet::contains` on an `FxHashSet<u64>`: whether the set holds `k`.
#[verifier::external_body]
pub(crate) fn fx_contains(s: &FxHashSet<u64>, k: u64) -> (r: bool)
    ensures
        r == fx_keys(*s).contains(k),
{
    s.contains(&k)
}

} // verus!
