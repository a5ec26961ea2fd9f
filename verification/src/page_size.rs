//! The memory page size the storage layer plans residency checks around.
//! Querying the platform needs the unverified mapping layer; here the
//! crate carries the conventional default, which the mapping layer may
//! override with the platform's own answer.

use vstd::prelude::*;

verus! {

/// The page size assumed when the platform has not been asked: 4096
/// bytes, the default on the platforms the storage engine targets.
pub const DEFAULT_PAGE_SIZE: usize = 4096;

/// The page size used for residency arithmetic.
pub fn get() -> (r: usize)
    ensures
        r == DEFAULT_PAGE_SIZE,
{
    DEFAULT_PAGE_SIZE
}

/// The allocation granularity; the page size itself on these platforms.
pub fn get_granularity() -> (r: usize)
    ensures
        r == DEFAULT_PAGE_SIZE,
{
    get()
}

} // verus!
