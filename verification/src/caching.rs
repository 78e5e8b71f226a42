//! Figures of a cache of authorization checks.

use vstd::prelude::*;

verus! {

/// How often a cache of authorization checks answered from what it held, how
/// often it did not, and how many answers it holds.
#[derive(Debug, PartialEq, Eq, Structural, Clone, Copy)]
pub struct AuthzCacheStats {
    pub hits: u64,
    pub misses: u64,
    pub size: usize,
}

impl AuthzCacheStats {
    /// The figures `hits`, `misses` and `size`.
    pub fn new(hits: u64, misses: u64, size: usize) -> (stats: Self)
        ensures
            stats.hits == hits,
            stats.misses == misses,
            stats.size == size,
    {
        Self { hits, misses, size }
    }
}

} // verus!
