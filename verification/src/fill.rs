//! The fill-merge rule: how a padding line that follows a record changes the
//! record's effective size.  Shared by entry-level and sub-section-level
//! records.

use vstd::prelude::*;

verus! {

/// Sum of two sizes, capped at the largest representable value.
pub open spec fn sat_add(a: u64, b: u64) -> u64 {
    if a + b <= u64::MAX {
        (a + b) as u64
    } else {
        u64::MAX
    }
}

/// Effective size of a record: a fill at the record's own address replaces
/// the record's footprint, any other fill extends it.
pub open spec fn effective_size(size: u64, fill_size: u64, fill_overlaps: bool) -> u64 {
    if fill_overlaps {
        fill_size
    } else {
        sat_add(size, fill_size)
    }
}

/// Executable saturating addition matching `sat_add`.
pub fn add_sizes(a: u64, b: u64) -> (r: u64)
    ensures
        r == sat_add(a, b),
{
    if b > u64::MAX - a {
        u64::MAX
    } else {
        a + b
    }
}

/// Fill-overlap rule: once a fill `(fill_address, fill_size)` is applied to a
/// record at `address` with original size `size`, the effective size is
/// `fill_size` alone when the fill sits at the record's own address, and the
/// sum of `size` and `fill_size` otherwise.
pub proof fn lemma_fill_overlap_rule(address: u64, size: u64, fill_address: u64, fill_size: u64)
    ensures
        fill_address == address ==> effective_size(size, fill_size, true) == fill_size,
        fill_address != address && size + fill_size <= u64::MAX ==> effective_size(
            size,
            fill_size,
            false,
        ) == size + fill_size,
{
}

/// No-fill identity: a record to which no fill line was applied keeps its
/// original size as its effective size.
pub proof fn lemma_no_fill_identity(size: u64)
    ensures
        effective_size(size, 0, false) == size,
{
}

} // verus!
