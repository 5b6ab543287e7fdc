//! Small helpers shared by the viewport logic.

use vstd::prelude::*;

verus! {

/// Whether `val` lies in the half-open window `[lbd, lbd + ofs)`.
pub fn is_in_offset_bounds(val: usize, lbd: usize, ofs: usize) -> (r: bool)
    ensures
        r == (lbd <= val && val < lbd + ofs),
{
    lbd <= val && val - lbd < ofs
}

} // verus!
