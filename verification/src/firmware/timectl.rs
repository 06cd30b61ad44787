//! The clock that nodes share: the counter of the radio and an offset.
use vstd::prelude::*;

verus! {

/// The time of the shared clock at a reading of the counter, in 64-bit
/// arithmetic.
pub fn get_mac_ff_time(mac_raw: i64, offset: i64) -> (r: i64)
    ensures
        r == mac_raw.wrapping_add(offset),
{
    mac_raw.wrapping_add(offset)
}

} // verus!
