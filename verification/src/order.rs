//! The total order on observation keys.
//!
//! Ranking needs a genuine total order on floating-point values, which IEEE
//! comparison does not give: NaN must sort above every number, and two NaN
//! must count as equal. The caller therefore encodes each value as a `u64`
//! key whose natural order realises exactly that total order, sending every
//! NaN to [`NAN_KEY`]. On keys the comparator is plain integer comparison.

use vstd::prelude::*;

verus! {

/// The key that stands for NaN: strictly above the key of every number.
pub const NAN_KEY: u64 = 0xffff_ffff_ffff_ffff;

/// Result of a three-way comparison of two observation keys.
#[derive(Clone, Copy, Debug, PartialEq, Eq, Structural)]
pub enum KeyOrder {
    Less,
    Equal,
    Greater,
}

/// Three-way comparison of two observation keys under the total order.
pub fn cmp_key(a: u64, b: u64) -> (r: KeyOrder)
    ensures
        r == KeyOrder::Less <==> a < b,
        r == KeyOrder::Greater <==> a > b,
        r == KeyOrder::Equal <==> a == b,
{
    if a < b {
        KeyOrder::Less
    } else if a > b {
        KeyOrder::Greater
    } else {
        KeyOrder::Equal
    }
}

} // verus!
