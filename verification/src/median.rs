use vstd::prelude::*;

verus! {

/// The middle value of three.
pub open spec fn spec_median(x: u8, y: u8, z: u8) -> u8 {
    let lo = if x <= y { x } else { y };
    let hi = if x <= y { y } else { x };
    let m = if hi <= z { hi } else { z };
    if lo <= m { m } else { lo }
}

/// The middle of `x`, `y` and `z`: `max(min(x, y), min(max(x, y), z))`.
pub fn median(x: u8, y: u8, z: u8) -> (r: u8)
    ensures
        r == spec_median(x, y, z),
{
    if x < y {
        if y < z {
            y
        } else if x < z {
            z
        } else {
            x
        }
    } else if x < z {
        x
    } else if y < z {
        z
    } else {
        y
    }
}

} // verus!
