use vstd::prelude::*;

verus! {

/// A real number as the library holds it: a key of 64 bits, such that keys
/// compare as the numbers that they stand for. The key of an IEEE 754 double
/// that is not negative is its bit pattern; the key of a negative one is its
/// bit pattern with every bit but the sign turned over. Whoever hands numbers
/// to the library makes the keys; what orders, clamps or selects here then
/// does so by comparing integers.
pub type Num = i64;

/// The key of zero.
pub const ZERO: Num = 0;

/// The key of one.
pub const ONE: Num = 0x3FF0_0000_0000_0000;

pub fn max(a: Num, b: Num) -> (m: Num)
    ensures
        m == vstd::math::max(a as int, b as int),
{
    if a < b {
        b
    } else {
        a
    }
}

pub fn min(a: Num, b: Num) -> (m: Num)
    ensures
        m == vstd::math::min(a as int, b as int),
{
    if a < b {
        a
    } else {
        b
    }
}

} // verus!
