//! Single-precision numbers, carried as their bit patterns, and their order.

use vstd::prelude::*;

verus! {

/// The bit pattern of the largest finite number.
pub const F32_MAX: u32 = 0x7f7f_ffff;

/// The bit pattern stands for no number.
pub open spec fn is_nan(bits: u32) -> bool {
    bits % 0x8000_0000 > 0x7f80_0000
}

/// The place of a number among all numbers. The two zeros share theirs.
pub open spec fn rank(bits: u32) -> int {
    if bits < 0x8000_0000 {
        bits as int
    } else {
        0x8000_0000 - bits
    }
}

/// The order of the numbers. What is no number is neither below nor above
/// anything.
pub open spec fn below(a: u32, b: u32) -> bool {
    !is_nan(a) && !is_nan(b) && rank(a) < rank(b)
}

/// Whether the bit pattern stands for no number.
pub fn nan(bits: u32) -> (yes: bool)
    ensures
        yes == is_nan(bits),
{
    bits % 0x8000_0000 > 0x7f80_0000
}

/// The place of a number among all numbers.
pub fn rank_of(bits: u32) -> (place: i64)
    ensures
        place == rank(bits),
{
    if bits < 0x8000_0000 {
        bits as i64
    } else {
        0x8000_0000 - bits as i64
    }
}

/// Whether `a` is a smaller number than `b`.
pub fn less(a: u32, b: u32) -> (yes: bool)
    ensures
        yes == below(a, b),
{
    !nan(a) && !nan(b) && rank_of(a) < rank_of(b)
}

/// What is no number has an exponent of ones and a mantissa that is not zero.
/// Numbers of one sign are ordered as their patterns are, or the other way round
/// if they are negative; a negative number is below a positive one, unless both
/// are zero.
pub proof fn lemma_order(a: u32, b: u32)
    ensures
        is_nan(a) <==> (a / 0x80_0000) % 0x100 == 0xff && a % 0x80_0000 != 0,
        is_nan(a) || is_nan(b) ==> !below(a, b),
        !is_nan(a) && !is_nan(b) ==> {
            &&& a < 0x8000_0000 && b < 0x8000_0000 ==> (below(a, b) <==> a < b)
            &&& a >= 0x8000_0000 && b >= 0x8000_0000 ==> (below(a, b) <==> b < a)
            &&& a >= 0x8000_0000 && b < 0x8000_0000 ==> (below(a, b) <==> !(a == 0x8000_0000 && b
                == 0))
            &&& a < 0x8000_0000 && b >= 0x8000_0000 ==> !below(a, b)
            &&& below(a, b) <==> rank(a) < rank(b)
        },
        rank(a) == rank(b) <==> a == b || (a % 0x8000_0000 == 0 && b % 0x8000_0000 == 0),
{
}

/// The greatest finite number: no number is above it but infinity.
pub proof fn lemma_largest(a: u32)
    ensures
        !is_nan(F32_MAX),
        below(F32_MAX, a) <==> a == 0x7f80_0000,
{
}

} // verus!
