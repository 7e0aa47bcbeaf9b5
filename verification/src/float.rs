//! Single precision numbers, read through their bit patterns.
//!
//! A coordinate is a single precision IEEE 754 number. Its bit pattern is a sign bit followed by
//! a magnitude, and magnitudes are ordered as the numbers they stand for. So the signed magnitude,
//! the *key* of the number, orders numbers as `<` does: both zeros have the key 0, the infinities
//! have the largest and the smallest key, and a NaN has none.
use vstd::prelude::*;

verus! {

/// The bit pattern of positive infinity, which is also its key.
pub const INFINITY_BITS: u32 = 0x7f80_0000;

/// The bit pattern of negative zero: the sign bit alone.
pub const SIGN_BIT: u32 = 0x8000_0000;

/// The bit pattern of negative infinity.
pub const NEG_INFINITY_BITS: u32 = 0xff80_0000;

/// The bit pattern of the largest finite number, which is also its key.
pub const MAX_BITS: u32 = 0x7f7f_ffff;

/// The bit pattern of one half, which is also its key.
pub const HALF_BITS: u32 = 0x3f00_0000;

/// Where a number stands in the order of all numbers; `None` for a NaN.
pub type Key = Option<int>;

/// The key of the number with the given bit pattern.
pub open spec fn key(bits: u32) -> Key {
    if bits <= INFINITY_BITS {
        Some(bits as int)
    } else if SIGN_BIT <= bits <= NEG_INFINITY_BITS {
        Some(SIGN_BIT - bits)
    } else {
        None
    }
}

/// The keys of the first `n` numbers whose bit patterns are given.
pub open spec fn keys(bits: Seq<u32>, n: nat) -> Seq<Key> {
    Seq::new(n, |i: int| key(bits[i]))
}

/// Whether some number, not a NaN, has this key.
pub open spec fn is_number(x: Key) -> bool {
    x matches Some(k) && -INFINITY_BITS <= k <= INFINITY_BITS
}

/// Whether every entry belongs to a number.
pub open spec fn all_numbers(x: Seq<Key>) -> bool {
    forall|i: int| 0 <= i < x.len() ==> is_number(#[trigger] x[i])
}

/// `x <= y`, which holds of numbers only.
pub open spec fn le(x: Key, y: Key) -> bool {
    is_number(x) && is_number(y) && x->0 <= y->0
}

/// `x > y`, which holds of numbers only.
pub open spec fn gt(x: Key, y: Key) -> bool {
    is_number(x) && is_number(y) && x->0 > y->0
}

/// The smaller of two numbers; `None` where one of them is a NaN.
pub open spec fn lo(x: Key, y: Key) -> Key {
    if is_number(x) && is_number(y) {
        Some(if x->0 <= y->0 { x->0 } else { y->0 })
    } else {
        None
    }
}

/// The larger of two numbers; `None` where one of them is a NaN.
pub open spec fn hi(x: Key, y: Key) -> Key {
    if is_number(x) && is_number(y) {
        Some(if x->0 >= y->0 { x->0 } else { y->0 })
    } else {
        None
    }
}

/// The key of `x + y` in single precision: the exact sum rounded to the nearest number, a NaN
/// where an operand is a NaN or the sum is of opposite infinities.
pub uninterp spec fn float_sum(x: Option<int>, y: Option<int>) -> Option<int>;

/// The key of `x - y` in single precision.
pub uninterp spec fn float_difference(x: Option<int>, y: Option<int>) -> Option<int>;

/// The key of `x * y` in single precision: the exact product rounded to the nearest number, a NaN
/// where an operand is a NaN or the product is of a zero and an infinity.
pub uninterp spec fn float_product(x: Option<int>, y: Option<int>) -> Option<int>;

/// What rounding to the nearest number gives of a sum `r` of `x` and `y`: a NaN stays a NaN, and
/// larger operands never have a smaller sum.
pub open spec fn sum_is_monotone(x: Key, y: Key, r: Key) -> bool {
    &&& is_number(r) ==> is_number(x) && is_number(y)
    &&& forall|u: Key, w: Key|
        is_number(r) && is_number(#[trigger] float_sum(u, w)) ==> {
            &&& le(x, u) && le(y, w) ==> le(r, float_sum(u, w))
            &&& le(u, x) && le(w, y) ==> le(float_sum(u, w), r)
        }
}

/// What rounding to the nearest number gives of a product `r` of `x` and `y`: a NaN stays a NaN,
/// and with the same factor `x`, products are ordered as the other factors are, or in reverse
/// where `x` is negative.
pub open spec fn product_is_monotone(x: Key, y: Key, r: Key) -> bool {
    &&& is_number(r) ==> is_number(x) && is_number(y)
    &&& forall|u: Key|
        is_number(r) && is_number(#[trigger] float_product(x, u)) ==> {
            &&& le(Some(0), x) && le(y, u) ==> le(r, float_product(x, u))
            &&& le(Some(0), x) && le(u, y) ==> le(float_product(x, u), r)
            &&& le(x, Some(0)) && le(y, u) ==> le(float_product(x, u), r)
            &&& le(x, Some(0)) && le(u, y) ==> le(r, float_product(x, u))
        }
}

/// Whether the number with this bit pattern is other than zero, as a NaN is.
pub fn is_nonzero(bits: u32) -> (r: bool)
    ensures
        r == (key(bits) != Some(0int)),
{
    bits != 0 && bits != SIGN_BIT
}

/// Whether the number with the bit pattern `a` is greater than the one with the bit pattern `b`.
/// No comparison with a NaN holds.
pub fn is_greater(a: u32, b: u32) -> (r: bool)
    ensures
        r == gt(key(a), key(b)),
{
    let a_negative = SIGN_BIT <= a;
    let b_negative = SIGN_BIT <= b;
    let a_magnitude: u32 = if a_negative { a - SIGN_BIT } else { a };
    let b_magnitude: u32 = if b_negative { b - SIGN_BIT } else { b };
    if a_magnitude > INFINITY_BITS || b_magnitude > INFINITY_BITS {
        false
    } else if a_negative {
        b_negative && a_magnitude < b_magnitude
    } else {
        if b_negative {
            a_magnitude > 0 || b_magnitude > 0
        } else {
            a_magnitude > b_magnitude
        }
    }
}

/// The key of a number is its magnitude, with the sign of the number: the numbers up to positive
/// infinity come first among the bit patterns, then NaNs, then the numbers from negative zero down
/// to negative infinity, then NaNs again.
pub proof fn law_key_is_the_signed_magnitude(bits: u32)
    ensures
        bits <= 0x7f80_0000 ==> key(bits) == Some(bits as int),
        0x7f80_0000 < bits < 0x8000_0000 ==> key(bits) is None,
        0x8000_0000 <= bits <= 0xff80_0000 ==> key(bits) == Some(0x8000_0000 - bits),
        0xff80_0000 < bits ==> key(bits) is None,
        key(bits) == Some(0int) <==> bits == 0 || bits == 0x8000_0000,
{
}

/// Each bit pattern has its own key.
pub proof fn law_keys_are_of_their_patterns(bits: Seq<u32>, n: nat, i: int)
    requires
        0 <= i < n,
    ensures
        keys(bits, n).len() == n,
        keys(bits, n)[i] == key(bits[i]),
{
}

/// Keys that are there and within the infinities are those of numbers, and numbers compare as their
/// keys do; no comparison with a NaN holds.
pub proof fn law_numbers_compare_by_their_keys(x: Key, y: Key)
    ensures
        is_number(x) <==> x is Some && -0x7f80_0000 <= x->0 <= 0x7f80_0000,
        le(x, y) <==> x is Some && y is Some && -0x7f80_0000 <= x->0 <= y->0 <= 0x7f80_0000,
        gt(x, y) <==> x is Some && y is Some && 0x7f80_0000 >= x->0 > y->0 >= -0x7f80_0000,
        is_number(x) && is_number(y) ==> (le(x, y) <==> !gt(x, y)),
{
}

/// Of two numbers the smaller and the larger are the two themselves, in order; with a NaN there is
/// neither.
pub proof fn law_lo_and_hi_sort(x: Key, y: Key)
    ensures
        is_number(x) && is_number(y) ==> {
            &&& lo(x, y) == x && hi(x, y) == y || lo(x, y) == y && hi(x, y) == x
            &&& le(lo(x, y), hi(x, y))
        },
        !is_number(x) || !is_number(y) ==> lo(x, y) is None && hi(x, y) is None,
{
}

/// All entries are numbers where each is.
pub proof fn law_all_numbers_is_of_each(x: Seq<Key>)
    ensures
        all_numbers(x) <==> forall|i: int| 0 <= i < x.len() ==> is_number(#[trigger] x[i]),
{
}

} // verus!
