//! IEEE-754 values held as their bit patterns.
//!
//! Scores and stored vectors are single-precision patterns (`u32`), numbers
//! inside structured values are double-precision patterns (`u64`).  Nothing
//! here does arithmetic on them: the functions classify a pattern and order
//! two patterns the way the comparison operators of the format do.

use vstd::arithmetic::power2::{
    lemma2_to64, lemma2_to64_rest, lemma_pow2_adds, lemma_pow2_pos, lemma_pow2_strictly_increases,
    pow2,
};
use vstd::prelude::*;

verus! {

/// The sign bit of a double-precision pattern.
pub const DOUBLE_SIGN: u64 = 0x8000_0000_0000_0000;

/// The pattern of positive infinity in double precision.
pub const DOUBLE_INFINITY: u64 = 0x7ff0_0000_0000_0000;

/// The value of the hidden bit of a double-precision significand, 2^52.
pub const DOUBLE_HIDDEN_BIT: u64 = 0x10_0000_0000_0000;

/// The sign bit of a single-precision pattern.
pub const SINGLE_SIGN: u32 = 0x8000_0000;

/// The pattern of positive infinity in single precision.
pub const SINGLE_INFINITY: u32 = 0x7f80_0000;

/// The pattern with its sign bit cleared.
pub open spec fn double_magnitude(bits: u64) -> int {
    if bits >= DOUBLE_SIGN {
        bits - DOUBLE_SIGN
    } else {
        bits as int
    }
}

/// Whether the pattern is a NaN: exponent all ones and a non-zero fraction.
pub open spec fn double_is_nan(bits: u64) -> bool {
    double_magnitude(bits) > DOUBLE_INFINITY
}

/// An integer that orders non-NaN patterns as the values they encode are
/// ordered.  Both zeros map to 0.
pub open spec fn double_key(bits: u64) -> int {
    if bits >= DOUBLE_SIGN {
        -double_magnitude(bits)
    } else {
        double_magnitude(bits)
    }
}

/// The pattern with its sign bit cleared.
pub open spec fn single_magnitude(bits: u32) -> int {
    if bits >= SINGLE_SIGN {
        bits - SINGLE_SIGN
    } else {
        bits as int
    }
}

/// Whether the pattern is a NaN.
pub open spec fn single_is_nan(bits: u32) -> bool {
    single_magnitude(bits) > SINGLE_INFINITY
}

/// An integer that orders non-NaN patterns as the values they encode are
/// ordered.  Both zeros map to 0.
pub open spec fn single_key(bits: u32) -> int {
    if bits >= SINGLE_SIGN {
        -single_magnitude(bits)
    } else {
        single_magnitude(bits)
    }
}

/// `a >= b` as the format defines it: false as soon as one side is a NaN.
pub open spec fn single_ge(a: u32, b: u32) -> bool {
    !single_is_nan(a) && !single_is_nan(b) && single_key(a) >= single_key(b)
}

/// Whether the double-precision pattern is a NaN.
pub fn is_nan_double(bits: u64) -> (r: bool)
    ensures
        r == double_is_nan(bits),
{
    let magnitude: u64 = if bits >= DOUBLE_SIGN {
        bits - DOUBLE_SIGN
    } else {
        bits
    };
    magnitude > DOUBLE_INFINITY
}

/// The integer that orders the double-precision pattern.
pub fn key_double(bits: u64) -> (k: i128)
    ensures
        k == double_key(bits),
{
    if bits >= DOUBLE_SIGN {
        let magnitude: u64 = bits - DOUBLE_SIGN;
        -(magnitude as i128)
    } else {
        bits as i128
    }
}

/// Whether the single-precision pattern is a NaN.
pub fn is_nan_single(bits: u32) -> (r: bool)
    ensures
        r == single_is_nan(bits),
{
    let magnitude: u32 = if bits >= SINGLE_SIGN {
        bits - SINGLE_SIGN
    } else {
        bits
    };
    magnitude > SINGLE_INFINITY
}

/// The integer that orders the single-precision pattern.
pub fn key_single(bits: u32) -> (k: i64)
    ensures
        k == single_key(bits),
{
    if bits >= SINGLE_SIGN {
        let magnitude: u32 = bits - SINGLE_SIGN;
        -(magnitude as i64)
    } else {
        bits as i64
    }
}

/// `a >= b` for two single-precision patterns.
pub fn ge_single(a: u32, b: u32) -> (r: bool)
    ensures
        r == single_ge(a, b),
{
    !is_nan_single(a) && !is_nan_single(b) && key_single(a) >= key_single(b)
}

/// The number of binary digits of `n`: 0 for 0, else one more than the
/// position of its highest set bit.
pub open spec fn bit_length(n: nat) -> nat
    decreases n,
{
    if n == 0 {
        0
    } else {
        1 + bit_length(n / 2)
    }
}

/// A positive number lies between the two powers of two that its length
/// names.
pub proof fn lemma_bit_length_bounds(n: nat)
    requires
        n > 0,
    ensures
        bit_length(n) >= 1,
        pow2((bit_length(n) - 1) as nat) <= n < pow2(bit_length(n)),
    decreases n,
{
    if n == 1 {
        assert(bit_length(1) == 1 + bit_length(0));
        lemma2_to64();
    } else {
        let half = n / 2;
        lemma_bit_length_bounds(half);
        let len = bit_length(half);
        lemma_pow2_adds((len - 1) as nat, 1);
        lemma_pow2_adds(len, 1);
        lemma2_to64();
        assert(pow2(len) == 2 * pow2((len - 1) as nat)) by (nonlinear_arith)
            requires
                pow2(len) == pow2((len - 1) as nat) * pow2(1),
                pow2(1) == 2,
        ;
        assert(pow2(len + 1) == 2 * pow2(len)) by (nonlinear_arith)
            requires
                pow2(len + 1) == pow2(len) * pow2(1),
                pow2(1) == 2,
        ;
    }
}

/// The significand of the double nearest to a positive `n`, with its hidden
/// bit: `n` scaled up to 53 digits, or cut down to 53 digits and rounded.
/// It is 2^53 where rounding carried into the next power of two.
pub open spec fn rounded_significand(n: nat) -> int {
    let len = bit_length(n);
    if len <= 53 {
        (n * pow2((53 - len) as nat)) as int
    } else {
        let unit = pow2((len - 53) as nat);
        let half = pow2((len - 54) as nat);
        let quotient = n / unit;
        let rest = n % unit;
        if rest > half || (rest == half && quotient % 2 == 1) {
            (quotient + 1) as int
        } else {
            quotient as int
        }
    }
}

/// The pattern of the double nearest to `n`, with ties going to the even
/// significand: what a conversion of the integer gives.  The exponent field
/// is 1022 and the number of digits of `n`; the significand goes into the
/// fraction field without its hidden bit, and where it is 2^53 it carries
/// into the exponent.
pub open spec fn nearest_double(n: nat) -> int {
    if n == 0 {
        0
    } else {
        (1022 + bit_length(n)) * pow2(52) + (rounded_significand(n) - pow2(52))
    }
}

/// The integer that orders the double nearest to `n` among the patterns.
pub open spec fn integer_key(n: int) -> int {
    if n >= 0 {
        nearest_double(n as nat)
    } else {
        -nearest_double((-n) as nat)
    }
}

/// A number below 2^`bound` has at most `bound` digits.
pub proof fn lemma_bit_length_at_most(n: nat, bound: nat)
    requires
        n < pow2(bound),
    ensures
        bit_length(n) <= bound,
{
    if n > 0 {
        lemma_bit_length_bounds(n);
        if bit_length(n) > bound {
            if bit_length(n) - 1 > bound {
                lemma_pow2_strictly_increases(bound, (bit_length(n) - 1) as nat);
            }
        }
    }
}

/// The number of binary digits of `n`.
pub fn length_of(n: u64) -> (len: u32)
    ensures
        len == bit_length(n as nat),
        len <= 64,
{
    proof {
        lemma2_to64_rest();
        lemma_bit_length_at_most(n as nat, 64);
    }
    let mut rest: u64 = n;
    let mut len: u32 = 0;
    while rest > 0
        invariant
            bit_length(n as nat) == len + bit_length(rest as nat),
            len + bit_length(rest as nat) <= 64,
        decreases rest,
    {
        rest = rest / 2;
        len = len + 1;
    }
    len
}

/// 2^`exponent`.
pub fn power_of_two(exponent: u32) -> (r: u64)
    requires
        exponent < 64,
    ensures
        r == pow2(exponent as nat),
{
    let mut r: u64 = 1;
    let mut done: u32 = 0;
    proof {
        lemma2_to64();
    }
    while done < exponent
        invariant
            done <= exponent < 64,
            r == pow2(done as nat),
        decreases exponent - done,
    {
        proof {
            lemma_pow2_adds(done as nat, 1);
            lemma2_to64();
            lemma2_to64_rest();
            if done + 1 < 63 {
                lemma_pow2_strictly_increases((done + 1) as nat, 63);
            }
            assert(pow2((done + 1) as nat) == 2 * pow2(done as nat)) by (nonlinear_arith)
                requires
                    pow2((done + 1) as nat) == pow2(done as nat) * pow2(1),
                    pow2(1) == 2,
            ;
        }
        r = r * 2;
        done = done + 1;
    }
    r
}

/// The pattern of the double nearest to `n`.
pub fn double_of_u64(n: u64) -> (bits: u64)
    ensures
        bits == nearest_double(n as nat),
        bits < DOUBLE_INFINITY,
{
    if n == 0 {
        return 0;
    }
    let len: u32 = length_of(n);
    proof {
        lemma_bit_length_bounds(n as nat);
        lemma2_to64_rest();
    }
    let exponent: u64 = 1022 + len as u64;
    assert(pow2(52) == 0x10_0000_0000_0000);
    assert(pow2(53) == 0x20_0000_0000_0000);
    if len <= 53 {
        let scale: u64 = power_of_two(53 - len);
        proof {
            lemma_pow2_pos((53 - len) as nat);
            lemma_pow2_adds(len as nat, (53 - len) as nat);
            lemma_pow2_adds((len - 1) as nat, (53 - len) as nat);
            assert(n * scale < pow2(53) && n * scale >= pow2(52)) by (nonlinear_arith)
                requires
                    pow2((len - 1) as nat) <= n < pow2(len as nat),
                    scale == pow2((53 - len) as nat),
                    scale > 0,
                    pow2(53) == pow2(len as nat) * pow2((53 - len) as nat),
                    pow2(52) == pow2((len - 1) as nat) * pow2((53 - len) as nat),
            ;
        }
        let significand: u64 = n * scale;
        exponent * DOUBLE_HIDDEN_BIT + (significand - DOUBLE_HIDDEN_BIT)
    } else {
        let unit: u64 = power_of_two(len - 53);
        let half: u64 = power_of_two(len - 54);
        proof {
            lemma_pow2_pos((len - 53) as nat);
        }
        let quotient: u64 = n / unit;
        let rest: u64 = n % unit;
        proof {
            lemma_pow2_adds(53, (len - 53) as nat);
            lemma_pow2_adds(52, (len - 53) as nat);
            assert(pow2(52) <= n / unit < pow2(53)) by (nonlinear_arith)
                requires
                    pow2((len - 1) as nat) <= n < pow2(len as nat),
                    unit == pow2((len - 53) as nat),
                    unit > 0,
                    pow2(len as nat) == pow2(53) * pow2((len - 53) as nat),
                    pow2((len - 1) as nat) == pow2(52) * pow2((len - 53) as nat),
            ;
        }
        let rounded: u64 = if rest > half || (rest == half && quotient % 2 == 1) {
            quotient + 1
        } else {
            quotient
        };
        exponent * DOUBLE_HIDDEN_BIT + (rounded - DOUBLE_HIDDEN_BIT)
    }
}

/// The integer that orders the double nearest to `n`.
pub fn key_of_u64(n: u64) -> (k: i128)
    ensures
        k == integer_key(n as int),
{
    double_of_u64(n) as i128
}

/// The integer that orders the double nearest to `n`.
pub fn key_of_i64(n: i64) -> (k: i128)
    ensures
        k == integer_key(n as int),
{
    if n >= 0 {
        double_of_u64(n as u64) as i128
    } else {
        let magnitude: u64 = (-(n as i128)) as u64;
        -(double_of_u64(magnitude) as i128)
    }
}

/// The integer that a double-precision pattern without sign encodes; `None`
/// for a NaN, an infinity and every value with a fractional part.
pub open spec fn magnitude_integer(magnitude: int) -> Option<int> {
    let exponent = magnitude / (DOUBLE_HIDDEN_BIT as int);
    let fraction = magnitude % (DOUBLE_HIDDEN_BIT as int);
    let significand = DOUBLE_HIDDEN_BIT + fraction;
    if magnitude >= DOUBLE_INFINITY {
        None
    } else if exponent == 0 {
        if fraction == 0 {
            Some(0)
        } else {
            None
        }
    } else if exponent >= 1075 {
        Some(significand * pow2((exponent - 1075) as nat))
    } else if exponent >= 1023 && significand % (pow2((1075 - exponent) as nat) as int) == 0 {
        Some(significand / (pow2((1075 - exponent) as nat) as int))
    } else {
        None
    }
}

/// The integer that the double with ordering key `key` encodes; `None`
/// where it encodes no integer.
pub open spec fn key_integer(key: int) -> Option<int> {
    if key < 0 {
        match magnitude_integer(-key) {
            Some(v) => Some(-v),
            None => None,
        }
    } else {
        magnitude_integer(key)
    }
}

/// A non-negative integer in the range of `usize`, as a `usize`; `None` for
/// every other integer.
pub open spec fn as_index(v: int) -> Option<usize> {
    if 0 <= v <= usize::MAX {
        Some(v as usize)
    } else {
        None
    }
}

/// The integer that the double with ordering key `key` encodes, where it
/// encodes one that is not negative and lies in the range of `usize`.
pub open spec fn key_index(key: int) -> Option<usize> {
    match key_integer(key) {
        Some(v) => as_index(v),
        None => None,
    }
}

/// The integer that a double-precision pattern encodes, where it encodes one
/// that is not negative and lies in the range of `usize`.  `None` for a NaN,
/// an infinity, a value with a fractional part, a whole number below zero
/// and a whole number above the range.
pub fn integer_of_double(bits: u64) -> (r: Option<usize>)
    ensures
        r == key_index(double_key(bits)),
{
    let negative = bits >= DOUBLE_SIGN;
    let magnitude: u64 = if negative {
        bits - DOUBLE_SIGN
    } else {
        bits
    };
    if magnitude >= DOUBLE_INFINITY {
        return None;
    }
    let exponent: u64 = magnitude / DOUBLE_HIDDEN_BIT;
    let fraction: u64 = magnitude % DOUBLE_HIDDEN_BIT;
    let significand: u64 = DOUBLE_HIDDEN_BIT + fraction;
    if exponent == 0 {
        return if fraction == 0 {
            Some(0)
        } else {
            None
        };
    }
    if exponent >= 1075 {
        let shift: u64 = exponent - 1075;
        proof {
            lemma_pow2_pos(shift as nat);
            lemma2_to64();
            lemma2_to64_rest();
            assert(significand * pow2(shift as nat) > 0) by (nonlinear_arith)
                requires
                    significand >= 0x10_0000_0000_0000,
                    pow2(shift as nat) > 0,
            ;
        }
        if negative {
            return None;
        }
        if shift >= 12 {
            proof {
                if shift > 12 {
                    lemma_pow2_strictly_increases(12, shift as nat);
                }
                assert(significand * pow2(shift as nat) >= 0x1_0000_0000_0000_0000)
                    by (nonlinear_arith)
                    requires
                        significand >= 0x10_0000_0000_0000,
                        pow2(shift as nat) >= 0x1000,
                ;
            }
            return None;
        }
        let unit: u64 = power_of_two(shift as u32);
        proof {
            if shift < 11 {
                lemma_pow2_strictly_increases(shift as nat, 11);
            }
            assert(significand * unit < 0x1_0000_0000_0000_0000) by (nonlinear_arith)
                requires
                    significand < 0x20_0000_0000_0000,
                    unit <= 0x800,
            ;
        }
        let whole: u64 = significand * unit;
        return index_of_u64(whole);
    }
    if exponent < 1023 {
        return None;
    }
    let unit: u64 = power_of_two((1075 - exponent) as u32);
    proof {
        lemma_pow2_pos((1075 - exponent) as nat);
        lemma2_to64_rest();
        if 1075 - exponent < 52 {
            lemma_pow2_strictly_increases((1075 - exponent) as nat, 52);
        }
    }
    if significand % unit != 0 {
        return None;
    }
    proof {
        assert(significand / unit >= 1) by (nonlinear_arith)
            requires
                0 < unit <= 0x10_0000_0000_0000,
                significand >= 0x10_0000_0000_0000,
        ;
    }
    if negative {
        None
    } else {
        index_of_u64(significand / unit)
    }
}

/// `v` as a `usize`, where it lies in its range.
pub fn index_of_u64(v: u64) -> (r: Option<usize>)
    ensures
        r == as_index(v as int),
{
    if v > usize::MAX as u64 {
        None
    } else {
        Some(v as usize)
    }
}

/// The gap between neighbouring doubles at the magnitude of `n`: 1 up to
/// 2^53, then a power of two.
pub open spec fn spacing(n: nat) -> nat {
    if bit_length(n) <= 53 {
        1
    } else {
        pow2((bit_length(n) - 53) as nat)
    }
}

/// The double nearest to a positive integer below 2^64 encodes an integer
/// `v`: a multiple of the spacing at `n` that is at most half a spacing
/// away from `n`, and an even multiple where it is exactly half a spacing
/// away.  Up to 2^53 it is `n` itself.
pub proof fn lemma_nearest_double_value(n: nat) -> (v: int)
    requires
        0 < n < pow2(64),
    ensures
        magnitude_integer(nearest_double(n)) == Some(v),
        0 < nearest_double(n) < DOUBLE_INFINITY,
        v % (spacing(n) as int) == 0,
        2 * (v - n) <= spacing(n),
        2 * (n - v) <= spacing(n),
        2 * (v - n) == spacing(n) || 2 * (n - v) == spacing(n) ==> (v / (spacing(n) as int)) % 2
            == 0,
        bit_length(n) <= 53 ==> v == n,
{
    lemma_bit_length_bounds(n);
    lemma_bit_length_at_most(n, 64);
    lemma2_to64_rest();
    let len = bit_length(n);
    let hidden: int = 0x10_0000_0000_0000;
    assert(pow2(52) == hidden);
    assert(pow2(53) == 2 * hidden);
    if len <= 53 {
        let shift = (53 - len) as nat;
        let scale = pow2(shift);
        let sig: int = (n * scale) as int;
        lemma_pow2_pos(shift);
        lemma_pow2_adds(len, shift);
        lemma_pow2_adds((len - 1) as nat, shift);
        assert(hidden <= sig < 2 * hidden) by (nonlinear_arith)
            requires
                pow2((len - 1) as nat) <= n < pow2(len),
                sig == n * scale,
                scale > 0,
                2 * hidden == pow2(len) * scale,
                hidden == pow2((len - 1) as nat) * scale,
        ;
        let exponent: int = (1022 + len) as int;
        let bits = nearest_double(n);
        assert(bits == exponent * hidden + (sig - hidden));
        lemma_split(bits, exponent, sig - hidden, hidden);
        if len == 53 {
            assert(shift == 0);
            lemma2_to64();
            assert(sig == n) by (nonlinear_arith)
                requires
                    sig == n * scale,
                    scale == 1,
            ;
            assert(sig * pow2(0) == sig) by (nonlinear_arith)
                requires
                    pow2(0) == 1,
            ;
        } else {
            assert(1075 - exponent == shift);
            lemma_multiple(n as int, scale as int);
        }
        assert(n % 1 == 0);
        n as int
    } else {
        let shift = (len - 53) as nat;
        let unit = pow2(shift);
        let half = pow2((len - 54) as nat);
        lemma_pow2_pos(shift);
        lemma_pow2_pos((len - 54) as nat);
        lemma_pow2_adds((len - 54) as nat, 1);
        lemma2_to64();
        assert(unit == 2 * half) by (nonlinear_arith)
            requires
                unit == half * pow2(1),
                pow2(1) == 2,
        ;
        let quotient: int = (n / unit) as int;
        let rest: int = (n % unit) as int;
        vstd::arithmetic::div_mod::lemma_fundamental_div_mod(n as int, unit as int);
        vstd::arithmetic::div_mod::lemma_mod_bound(n as int, unit as int);
        lemma_pow2_adds(53, shift);
        lemma_pow2_adds(52, shift);
        assert(hidden <= quotient < 2 * hidden) by (nonlinear_arith)
            requires
                pow2((len - 1) as nat) <= n < pow2(len),
                n == unit * quotient + rest,
                0 <= rest < unit,
                unit > 0,
                pow2(len) == 2 * hidden * unit,
                pow2((len - 1) as nat) == hidden * unit,
        ;
        let rounded: int = if rest > half || (rest == half && quotient % 2 == 1) {
            quotient + 1
        } else {
            quotient
        };
        let exponent: int = (1022 + len) as int;
        let bits = nearest_double(n);
        assert(bits == exponent * hidden + (rounded - hidden));
        let v: int = rounded * unit;
        assert(rounded == rounded_significand(n));
        if rounded == quotient {
            assert(v - n == -rest) by (nonlinear_arith)
                requires
                    v == rounded * unit,
                    n == unit * quotient + rest,
                    rounded == quotient,
            ;
        } else {
            assert(v - n == unit - rest) by (nonlinear_arith)
                requires
                    v == rounded * unit,
                    n == unit * quotient + rest,
                    rounded == quotient + 1,
            ;
        }
        assert(spacing(n) == unit);
        assert(2 * (v - n) <= unit && 2 * (n - v) <= unit);
        lemma_multiple(rounded, unit as int);
        if rounded < 2 * hidden {
            lemma_split(bits, exponent, rounded - hidden, hidden);
            assert(exponent - 1075 == shift);
        } else {
            assert(bits == (exponent + 1) * hidden + 0) by (nonlinear_arith)
                requires
                    bits == exponent * hidden + (rounded - hidden),
                    rounded == 2 * hidden,
            ;
            lemma_split(bits, exponent + 1, 0, hidden);
            lemma_pow2_adds(shift, 1);
            assert(hidden * pow2(shift + 1) == rounded * unit) by (nonlinear_arith)
                requires
                    pow2(shift + 1) == unit * pow2(1),
                    pow2(1) == 2,
                    rounded == 2 * hidden,
            ;
            assert((exponent + 1 - 1075) as nat == shift + 1);
        }
        v
    }
}

/// A number written as `high * base + low` with `0 <= low < base` has `high`
/// as its quotient by `base` and `low` as its remainder.
proof fn lemma_split(x: int, high: int, low: int, base: int)
    requires
        base > 0,
        0 <= low < base,
        x == high * base + low,
    ensures
        x / base == high,
        x % base == low,
{
    vstd::arithmetic::div_mod::lemma_fundamental_div_mod_converse(x, base, high, low);
}

/// A product is a multiple of its factor, and dividing gives the other
/// factor back.
proof fn lemma_multiple(k: int, d: int)
    requires
        d > 0,
    ensures
        (k * d) % d == 0,
        (k * d) / d == k,
{
    lemma_split(k * d, k, 0, d);
}

/// The significand of the nearest double lies between 2^52 and 2^53.
proof fn lemma_rounded_significand_bounds(n: nat)
    requires
        n > 0,
    ensures
        nearest_double(n) == (1022 + bit_length(n)) * pow2(52) + (rounded_significand(n) - pow2(52)),
        pow2(52) <= rounded_significand(n) <= 2 * pow2(52),
{
    lemma_bit_length_bounds(n);
    let len = bit_length(n);
    lemma_pow2_adds(52, 1);
    lemma2_to64();
    assert(pow2(53) == 2 * pow2(52)) by (nonlinear_arith)
        requires
            pow2(53) == pow2(52) * pow2(1),
            pow2(1) == 2,
    ;
    if len <= 53 {
        let shift = (53 - len) as nat;
        lemma_pow2_pos(shift);
        lemma_pow2_adds(len, shift);
        lemma_pow2_adds((len - 1) as nat, shift);
        assert(pow2(52) <= n * pow2(shift) < pow2(53)) by (nonlinear_arith)
            requires
                pow2((len - 1) as nat) <= n < pow2(len),
                pow2(shift) > 0,
                pow2(53) == pow2(len) * pow2(shift),
                pow2(52) == pow2((len - 1) as nat) * pow2(shift),
        ;
    } else {
        let shift = (len - 53) as nat;
        let unit = pow2(shift);
        lemma_pow2_pos(shift);
        vstd::arithmetic::div_mod::lemma_fundamental_div_mod(n as int, unit as int);
        vstd::arithmetic::div_mod::lemma_mod_bound(n as int, unit as int);
        lemma_pow2_adds(53, shift);
        lemma_pow2_adds(52, shift);
        let quotient = n / unit;
        let rest = n % unit;
        assert(pow2(52) <= quotient < pow2(53)) by (nonlinear_arith)
            requires
                pow2((len - 1) as nat) <= n < pow2(len),
                n == unit * quotient + rest,
                0 <= rest < unit,
                unit > 0,
                pow2(len) == pow2(53) * unit,
                pow2((len - 1) as nat) == pow2(52) * unit,
        ;
    }
}

/// A longer number is not smaller.
proof fn lemma_bit_length_monotone(m: nat, n: nat)
    requires
        m <= n,
    ensures
        bit_length(m) <= bit_length(n),
{
    if m > 0 {
        lemma_bit_length_bounds(m);
        lemma_bit_length_bounds(n);
        if bit_length(m) > bit_length(n) {
            if bit_length(m) - 1 > bit_length(n) {
                lemma_pow2_strictly_increases(bit_length(n), (bit_length(m) - 1) as nat);
            }
        }
    }
}

/// The nearest double grows with the integer: of two integers the greater
/// never goes to the smaller pattern.
pub proof fn lemma_nearest_double_monotone(m: nat, n: nat)
    requires
        m <= n,
    ensures
        0 <= nearest_double(m) <= nearest_double(n),
{
    lemma_pow2_pos(52);
    if n > 0 {
        lemma_rounded_significand_bounds(n);
        assert((1022 + bit_length(n)) * pow2(52) >= 0) by (nonlinear_arith)
            requires
                pow2(52) > 0,
        ;
    }
    if m > 0 {
        lemma_rounded_significand_bounds(m);
        lemma_bit_length_monotone(m, n);
        let hidden = pow2(52);
        let len_m = bit_length(m);
        let len_n = bit_length(n);
        assert((1022 + len_m) * hidden >= 0) by (nonlinear_arith)
            requires
                hidden > 0,
        ;
        if len_m < len_n {
            assert((1022 + len_m) * hidden + hidden <= (1022 + len_n) * hidden) by (nonlinear_arith)
                requires
                    len_m < len_n,
                    hidden > 0,
            ;
        } else if len_m <= 53 {
            let scale = pow2((53 - len_m) as nat);
            assert(m * scale <= n * scale) by (nonlinear_arith)
                requires
                    m <= n,
                    scale >= 0,
            ;
        } else {
            let unit = pow2((len_m - 53) as nat);
            lemma_pow2_pos((len_m - 53) as nat);
            vstd::arithmetic::div_mod::lemma_fundamental_div_mod(m as int, unit as int);
            vstd::arithmetic::div_mod::lemma_fundamental_div_mod(n as int, unit as int);
            vstd::arithmetic::div_mod::lemma_mod_bound(m as int, unit as int);
            vstd::arithmetic::div_mod::lemma_mod_bound(n as int, unit as int);
            vstd::arithmetic::div_mod::lemma_div_is_ordered(m as int, n as int, unit as int);
            let qm = m / unit;
            let qn = n / unit;
            if qm == qn {
                let rm = m % unit;
                let rn = n % unit;
                assert(unit * qm == unit * qn);
                assert(rm <= rn);
            }
        }
    }
}

/// The ordering key of the nearest double grows with the integer.
pub proof fn lemma_integer_key_monotone(a: int, b: int)
    requires
        a <= b,
    ensures
        integer_key(a) <= integer_key(b),
{
    if a >= 0 {
        lemma_nearest_double_monotone(a as nat, b as nat);
    } else if b >= 0 {
        lemma_nearest_double_monotone(0, (-a) as nat);
        lemma_nearest_double_monotone(0, b as nat);
    } else {
        lemma_nearest_double_monotone((-b) as nat, (-a) as nat);
    }
}

} // verus!
