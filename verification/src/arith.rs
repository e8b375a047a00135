//! Two's-complement arithmetic on `i64`, and what can be read off the bits of
//! a double without computing with it.
use vstd::arithmetic::power2::pow2;
use vstd::prelude::*;

verus! {

/// The `i64` that is congruent to `i` modulo 2^64.
pub open spec fn wrap(i: int) -> i64 {
    let m = i % 0x1_0000_0000_0000_0000;
    if m >= 0x8000_0000_0000_0000 {
        (m - 0x1_0000_0000_0000_0000) as i64
    } else {
        m as i64
    }
}

/// The quotient rounded toward zero.
pub open spec fn quotient(x: int, y: int) -> int {
    if x >= 0 && y > 0 {
        x / y
    } else if x >= 0 {
        -(x / -y)
    } else if y > 0 {
        -(-x / y)
    } else {
        -x / -y
    }
}

/// The remainder that goes with [`quotient`]; it has the sign of `x`.
pub open spec fn remainder(x: int, y: int) -> int {
    x - y * quotient(x, y)
}

/// The shift amount that a 64-bit shift by `y` uses: the low six bits.
pub open spec fn shift_amount(y: i64) -> u64 {
    (y as u64) & 63
}

pub open spec fn shl64(x: i64, y: i64) -> i64 {
    ((x as u64) << shift_amount(y)) as i64
}

pub open spec fn shr64(x: i64, y: i64) -> i64 {
    ((x as u64) >> shift_amount(y)) as i64
}

pub open spec fn sar64(x: i64, y: i64) -> i64 {
    x >> shift_amount(y)
}

/// A number of the `i64` range wraps to itself.
pub proof fn lemma_wrap_id(x: i64)
    ensures
        wrap(x as int) == x,
{
}

/// Wrapping does not see multiples of 2^64.
pub proof fn lemma_wrap_congruent(i: int, j: int, k: int)
    requires
        i == j + k * 0x1_0000_0000_0000_0000,
    ensures
        wrap(i) == wrap(j),
{
    assert(i % 0x1_0000_0000_0000_0000 == j % 0x1_0000_0000_0000_0000) by (nonlinear_arith)
        requires
            i == j + k * 0x1_0000_0000_0000_0000,
    ;
}

/// A wrapped number differs from the number by a multiple of 2^64.
pub proof fn lemma_wrap_offset(i: int) -> (k: int)
    ensures
        i == wrap(i) + k * 0x1_0000_0000_0000_0000,
{
    let m = i % 0x1_0000_0000_0000_0000;
    if m >= 0x8000_0000_0000_0000 {
        i / 0x1_0000_0000_0000_0000 + 1
    } else {
        i / 0x1_0000_0000_0000_0000
    }
}

pub fn add64(x: i64, y: i64) -> (r: i64)
    ensures
        r == wrap(x + y),
{
    x.wrapping_add(y)
}

pub fn sub64(x: i64, y: i64) -> (r: i64)
    ensures
        r == wrap(x - y),
{
    x.wrapping_sub(y)
}

pub fn mul64(x: i64, y: i64) -> (r: i64)
    ensures
        r == wrap(x * y),
{
    x.wrapping_mul(y)
}

pub fn neg64(x: i64) -> (r: i64)
    ensures
        r == wrap(-x),
{
    0i64.wrapping_sub(x)
}

proof fn lemma_quotient_range(x: int, y: int)
    requires
        -0x8000_0000_0000_0000 <= x < 0x8000_0000_0000_0000,
        -0x8000_0000_0000_0000 <= y < 0x8000_0000_0000_0000,
        y != 0,
    ensures
        -0x8000_0000_0000_0000 <= quotient(x, y) <= 0x8000_0000_0000_0000,
        quotient(x, y) == 0x8000_0000_0000_0000 ==> x == -0x8000_0000_0000_0000 && y == -1,
{
    if x >= 0 && y > 0 {
        assert(0 <= x / y <= x) by (nonlinear_arith)
            requires
                x >= 0,
                y > 0,
        ;
    } else if x >= 0 {
        assert(0 <= x / -y <= x) by (nonlinear_arith)
            requires
                x >= 0,
                y < 0,
        ;
    } else if y > 0 {
        assert(0 <= -x / y <= -x) by (nonlinear_arith)
            requires
                x < 0,
                y > 0,
        ;
    } else {
        assert(0 <= -x / -y <= -x) by (nonlinear_arith)
            requires
                x < 0,
                y < 0,
        ;
        if y < -1 {
            assert(-x / -y <= -x / 2) by (nonlinear_arith)
                requires
                    x < 0,
                    -y >= 2,
            ;
        }
    }
}

/// Division that wraps: the one quotient out of range is `i64::MIN`.
pub fn div64(x: i64, y: i64) -> (r: i64)
    requires
        y != 0,
    ensures
        r == wrap(quotient(x as int, y as int)),
{
    proof {
        lemma_quotient_range(x as int, y as int);
        if x == 0 && y > 0 {
            assert(0int / (y as int) == 0) by (nonlinear_arith)
                requires
                    y > 0,
            ;
        }
        if x == 0 && y < 0 {
            assert(0int / -(y as int) == 0) by (nonlinear_arith)
                requires
                    y < 0,
            ;
        }
    }
    assert(x as int * -1 == -(x as int));
    assert(y as int * -1 == -(y as int));
    let ghost q = quotient(x as int, y as int);
    assert(q < i64::MIN || q > i64::MAX ==> x.checked_div(y) is None);
    assert(i64::MIN <= q <= i64::MAX ==> x.checked_div(y) == Some(q as i64));
    match x.checked_div(y) {
        Some(q) => q,
        None => i64::MIN,
    }
}

/// Remainder that wraps: `i64::MIN` has remainder zero under `-1`.
pub fn rem64(x: i64, y: i64) -> (r: i64)
    requires
        y != 0,
    ensures
        r == wrap(remainder(x as int, y as int)),
{
    let q: i64 = div64(x, y);
    let r: i64 = sub64(x, mul64(y, q));
    proof {
        let p = y * q;
        let k = lemma_wrap_offset(quotient(x as int, y as int));
        let j = lemma_wrap_offset(p);
        let full = quotient(x as int, y as int);
        assert(y * full == p + (y * k) * 0x1_0000_0000_0000_0000) by (nonlinear_arith)
            requires
                full == q + k * 0x1_0000_0000_0000_0000,
                p == y * q,
        ;
        assert(x - y * full == x - wrap(p) + (-j - y * k) * 0x1_0000_0000_0000_0000)
            by (nonlinear_arith)
            requires
                y * full == p + (y * k) * 0x1_0000_0000_0000_0000,
                p == wrap(p) + j * 0x1_0000_0000_0000_0000,
        ;
        lemma_wrap_congruent(x - y * full, x - wrap(p), -j - y * k);
    }
    r
}

pub fn shift_left(x: i64, y: i64) -> (r: i64)
    ensures
        r == shl64(x, y),
{
    proof {
        lemma_shift_amount(y);
    }
    ((x as u64) << ((y as u64) & 63)) as i64
}

pub fn shift_right_logical(x: i64, y: i64) -> (r: i64)
    ensures
        r == shr64(x, y),
{
    proof {
        lemma_shift_amount(y);
    }
    ((x as u64) >> ((y as u64) & 63)) as i64
}

pub fn shift_right_arithmetic(x: i64, y: i64) -> (r: i64)
    ensures
        r == sar64(x, y),
{
    proof {
        lemma_shift_amount(y);
    }
    x >> ((y as u64) & 63)
}

pub proof fn lemma_shift_amount(y: i64)
    ensures
        shift_amount(y) < 64,
{
    let u = y as u64;
    assert(u & 63 < 64) by (bit_vector);
}

// ---------------------------------------------------------------------------
// Doubles as bit patterns

/// The bits of a double without its sign.
pub open spec fn magnitude(bits: u64) -> u64 {
    bits & 0x7fff_ffff_ffff_ffff
}

/// The double is not a number.
pub open spec fn is_nan(bits: u64) -> bool {
    magnitude(bits) > 0x7ff0_0000_0000_0000
}

/// A number that orders doubles as they are ordered; both zeros map to zero.
pub open spec fn order_key(bits: u64) -> int {
    if bits >= 0x8000_0000_0000_0000 {
        -(magnitude(bits) as int)
    } else {
        magnitude(bits) as int
    }
}

/// The doubles are equal as numbers.
pub open spec fn doubles_equal(a: u64, b: u64) -> bool {
    !is_nan(a) && !is_nan(b) && order_key(a) == order_key(b)
}

/// The first double is less than the second.
pub open spec fn double_less(a: u64, b: u64) -> bool {
    !is_nan(a) && !is_nan(b) && order_key(a) < order_key(b)
}

/// The double with its sign flipped.
pub open spec fn negated_bits(bits: u64) -> u64 {
    bits ^ 0x8000_0000_0000_0000
}

fn key_of(bits: u64) -> (r: i64)
    ensures
        r == order_key(bits),
{
    assert(bits & 0x7fff_ffff_ffff_ffff <= 0x7fff_ffff_ffff_ffff) by (bit_vector);
    let m: i64 = (bits & 0x7fff_ffff_ffff_ffff) as i64;
    if bits >= 0x8000_0000_0000_0000 {
        -m
    } else {
        m
    }
}

pub fn bits_are_nan(bits: u64) -> (r: bool)
    ensures
        r == is_nan(bits),
{
    (bits & 0x7fff_ffff_ffff_ffff) > 0x7ff0_0000_0000_0000
}

pub fn bits_equal(a: u64, b: u64) -> (r: bool)
    ensures
        r == doubles_equal(a, b),
{
    !bits_are_nan(a) && !bits_are_nan(b) && key_of(a) == key_of(b)
}

pub fn bits_less(a: u64, b: u64) -> (r: bool)
    ensures
        r == double_less(a, b),
{
    !bits_are_nan(a) && !bits_are_nan(b) && key_of(a) < key_of(b)
}

/// Flipping the sign twice changes nothing, and it keeps a NaN a NaN.
pub proof fn lemma_negated_bits(bits: u64)
    ensures
        negated_bits(negated_bits(bits)) == bits,
        is_nan(negated_bits(bits)) == is_nan(bits),
{
    assert((bits ^ 0x8000_0000_0000_0000u64) ^ 0x8000_0000_0000_0000u64 == bits && (bits
        ^ 0x8000_0000_0000_0000u64) & 0x7fff_ffff_ffff_ffffu64 == bits & 0x7fff_ffff_ffff_ffffu64)
        by (bit_vector);
}

// ---------------------------------------------------------------------------
// What the operations are, in numbers

/// A wrapped number is the one `i64` that is congruent to the number.
pub proof fn lemma_wrap_is_the_one(i: int, x: i64)
    requires
        (i - x) % 0x1_0000_0000_0000_0000 == 0,
    ensures
        wrap(i) == x,
{
    lemma_wrap_congruent(i, x as int, (i - x) / 0x1_0000_0000_0000_0000);
    lemma_wrap_id(x);
}

/// Quotient and remainder: together they give the dividend, the remainder is
/// smaller than the divisor, and has the sign of the dividend.
pub proof fn lemma_divides(x: int, y: int)
    requires
        y != 0,
    ensures
        quotient(x, y) * y + remainder(x, y) == x,
        -y < remainder(x, y) < y || y < remainder(x, y) < -y,
        x >= 0 ==> remainder(x, y) >= 0,
        x <= 0 ==> remainder(x, y) <= 0,
{
    let a = if x >= 0 {
        x
    } else {
        -x
    };
    let b = if y > 0 {
        y
    } else {
        -y
    };
    let q = a / b;
    let r = a % b;
    vstd::arithmetic::div_mod::lemma_fundamental_div_mod(a, b);
    vstd::arithmetic::div_mod::lemma_mod_bound(a, b);
    assert(a == b * q + r && 0 <= r < b);
    assert(quotient(x, y) == if (x >= 0) == (y > 0) {
        q
    } else {
        -q
    });
    assert(remainder(x, y) == if x >= 0 {
        r
    } else {
        -r
    }) by (nonlinear_arith)
        requires
            a == b * q + r,
            a == (if x >= 0 {
                x
            } else {
                -x
            }),
            b == (if y > 0 {
                y
            } else {
                -y
            }),
            quotient(x, y) == (if (x >= 0) == (y > 0) {
                q
            } else {
                -q
            }),
            remainder(x, y) == x - y * quotient(x, y),
    ;
    assert(quotient(x, y) * y == y * quotient(x, y)) by (nonlinear_arith);
}

/// The bits of a number: the number itself, or 2^64 more than a negative one.
pub proof fn lemma_bits_of(x: i64)
    ensures
        x >= 0 ==> x as u64 == x,
        x < 0 ==> x as u64 == x + 0x1_0000_0000_0000_0000,
{
    assert((x >= 0 ==> x as u64 == x) && (x < 0 ==> x as u64 == x + 0x1_0000_0000_0000_0000))
        by (bit_vector);
}

/// A shift goes by its count modulo 64.
pub proof fn lemma_count_mod_64(y: i64)
    ensures
        shift_amount(y) == (y as int) % 64,
{
    let u = y as u64;
    assert(u & 63 == u % 64) by (bit_vector);
    lemma_bits_of(y);
}

/// A left shift multiplies by a power of two, and wraps.
pub proof fn lemma_shl_multiplies(x: i64, y: i64)
    ensures
        shl64(x, y) == wrap(x * pow2(((y as int) % 64) as nat)),
{
    let k = ((y as int) % 64) as i64;
    lemma_count_mod_64(y);
    lemma_count_mod_64(k);
    crate::opt::pow2::lemma_shl_is_mul(x, k);
}

/// A logical right shift divides the bits, as an unsigned number, by a power
/// of two.
pub proof fn lemma_shr_divides(x: i64, y: i64)
    ensures
        shr64(x, y) as u64 == (x as u64) as int / pow2(((y as int) % 64) as nat) as int,
{
    lemma_count_mod_64(y);
    let k = shift_amount(y);
    let u = x as u64;
    vstd::bits::lemma_u64_shr_is_div(u, k);
    crate::aarch64::execute::lemma_cast(u >> k);
}

/// An arithmetic right shift divides by a power of two and rounds down.
pub proof fn lemma_sar_divides(x: i64, y: i64)
    ensures
        sar64(x, y) == (x as int) / (pow2(((y as int) % 64) as nat) as int),
{
    let k = ((y as int) % 64) as i64;
    lemma_count_mod_64(y);
    lemma_count_mod_64(k);
    crate::opt::pow2::lemma_sar_is_floor(x, k);
    let p = pow2(k as nat) as int;
    vstd::arithmetic::power2::lemma_pow2_pos(k as nat);
    let q = sar64(x, k) as int;
    assert(x == q * p + (x - p * q) && 0 <= x - p * q < p) by (nonlinear_arith)
        requires
            p * q <= x < p * q + p,
    ;
    vstd::arithmetic::div_mod::lemma_fundamental_div_mod_converse(x as int, p, q, x - p * q);
}

/// The eleven bits of the exponent.
pub open spec fn exponent_field(bits: u64) -> int {
    (bits as int / 0x10_0000_0000_0000) % 2048
}

/// The 52 bits behind the point.
pub open spec fn fraction_field(bits: u64) -> int {
    bits as int % 0x10_0000_0000_0000
}

/// A double that is a number, counted in units of the smallest positive one.
/// An infinity counts as the first power of two that is too large.
pub open spec fn units(bits: u64) -> int {
    let size = if exponent_field(bits) == 0 {
        fraction_field(bits)
    } else {
        (0x10_0000_0000_0000 + fraction_field(bits)) * pow2((exponent_field(bits) - 1) as nat)
    };
    if bits >= 0x8000_0000_0000_0000 {
        -size
    } else {
        size
    }
}

proof fn lemma_magnitude_fields(bits: u64)
    ensures
        magnitude(bits) == exponent_field(bits) * 0x10_0000_0000_0000 + fraction_field(bits),
        magnitude(bits) == (if bits >= 0x8000_0000_0000_0000 {
            bits - 0x8000_0000_0000_0000
        } else {
            bits as int
        }),
        0 <= exponent_field(bits) < 2048,
        0 <= fraction_field(bits) < 0x10_0000_0000_0000,
{
    assert(bits & 0x7fff_ffff_ffff_ffff == if bits >= 0x8000_0000_0000_0000 {
        (bits - 0x8000_0000_0000_0000) as u64
    } else {
        bits
    }) by (bit_vector);
}

/// A larger magnitude is a larger number.
proof fn lemma_units_rise(a: u64, b: u64)
    requires
        a < b < 0x8000_0000_0000_0000,
    ensures
        0 <= units(a) < units(b),
{
    lemma_magnitude_fields(a);
    lemma_magnitude_fields(b);
    let e = exponent_field(a);
    let f = fraction_field(a);
    let g = exponent_field(b);
    let h = fraction_field(b);
    assert(e < g || e == g && f < h);
    if e > 0 {
        vstd::arithmetic::power2::lemma_pow2_pos((e - 1) as nat);
    }
    if g > 0 {
        vstd::arithmetic::power2::lemma_pow2_pos((g - 1) as nat);
    }
    let p = pow2((e - 1) as nat) as int;
    let q = pow2((g - 1) as nat) as int;
    if e == g {
        if e > 0 {
            assert(0 <= (0x10_0000_0000_0000 + f) * p < (0x10_0000_0000_0000 + h) * p)
                by (nonlinear_arith)
                requires
                    0 <= f < h,
                    p > 0,
            ;
        }
    } else if e == 0 {
        assert(0x10_0000_0000_0000 <= (0x10_0000_0000_0000 + h) * q) by (nonlinear_arith)
            requires
                0 <= h,
                q >= 1,
        ;
    } else {
        if e < g - 1 {
            vstd::arithmetic::power2::lemma_pow2_strictly_increases(e as nat, (g - 1) as nat);
        }
        vstd::arithmetic::power2::lemma_pow2_unfold(e as nat);
        assert(q >= 2 * p);
        assert(0 <= (0x10_0000_0000_0000 + f) * p < (0x10_0000_0000_0000 + h) * q)
            by (nonlinear_arith)
            requires
                0 <= f < 0x10_0000_0000_0000,
                0 <= h,
                p > 0,
                q >= 2 * p,
        ;
    }
}

/// What two doubles are to each other is what they are as numbers. A double is
/// no number where the exponent is full and the fraction is not zero.
pub proof fn lemma_order_is_numeric(a: u64, b: u64)
    ensures
        is_nan(a) <==> exponent_field(a) == 2047 && fraction_field(a) != 0,
        double_less(a, b) <==> !is_nan(a) && !is_nan(b) && units(a) < units(b),
        doubles_equal(a, b) <==> !is_nan(a) && !is_nan(b) && units(a) == units(b),
{
    lemma_magnitude_fields(a);
    lemma_magnitude_fields(b);
    let x = magnitude(a);
    let y = magnitude(b);
    lemma_magnitude_fields(x);
    lemma_magnitude_fields(y);
    lemma_sign_units(a);
    lemma_sign_units(b);
    if x < y {
        lemma_units_rise(x, y);
    } else if y < x {
        lemma_units_rise(y, x);
    }
    if x > 0 {
        lemma_units_rise(0, x);
    }
    if y > 0 {
        lemma_units_rise(0, y);
    }
    assert(units(0) == 0);
}

/// The sign bit is the sign.
proof fn lemma_sign_units(bits: u64)
    ensures
        magnitude(bits) < 0x8000_0000_0000_0000,
        units(bits) == if bits >= 0x8000_0000_0000_0000 {
            -units(magnitude(bits))
        } else {
            units(magnitude(bits))
        },
{
    lemma_magnitude_fields(bits);
    lemma_magnitude_fields(magnitude(bits));
}

/// Flipping the sign negates; dropping it gives the absolute value.
pub proof fn lemma_sign_is_numeric(bits: u64)
    ensures
        units(negated_bits(bits)) == -units(bits),
        units(magnitude(bits)) == (if units(bits) < 0 {
            -units(bits)
        } else {
            units(bits)
        }),
{
    let flipped = negated_bits(bits);
    lemma_magnitude_fields(bits);
    lemma_magnitude_fields(flipped);
    assert((bits ^ 0x8000_0000_0000_0000u64) & 0x7fff_ffff_ffff_ffffu64 == bits
        & 0x7fff_ffff_ffff_ffffu64 && (bits ^ 0x8000_0000_0000_0000u64 >= 0x8000_0000_0000_0000
        <==> bits < 0x8000_0000_0000_0000)) by (bit_vector);
    lemma_sign_units(bits);
    lemma_sign_units(flipped);
    if magnitude(bits) > 0 {
        lemma_units_rise(0, magnitude(bits));
    }
    assert(units(0) == 0);
}

/// Dropping the sign keeps a NaN a NaN.
pub proof fn lemma_magnitude_nan(bits: u64)
    ensures
        is_nan(magnitude(bits)) == is_nan(bits),
{
    assert((bits & 0x7fff_ffff_ffff_ffffu64) & 0x7fff_ffff_ffff_ffffu64 == bits
        & 0x7fff_ffff_ffff_ffffu64) by (bit_vector);
}

} // verus!
