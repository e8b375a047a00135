//! Division by a fixed divisor with a multiplication and a shift, after
//! Granlund and Montgomery.
//!
//! For a divisor `d` other than `0`, `1` and `-1` there is a multiplier `m` a
//! little above `2^p / |d|` such that the high part of `n * m`, rounded
//! toward zero, is `n / d` for every `n` of 64 bits. The multiplier can need
//! all 64 bits; what is kept of it is the `i64` with the same bits, so whoever
//! applies it has to know the sign of the divisor.
use crate::arith::{
    add64, lemma_wrap_congruent, lemma_wrap_id, lemma_wrap_offset, neg64, shift_right_arithmetic,
    sub64,
};
use crate::arith::{quotient, sar64, wrap};
use crate::opt::pow2::lemma_sar_is_floor;
use vstd::arithmetic::power2::{
    lemma_pow2_adds, lemma_pow2_pos, lemma_pow2_strictly_increases, lemma_pow2_unfold, pow2,
};
use vstd::prelude::*;

verus! {

/// What a division by a fixed divisor multiplies by, and how far it shifts
/// the high word of the product.
#[derive(Clone, Copy, Debug, PartialEq, Eq, Structural)]
pub struct MagicNumber {
    pub multiplier: i64,
    pub shift: u32,
}

/// A divisor that multiplication can stand in for.
pub open spec fn is_divisor(d: i64) -> bool {
    d != 0 && d != 1 && d != -1
}

pub open spec fn absolute(d: i64) -> int {
    if d < 0 {
        -d
    } else {
        d as int
    }
}

/// One more than the largest dividend, once the sign of `d` has been moved
/// into it.
pub open spec fn dividend_bound(d: i64) -> int {
    if d > 0 {
        0x8000_0000_0000_0000
    } else {
        0x8000_0000_0000_0001
    }
}

/// The largest dividend that is one short of a multiple of `d`: where a
/// multiplier that is too large shows first.
pub open spec fn critical(d: i64) -> int {
    dividend_bound(d) - 1 - dividend_bound(d) % absolute(d)
}

/// By how much the multiplier for `2^p` exceeds `2^p / |d|`, times `|d|`.
pub open spec fn slack(d: i64, p: nat) -> int {
    absolute(d) - pow2(p) as int % absolute(d)
}

/// With `2^p` the multiplier is close enough.
pub open spec fn exact_at(d: i64, p: nat) -> bool {
    pow2(p) > critical(d) * slack(d, p)
}

/// The multiplier for `2^p`, without its sign.
pub open spec fn multiplier_at(d: i64, p: nat) -> int {
    pow2(p) as int / absolute(d) + 1
}

/// `m` belongs to the least power of two, from `2^64` on, that is exact.
pub open spec fn is_magic(d: i64, m: MagicNumber) -> bool {
    let p = (64 + m.shift) as nat;
    &&& m.shift < 64
    &&& exact_at(d, p)
    &&& forall|j: nat| 64 <= j < p ==> !#[trigger] exact_at(d, j)
    &&& multiplier_at(d, p) < 0x1_0000_0000_0000_0000
    &&& m.multiplier == wrap(
        if d > 0 {
            multiplier_at(d, p)
        } else {
            -multiplier_at(d, p)
        },
    )
}

/// Twice the number with quotient `q` and remainder `r` under `b`.
fn doubled(q: u64, r: u64, b: u64) -> (w: (u64, u64))
    requires
        r < b <= 0x8000_0000_0000_0000,
        2 * q + 1 <= u64::MAX,
    ensures
        w.1 < b,
        w.0 * b + w.1 == 2 * (q * b + r),
        w.0 <= 2 * q + 1,
        r == 0 ==> w.0 == 2 * q && w.1 == 0,
{
    let q2: u64 = 2 * q;
    let r2: u64 = 2 * r;
    assert((2 * q) * b + 2 * r == 2 * (q * b + r)) by (nonlinear_arith);
    if r2 >= b {
        assert((2 * q + 1) * b + (2 * r - b) == 2 * (q * b + r)) by (nonlinear_arith);
        (q2 + 1, r2 - b)
    } else {
        (q2, r2)
    }
}

/// An odd number above one divides no power of two.
proof fn lemma_odd_divisor(a: int, k: int, p: nat)
    requires
        a > 1,
        a % 2 == 1,
    ensures
        a * k != pow2(p),
    decreases p,
{
    if a * k == pow2(p) {
        if p == 0 {
            vstd::arithmetic::power2::lemma2_to64();
            assert(k >= 1) by (nonlinear_arith)
                requires
                    a * k == 1,
                    a > 1,
            ;
            assert(a * k > 1) by (nonlinear_arith)
                requires
                    a > 1,
                    k >= 1,
            ;
        } else {
            lemma_pow2_unfold(p);
            let h = k / 2;
            if k % 2 == 1 {
                let b = a / 2;
                assert(a * k == 2 * (b * (2 * h + 1) + h) + 1) by (nonlinear_arith)
                    requires
                        a == 2 * b + 1,
                        k == 2 * h + 1,
                ;
            } else {
                assert(a * k == 2 * (a * h)) by (nonlinear_arith)
                    requires
                        k == 2 * h,
                ;
                lemma_odd_divisor(a, h, (p - 1) as nat);
            }
        }
    }
}

/// The critical dividend: how large it is, and how it lies.
proof fn lemma_critical(d: i64)
    requires
        is_divisor(d),
    ensures
        2 <= absolute(d) <= 0x8000_0000_0000_0000,
        0 < critical(d) <= 0x8000_0000_0000_0000,
        critical(d) + 1 >= absolute(d),
        2 * (critical(d) + 1) > dividend_bound(d),
        (critical(d) + 1) % absolute(d) == 0,
        critical(d) == 0x8000_0000_0000_0000 ==> absolute(d) % 2 == 1,
{
    let a = absolute(d);
    let t = dividend_bound(d);
    let c = t / a;
    assert(t == a * c + t % a && 0 <= t % a < a) by (nonlinear_arith)
        requires
            a > 0,
            c == t / a,
    ;
    assert(c >= 1) by (nonlinear_arith)
        requires
            t == a * c + t % a,
            0 <= t % a < a,
            t >= a,
            a > 0,
    ;
    assert(a * c >= a) by (nonlinear_arith)
        requires
            c >= 1,
            a > 0,
    ;
    assert(2 * (a * c) > t);
    assert((a * c) % a == 0) by (nonlinear_arith)
        requires
            a > 0,
    ;
    assert(critical(d) + 1 == a * c);
    if critical(d) == 0x8000_0000_0000_0000 {
        if a % 2 == 0 {
            let h = a / 2;
            assert(a * c == 2 * (h * c)) by (nonlinear_arith)
                requires
                    a == 2 * h,
            ;
        }
    }
}

/// What the loop knows when it is not done: the powers tried so far are too
/// small, which bounds the quotients.
proof fn lemma_not_exact(d: i64, p: nat, q1: int, r1: int, q2: int, r2: int)
    requires
        is_divisor(d),
        p >= 63,
        q1 >= 0,
        q2 >= 0,
        0 <= r1 < critical(d),
        0 <= r2 < absolute(d),
        q1 * critical(d) + r1 == pow2(p),
        q2 * absolute(d) + r2 == pow2(p),
        pow2(p) <= critical(d) * (absolute(d) - r2),
    ensures
        p <= 126,
        q1 <= 0x7fff_ffff_ffff_ffff,
        q2 <= 0x7fff_ffff_ffff_fffe || (q2 == 0x7fff_ffff_ffff_ffff && r2 == 0),
{
    lemma_critical(d);
    vstd::arithmetic::power2::lemma2_to64();
    vstd::arithmetic::power2::lemma2_to64_rest();
    let a = absolute(d);
    let c = critical(d);
    let big = 0x8000_0000_0000_0000int;
    lemma_pow2_adds(63, 63);
    assert(big * big == 0x4000_0000_0000_0000_0000_0000_0000_0000);
    assert(pow2(126) == pow2(63) * pow2(63));
    assert(c * (a - r2) <= big * big) by (nonlinear_arith)
        requires
            0 < c <= big,
            0 < a - r2 <= big,
    ;
    assert(pow2(126) == big * big);
    if p > 126 {
        lemma_pow2_strictly_increases(126, p);
    }
    // The first quotient.
    assert(q1 <= a - r2) by (nonlinear_arith)
        requires
            q1 * c + r1 <= c * (a - r2),
            0 <= r1,
            c > 0,
    ;
    if q1 == big {
        assert(a == big && r2 == 0);
        assert(d == i64::MIN);
        assert(dividend_bound(d) % a == 1);
        assert(c == big - 1);
        assert(q1 * c + r1 <= c * a);
        assert(c * a == q1 * c) by (nonlinear_arith)
            requires
                a == q1,
        ;
        assert(r1 == 0);
        lemma_odd_divisor(c, big, p);
        assert(c * big == q1 * c) by (nonlinear_arith)
            requires
                q1 == big,
        ;
    }
    // The second quotient.
    if r2 == 0 {
        assert(q2 <= c) by (nonlinear_arith)
            requires
                q2 * a <= c * a,
                a > 0,
        ;
        if q2 == big {
            assert(c == big);
            lemma_odd_divisor(a, q2, p);
            assert(a * q2 == q2 * a) by (nonlinear_arith);
        }
    } else {
        assert((c - q2) * a >= (c + 1) * r2) by (nonlinear_arith)
            requires
                q2 * a + r2 <= c * (a - r2),
        ;
        assert((c + 1) * r2 >= c + 1) by (nonlinear_arith)
            requires
                r2 >= 1,
                c + 1 > 0,
        ;
        assert(c - q2 >= 1) by (nonlinear_arith)
            requires
                (c - q2) * a >= c + 1,
                c + 1 > 0,
                a > 0,
        ;
        if c - q2 == 1 {
            assert((c - q2) * a == a) by (nonlinear_arith)
                requires
                    c - q2 == 1,
            ;
            assert(a >= c + 1);
        }
    }
}

/// How the loop decides: the comparison of the quotient says whether the
/// power is large enough.
proof fn lemma_decides(c: int, delta: int, power: int, q1: int, r1: int)
    requires
        c > 0,
        0 <= r1 < c,
        q1 * c + r1 == power,
    ensures
        (q1 < delta || (q1 == delta && r1 == 0)) <==> power <= c * delta,
{
    if q1 < delta {
        assert(power < c * delta) by (nonlinear_arith)
            requires
                q1 + 1 <= delta,
                r1 < c,
                c > 0,
                q1 * c + r1 == power,
        ;
    } else if q1 == delta {
        assert(power == c * delta + r1) by (nonlinear_arith)
            requires
                q1 == delta,
                q1 * c + r1 == power,
        ;
    } else {
        assert(power > c * delta) by (nonlinear_arith)
            requires
                q1 >= delta + 1,
                0 <= r1,
                c > 0,
                q1 * c + r1 == power,
        ;
    }
}

proof fn lemma_div_mod(x: int, b: int, q: int, r: int)
    requires
        b > 0,
        0 <= r < b,
        q * b + r == x,
    ensures
        x / b == q,
        x % b == r,
{
    vstd::arithmetic::div_mod::lemma_fundamental_div_mod_converse(x, b, q, r);
}

/// The bits of a 64-bit number, read as an `i64`.
proof fn lemma_cast_wraps(x: u64)
    ensures
        x as i64 == wrap(x as int),
{
    assert((x < 0x8000_0000_0000_0000u64 ==> (x as i64) as int == x as int) && (x
        >= 0x8000_0000_0000_0000u64 ==> (x as i64) as int == x as int
        - 0x1_0000_0000_0000_0000int)) by (bit_vector);
}

/// The multiplier and shift for dividing by `d`.
pub fn magic_signed(d: i64) -> (m: MagicNumber)
    requires
        is_divisor(d),
    ensures
        is_magic(d, m),
{
    let ad: u64 = if d == i64::MIN {
        0x8000_0000_0000_0000
    } else if d < 0 {
        (-d) as u64
    } else {
        d as u64
    };
    let t: u64 = if d > 0 {
        0x8000_0000_0000_0000
    } else {
        0x8000_0000_0000_0001
    };
    let anc: u64 = t - 1 - t % ad;
    proof {
        lemma_critical(d);
        vstd::arithmetic::power2::lemma2_to64();
        vstd::arithmetic::power2::lemma2_to64_rest();
    }
    assert(anc == critical(d) && ad == absolute(d));
    let mut p: u32 = 63;
    let mut q1: u64 = 0x8000_0000_0000_0000 / anc;
    let mut r1: u64 = 0x8000_0000_0000_0000 % anc;
    let mut q2: u64 = 0x8000_0000_0000_0000 / ad;
    let mut r2: u64 = 0x8000_0000_0000_0000 % ad;
    proof {
        let half = 0x8000_0000_0000_0000int;
        vstd::arithmetic::div_mod::lemma_fundamental_div_mod(half, anc as int);
        vstd::arithmetic::div_mod::lemma_fundamental_div_mod(half, ad as int);
        assert(q1 * anc == anc * q1) by (nonlinear_arith);
        assert(q2 * ad == ad * q2) by (nonlinear_arith);
        assert(q1 <= 2) by (nonlinear_arith)
            requires
                q1 * anc + r1 == half,
                half == 0x8000_0000_0000_0000,
                2 * (anc + 1) > half,
                0 <= r1 < anc,
        ;
        assert(q2 <= 0x4000_0000_0000_0000) by (nonlinear_arith)
            requires
                q2 * ad + r2 == half,
                half == 0x8000_0000_0000_0000,
                ad >= 2,
                0 <= r2,
        ;
    }
    let mut more: bool = true;
    while more
        invariant
            is_divisor(d),
            anc == critical(d),
            ad == absolute(d),
            2 <= ad <= 0x8000_0000_0000_0000,
            0 < anc <= 0x8000_0000_0000_0000,
            63 <= p <= 127,
            p == 63 ==> more && q1 <= 2 && q2 <= 0x4000_0000_0000_0000,
            r1 < anc,
            r2 < ad,
            q1 * anc + r1 == pow2(p as nat),
            q2 * ad + r2 == pow2(p as nat),
            p > 63 ==> (more <==> pow2(p as nat) <= anc * (ad - r2)),
            q2 <= 0xffff_ffff_ffff_fffe,
            forall|j: nat| 64 <= j < p ==> !#[trigger] exact_at(d, j),
        decreases 128 - p,
    {
        proof {
            if p > 63 {
                lemma_not_exact(d, p as nat, q1 as int, r1 as int, q2 as int, r2 as int);
                lemma_div_mod(pow2(p as nat) as int, ad as int, q2 as int, r2 as int);
                assert(!exact_at(d, p as nat));
            }
            lemma_pow2_unfold((p + 1) as nat);
        }
        p = p + 1;
        let (a1, b1): (u64, u64) = doubled(q1, r1, anc);
        q1 = a1;
        r1 = b1;
        let (a2, b2): (u64, u64) = doubled(q2, r2, ad);
        q2 = a2;
        r2 = b2;
        let delta: u64 = ad - r2;
        more = q1 < delta || (q1 == delta && r1 == 0);
        proof {
            lemma_decides(anc as int, delta as int, pow2(p as nat) as int, q1 as int, r1 as int);
        }
    }
    proof {
        lemma_div_mod(pow2(p as nat) as int, ad as int, q2 as int, r2 as int);
        assert(exact_at(d, p as nat));
        lemma_cast_wraps((q2 + 1) as u64);
    }
    let unsigned: u64 = q2 + 1;
    let mut multiplier: i64 = unsigned as i64;
    if d < 0 {
        proof {
            let k = lemma_wrap_offset(unsigned as int);
            lemma_wrap_congruent(-(unsigned as int), -(multiplier as int), -k);
        }
        multiplier = neg64(multiplier);
    }
    MagicNumber { multiplier, shift: p - 64 }
}

// ---------------------------------------------------------------------------
// Applying the multiplier

/// The high word of the product, with the multiple of the dividend put back
/// that a multiplier outside the `i64` range lost.
pub open spec fn high_part(n: i64, d: i64, multiplier: i64) -> i64 {
    let high = (n * multiplier) / 0x1_0000_0000_0000_0000;
    if d > 0 && multiplier < 0 {
        wrap(high + n)
    } else if d < 0 && multiplier > 0 {
        wrap(high - n)
    } else {
        high as i64
    }
}

/// Shifts the high part, and rounds toward zero.
pub open spec fn magic_quotient(n: i64, d: i64, m: MagicNumber) -> int {
    let q = high_part(n, d, m.multiplier) as int / (pow2(m.shift as nat) as int);
    if q < 0 {
        q + 1
    } else {
        q
    }
}

proof fn lemma_product_range(n: int, m: int)
    requires
        -0x8000_0000_0000_0000 <= n <= 0x7fff_ffff_ffff_ffff,
        -0x8000_0000_0000_0000 <= m <= 0x7fff_ffff_ffff_ffff,
    ensures
        -0x4000_0000_0000_0000_0000_0000_0000_0000 <= n * m
            <= 0x4000_0000_0000_0000_0000_0000_0000_0000,
{
    let big = 0x8000_0000_0000_0000int;
    assert(-(big * big) <= n * m <= big * big) by (nonlinear_arith)
        requires
            -big <= n <= big,
            -big <= m <= big,
    ;
    assert(big * big == 0x4000_0000_0000_0000_0000_0000_0000_0000);
}

proof fn lemma_high_word(x: i128)
    ensures
        (x >> 64) as int == x as int / 0x1_0000_0000_0000_0000,
{
    let h = x >> 64;
    assert(h * 0x1_0000_0000_0000_0000 <= x && x - h * 0x1_0000_0000_0000_0000
        < 0x1_0000_0000_0000_0000) by (bit_vector)
        requires
            h == x >> 64,
    ;
}

/// Applies `m` to the dividend `n`.
pub fn apply_magic(n: i64, d: i64, m: &MagicNumber) -> (r: i64)
    requires
        m.shift < 64,
    ensures
        r == magic_quotient(n, d, *m),
{
    proof {
        lemma_product_range(n as int, m.multiplier as int);
    }
    let product: i128 = (n as i128) * (m.multiplier as i128);
    proof {
        lemma_high_word(product);
    }
    let mut q: i64 = (product >> 64) as i64;
    if d > 0 && m.multiplier < 0 {
        q = add64(q, n);
    }
    if d < 0 && m.multiplier > 0 {
        q = sub64(q, n);
    }
    let ghost high = q;
    assert(high == high_part(n, d, m.multiplier));
    if m.shift > 0 {
        proof {
            lemma_sar_is_floor(q, m.shift as i64);
            lemma_pow2_pos(m.shift as nat);
            lemma_floor(q as int, pow2(m.shift as nat) as int, sar64(q, m.shift as i64) as int);
        }
        q = shift_right_arithmetic(q, m.shift as i64);
    } else {
        proof {
            vstd::arithmetic::power2::lemma2_to64();
            assert(q as int / 1 == q);
        }
    }
    assert(q == high as int / (pow2(m.shift as nat) as int));
    if q < 0 {
        q + 1
    } else {
        q
    }
}

proof fn lemma_floor(x: int, b: int, q: int)
    requires
        b > 0,
        b * q <= x < b * q + b,
    ensures
        x / b == q,
{
    assert(q * b == b * q) by (nonlinear_arith);
    lemma_div_mod(x, b, q, x - b * q);
}

// ---------------------------------------------------------------------------
// Why it is exact

/// The dividend with the sign of the divisor moved into it.
spec fn signed_dividend(n: i64, d: i64) -> int {
    if d > 0 {
        n as int
    } else {
        -n
    }
}

/// Dividing twice is dividing by the product.
proof fn lemma_floor_floor(x: int, a: int, b: int)
    requires
        a > 0,
        b > 0,
    ensures
        (x / a) / b == x / (a * b),
{
    let q = x / a;
    let r = q / b;
    assert(a * q <= x < a * q + a) by (nonlinear_arith)
        requires
            a > 0,
            q == x / a,
    ;
    assert(b * r <= q < b * r + b) by (nonlinear_arith)
        requires
            b > 0,
            r == q / b,
    ;
    assert((a * b) * r <= x < (a * b) * r + a * b) by (nonlinear_arith)
        requires
            a > 0,
            a * q <= x < a * q + a,
            b * r <= q,
            q + 1 <= b * r + b,
    ;
    assert(a * b > 0) by (nonlinear_arith)
        requires
            a > 0,
            b > 0,
    ;
    lemma_floor(x, a * b, r);
}

/// The high part is the high part of the full product.
proof fn lemma_high_part(n: i64, d: i64, big_m: int, multiplier: i64)
    requires
        d != 0,
        1 <= big_m < 0x1_0000_0000_0000_0000,
        multiplier == wrap(
            if d > 0 {
                big_m
            } else {
                -big_m
            },
        ),
    ensures
        high_part(n, d, multiplier) == (signed_dividend(n, d) * big_m) / 0x1_0000_0000_0000_0000,
{
    let w = 0x1_0000_0000_0000_0000int;
    let s = signed_dividend(n, d);
    let full = s * big_m;
    let signed_m = if d > 0 {
        big_m
    } else {
        -big_m
    };
    assert(full == n * signed_m) by (nonlinear_arith)
        requires
            full == s * big_m,
            (s == n && signed_m == big_m) || (s == -n && signed_m == -big_m),
    ;
    let h = full / w;
    assert(w * h <= full < w * h + w) by (nonlinear_arith)
        requires
            w > 0,
            h == full / w,
    ;
    assert(-w * 0x8000_0000_0000_0000 <= full <= w * 0x8000_0000_0000_0000 - 0x8000_0000_0000_0000)
        by (nonlinear_arith)
        requires
            full == s * big_m,
            -0x8000_0000_0000_0000 <= s <= 0x8000_0000_0000_0000,
            1 <= big_m <= w - 1,
            w == 0x1_0000_0000_0000_0000,
    ;
    assert(i64::MIN <= h <= i64::MAX);
    let hh = h as i64;
    lemma_wrap_id(hh);
    if d > 0 {
        if big_m >= 0x8000_0000_0000_0000 {
            assert(multiplier == big_m - w);
            assert(n * multiplier == full - n * w) by (nonlinear_arith)
                requires
                    multiplier == big_m - w,
                    full == n * big_m,
            ;
            assert((full - n * w) / w == h - n) by {
                assert(w * (h - n) == w * h - n * w) by (nonlinear_arith);
                lemma_floor(full - n * w, w, h - n);
            }
        } else {
            assert(multiplier == big_m);
        }
    } else {
        if big_m > 0x8000_0000_0000_0000 {
            assert(multiplier == w - big_m);
            assert(n * multiplier == full + n * w) by (nonlinear_arith)
                requires
                    multiplier == w - big_m,
                    full == n * -big_m,
            ;
            assert((full + n * w) / w == h + n) by {
                assert(w * (h + n) == w * h + n * w) by (nonlinear_arith);
                lemma_floor(full + n * w, w, h + n);
            }
        } else {
            assert(multiplier == -big_m);
        }
    }
}

/// The excess of the multiplier is too small to matter for `k`.
proof fn lemma_small_excess(d: i64, p: nat, k: int, q: int, r: int)
    requires
        is_divisor(d),
        p >= 64,
        exact_at(d, p),
        0 <= k,
        k < dividend_bound(d) || (d > 0 && k == dividend_bound(d)),
        0 <= r < absolute(d),
        q * absolute(d) + r == k,
    ensures
        k * slack(d, p) <= (absolute(d) - r) * pow2(p),
        k < dividend_bound(d) ==> k * slack(d, p) < (absolute(d) - r) * pow2(p),
{
    let a = absolute(d);
    let c = critical(d);
    let t = dividend_bound(d);
    let delta = slack(d, p);
    let power = pow2(p) as int;
    lemma_critical(d);
    lemma_pow2_pos(p);
    assert(0 <= power % a < a) by (nonlinear_arith)
        requires
            a > 0,
    ;
    assert(0 < delta <= a);
    if k <= c {
        assert(k * delta <= c * delta) by (nonlinear_arith)
            requires
                k <= c,
                delta > 0,
        ;
        assert((a - r) * power >= power) by (nonlinear_arith)
            requires
                a - r >= 1,
                power > 0,
        ;
    } else {
        // How far past the critical dividend.
        let e = k - c - 1;
        let u = (c + 1) / a;
        assert(c + 1 == u * a) by (nonlinear_arith)
            requires
                (c + 1) % a == 0,
                a > 0,
                u == (c + 1) / a,
        ;
        assert(e <= t % a);
        assert(0 <= t % a < a) by (nonlinear_arith)
            requires
                a > 0,
        ;
        assert(q * a == u * a + (e - r));
        assert(r == e) by {
            lemma_div_mod(k, a, q, r);
            lemma_div_mod(k, a, u, e);
        }
        if e <= a - 2 {
            assert(k <= 2 * c);
            assert(k * delta <= 2 * (c * delta)) by (nonlinear_arith)
                requires
                    k <= 2 * c,
                    delta > 0,
            ;
            assert((a - r) * power >= 2 * power) by (nonlinear_arith)
                requires
                    a - r >= 2,
                    power > 0,
            ;
        } else {
            // Only `2^63` is left, and then `2^63 + 1` is a multiple of `a`.
            assert(k == t && t % a == a - 1);
            lemma_last_dividend(d, p);
            assert((a - r) * power == power) by (nonlinear_arith)
                requires
                    a - r == 1,
            ;
        }
    }
}

proof fn lemma_last_dividend(d: i64, p: nat)
    requires
        is_divisor(d),
        d > 0,
        p >= 64,
        dividend_bound(d) % absolute(d) == absolute(d) - 1,
    ensures
        dividend_bound(d) * slack(d, p) <= pow2(p),
{
    let a = absolute(d);
    let t = 0x8000_0000_0000_0000int;
    let e = pow2((p - 63) as nat) as int;
    let power = pow2(p) as int;
    vstd::arithmetic::power2::lemma2_to64();
    vstd::arithmetic::power2::lemma2_to64_rest();
    lemma_pow2_adds((p - 63) as nat, 63);
    assert(power == e * t);
    lemma_pow2_pos((p - 63) as nat);
    let delta = slack(d, p);
    assert(delta <= a && delta > 0) by {
        assert(0 <= power % a < a) by (nonlinear_arith)
            requires
                a > 0,
        ;
    }
    if e < a {
        let u = t / a + 1;
        assert(t + 1 == u * a) by (nonlinear_arith)
            requires
                t % a == a - 1,
                a > 0,
                u == t / a + 1,
        ;
        assert((e * u - 1) * a + (a - e) == power) by (nonlinear_arith)
            requires
                power == e * t,
                t + 1 == u * a,
        ;
        lemma_div_mod(power, a, e * u - 1, a - e);
        assert(delta == e);
    }
    assert(t * delta <= e * t) by (nonlinear_arith)
        requires
            0 < delta <= e,
            t > 0,
    ;
}

/// The quotient of the full product.
proof fn lemma_full_quotient(d: i64, p: nat, s: int)
    requires
        is_divisor(d),
        p >= 64,
        exact_at(d, p),
        -dividend_bound(d) <= s < dividend_bound(d),
        d < 0 ==> -dividend_bound(d) < s,
    ensures
        s >= 0 ==> (s * multiplier_at(d, p)) / (pow2(p) as int) == s / absolute(d),
        s < 0 ==> (s * multiplier_at(d, p)) / (pow2(p) as int) == -(-s / absolute(d)) - 1,
{
    let a = absolute(d);
    let m = multiplier_at(d, p);
    let delta = slack(d, p);
    let power = pow2(p) as int;
    lemma_critical(d);
    lemma_pow2_pos(p);
    vstd::arithmetic::div_mod::lemma_fundamental_div_mod(power, a);
    assert(m * a == power + delta) by (nonlinear_arith)
        requires
            power == a * (power / a) + power % a,
            m == power / a + 1,
            delta == a - power % a,
    ;
    assert(0 <= power % a < a) by (nonlinear_arith)
        requires
            a > 0,
    ;
    let k = if s >= 0 {
        s
    } else {
        -s
    };
    let q = k / a;
    let r = k % a;
    vstd::arithmetic::div_mod::lemma_fundamental_div_mod(k, a);
    assert(q * a == a * q) by (nonlinear_arith);
    assert(0 <= r < a) by (nonlinear_arith)
        requires
            a > 0,
            r == k % a,
    ;
    lemma_small_excess(d, p, k, q, r);
    let x = k * m;
    assert(x * a == k * power + k * delta) by (nonlinear_arith)
        requires
            x == k * m,
            m * a == power + delta,
    ;
    assert(k * delta >= 0) by (nonlinear_arith)
        requires
            k >= 0,
            delta > 0,
    ;
    // The bounds, scaled by the divisor.
    assert((power * q) * a + r * power == k * power) by (nonlinear_arith)
        requires
            k == q * a + r,
    ;
    assert((power * q + power) * a == (power * q) * a + a * power) by (nonlinear_arith);
    assert((a - r) * power == a * power - r * power) by (nonlinear_arith);
    assert(r * power >= 0) by (nonlinear_arith)
        requires
            r >= 0,
            power > 0,
    ;
    assert(power * q <= x) by (nonlinear_arith)
        requires
            (power * q) * a <= x * a,
            a > 0,
    ;
    if s >= 0 {
        assert(x < power * q + power) by (nonlinear_arith)
            requires
                x * a < (power * q + power) * a,
                a > 0,
        ;
        lemma_floor(x, power, q);
    } else {
        assert(k * delta > 0) by (nonlinear_arith)
            requires
                k > 0,
                delta > 0,
        ;
        assert(power * q < x) by (nonlinear_arith)
            requires
                (power * q) * a < x * a,
                a > 0,
        ;
        assert(x <= power * q + power) by (nonlinear_arith)
            requires
                x * a <= (power * q + power) * a,
                a > 0,
        ;
        assert(s * m == -x) by (nonlinear_arith)
            requires
                s == -k,
                x == k * m,
        ;
        assert(power * (-q - 1) == -(power * q) - power) by (nonlinear_arith);
        lemma_floor(-x, power, -q - 1);
    }
}

/// Multiplying by the magic number divides, whatever the dividend and the
/// divisor.
pub proof fn lemma_magic_divides(n: i64, d: i64, m: MagicNumber)
    requires
        is_divisor(d),
        is_magic(d, m),
    ensures
        magic_quotient(n, d, m) == quotient(n as int, d as int),
{
    let p = (64 + m.shift) as nat;
    let big_m = multiplier_at(d, p);
    let s = signed_dividend(n, d);
    let w = 0x1_0000_0000_0000_0000int;
    let a = absolute(d);
    lemma_critical(d);
    lemma_pow2_pos(p);
    lemma_pow2_pos(m.shift as nat);
    assert(pow2(p) as int / a >= 0) by (nonlinear_arith)
        requires
            a > 0,
            pow2(p) > 0,
    ;
    lemma_high_part(n, d, big_m, m.multiplier);
    vstd::arithmetic::power2::lemma2_to64();
    lemma_pow2_adds(64, m.shift as nat);
    assert(pow2(64) == w) by {
        vstd::arithmetic::power2::lemma2_to64_rest();
    }
    lemma_floor_floor(s * big_m, w, pow2(m.shift as nat) as int);
    lemma_full_quotient(d, p, s);
    let q = s * big_m / (pow2(p) as int);
    if s >= 0 {
        assert(s / a >= 0) by (nonlinear_arith)
            requires
                s >= 0,
                a > 0,
        ;
        if s == 0 {
            assert(0int / a == 0) by (nonlinear_arith)
                requires
                    a > 0,
            ;
        }
    } else {
        assert(-s / a >= 0) by (nonlinear_arith)
            requires
                s < 0,
                a > 0,
        ;
    }
}

} // verus!
