//! Shifts as multiplication and division by powers of two.
use crate::arith::{quotient, remainder, sar64, shift_amount, shl64, wrap};
use crate::arith::{lemma_wrap_congruent, lemma_wrap_id, lemma_wrap_offset};
use vstd::arithmetic::power2::{lemma_pow2_pos, lemma_pow2_unfold, pow2};
use vstd::prelude::*;

verus! {

proof fn lemma_amount(k: i64)
    requires
        0 <= k < 64,
    ensures
        shift_amount(k) == k,
{
    let u = k as u64;
    assert(u & 63 == u) by (bit_vector)
        requires
            u < 64,
    ;
}

proof fn lemma_shl_once(u: u64)
    ensures
        ((u << 1u64) as i64) == wrap(2 * (u as i64)),
{
    let y = u as i64;
    let r = (u << 1u64) as i64;
    assert((y + y > 0x7fff_ffff_ffff_ffffi64 ==> r == y + y - 0x1_0000_0000_0000_0000) && (y + y
        < -0x8000_0000_0000_0000i64 ==> r == y + y + 0x1_0000_0000_0000_0000) && (
    -0x8000_0000_0000_0000i64 <= y + y && y + y <= 0x7fff_ffff_ffff_ffffi64 ==> r == y + y))
        by (bit_vector)
        requires
            y == u as i64,
            r == (u << 1u64) as i64,
    ;
    if y + y > 0x7fff_ffff_ffff_ffff {
        lemma_wrap_congruent(y + y, r as int, 1);
    } else if y + y < -0x8000_0000_0000_0000 {
        lemma_wrap_congruent(y + y, r as int, -1);
    }
    lemma_wrap_id(r);
}

proof fn lemma_shl_amount(x: i64, k: nat)
    requires
        k < 64,
    ensures
        (((x as u64) << (k as u64)) as i64) == wrap(x * pow2(k)),
    decreases k,
{
    let u = x as u64;
    if k == 0 {
        assert(u << 0u64 == u && (x as u64) as i64 == x) by (bit_vector);
        vstd::arithmetic::power2::lemma2_to64();
        assert(x * pow2(k) == x) by (nonlinear_arith)
            requires
                pow2(k) == 1,
        ;
        lemma_wrap_id(x);
    } else {
        let j = (k - 1) as nat;
        lemma_shl_amount(x, j);
        lemma_pow2_unfold(k);
        let ju = j as u64;
        let ku = k as u64;
        let mid = u << ju;
        assert(u << ku == (u << ju) << 1u64) by (bit_vector)
            requires
                ku < 64,
                ju + 1 == ku,
        ;
        lemma_shl_once(mid);
        let y = x * pow2(j);
        let c = lemma_wrap_offset(y);
        assert(2 * wrap(y) == 2 * y + (-2 * c) * 0x1_0000_0000_0000_0000);
        lemma_wrap_congruent(2 * wrap(y), 2 * y, -2 * c);
        assert(x * pow2(k) == 2 * y) by (nonlinear_arith)
            requires
                pow2(k) == 2 * pow2(j),
                y == x * pow2(j),
        ;
    }
}

/// A left shift multiplies.
pub proof fn lemma_shl_is_mul(x: i64, k: i64)
    requires
        0 <= k < 64,
    ensures
        shl64(x, k) == wrap(x * pow2(k as nat)),
{
    lemma_amount(k);
    lemma_shl_amount(x, k as nat);
}

proof fn lemma_sar_amount(y: i64, k: nat)
    requires
        k < 64,
    ensures
        pow2(k) * (y >> (k as u64)) <= y < pow2(k) * (y >> (k as u64)) + pow2(k),
    decreases k,
{
    if k == 0 {
        assert(y >> 0u64 == y) by (bit_vector);
        vstd::arithmetic::power2::lemma2_to64();
    } else {
        let j = (k - 1) as nat;
        lemma_sar_amount(y, j);
        lemma_pow2_unfold(k);
        lemma_pow2_pos(j);
        let ju = j as u64;
        let ku = k as u64;
        let mid = y >> ju;
        let q = y >> ku;
        assert(y >> ku == (y >> ju) >> 1u64 && 2 * (mid >> 1u64) <= mid && mid <= 2 * (mid >> 1u64)
            + 1) by (bit_vector)
            requires
                ku < 64,
                ju + 1 == ku,
        ;
        let p = pow2(j) as int;
        assert(2 * p * q <= y < 2 * p * q + 2 * p) by (nonlinear_arith)
            requires
                p > 0,
                2 * q <= mid,
                mid <= 2 * q + 1,
                p * mid <= y,
                y < p * mid + p,
        ;
        assert(pow2(k) * q == 2 * p * q) by (nonlinear_arith)
            requires
                pow2(k) == 2 * p,
        ;
    }
}

/// An arithmetic right shift divides and rounds down.
pub proof fn lemma_sar_is_floor(y: i64, k: i64)
    requires
        0 <= k < 64,
    ensures
        pow2(k as nat) * sar64(y, k) <= y < pow2(k as nat) * sar64(y, k) + pow2(k as nat),
{
    lemma_amount(k);
    lemma_sar_amount(y, k as nat);
}

proof fn lemma_floor_unique(p: int, y: int, a: int, b: int)
    requires
        p > 0,
        p * a <= y < p * a + p,
        p * b <= y < p * b + p,
    ensures
        a == b,
{
    assert(a == b) by (nonlinear_arith)
        requires
            p > 0,
            p * a <= y < p * a + p,
            p * b <= y < p * b + p,
    ;
}

/// The sign of `x`, spread over all bits.
pub proof fn lemma_sign_mask(x: i64)
    ensures
        sar64(x, 63) == (if x < 0 {
            -1i64
        } else {
            0i64
        }),
{
    lemma_amount(63);
    assert(x >> 63u64 == if x < 0 {
        -1i64
    } else {
        0i64
    }) by (bit_vector);
}

/// Dividing by a power of two: add `2^k - 1` to a negative dividend, then
/// shift.
pub proof fn lemma_div_is_biased_shift(x: i64, k: i64, n: i64)
    requires
        1 <= k < 63,
        n == pow2(k as nat),
    ensures
        sar64(wrap(x + (sar64(x, 63) & ((n - 1) as i64))), k) == wrap(
            quotient(x as int, n as int),
        ),
        quotient(x as int, n as int) == wrap(quotient(x as int, n as int)),
{
    lemma_sign_mask(x);
    let mask = (n - 1) as i64;
    assert(-1i64 & mask == mask && 0i64 & mask == 0) by (bit_vector);
    let bias: i64 = if x < 0 {
        mask
    } else {
        0
    };
    assert(sar64(x, 63) & mask == bias);
    let y = x + bias;
    lemma_pow2_pos(k as nat);
    assert(i64::MIN <= y <= i64::MAX);
    let yy = y as i64;
    lemma_wrap_id(yy);
    lemma_sar_is_floor(yy, k);
    let q = sar64(yy, k);
    let p = n as int;
    if x >= 0 {
        let t = x as int / p;
        assert(p * t <= x < p * t + p) by (nonlinear_arith)
            requires
                p > 0,
                t == x as int / p,
        ;
        lemma_floor_unique(p, y, q as int, t);
    } else {
        let t = -x / p;
        assert(p * t <= -x < p * t + p) by (nonlinear_arith)
            requires
                p > 0,
                t == -x / p,
        ;
        assert(p * (-t) == -(p * t)) by (nonlinear_arith);
        lemma_floor_unique(p, y, q as int, -t);
    }
    lemma_wrap_id(q);
}

/// The remainder by a power of two, from the quotient.
pub proof fn lemma_rem_from_quotient(x: i64, k: i64, n: i64, q: i64)
    requires
        1 <= k < 63,
        n == pow2(k as nat),
        q == quotient(x as int, n as int),
    ensures
        wrap(x - shl64(q, k)) == wrap(remainder(x as int, n as int)),
{
    lemma_shl_is_mul(q, k);
    let full = q * n;
    let c = lemma_wrap_offset(full);
    assert(n * q == q * n) by (nonlinear_arith);
    lemma_wrap_congruent(x - wrap(full), x - full, c);
}

} // verus!
