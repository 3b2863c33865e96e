//! Integer helpers shared by the coder and the packet logic.
use vstd::prelude::*;

verus! {

/// The number of binary digits of `x`: 0 for 0, else `floor(log2(x)) + 1`.
pub open spec fn bit_len(x: nat) -> nat
    decreases x,
{
    if x == 0 {
        0
    } else {
        1 + bit_len(x / 2)
    }
}

/// `2^n`, as a natural number.
pub open spec fn pow2(n: nat) -> nat
    decreases n,
{
    if n == 0 {
        1
    } else {
        2 * pow2((n - 1) as nat)
    }
}

/// A positive `x` has `bit_len(x)` digits: it lies in `[2^(b-1), 2^b)`.
pub proof fn lemma_bit_len_bounds(x: nat)
    requires
        x > 0,
    ensures
        bit_len(x) >= 1,
        pow2((bit_len(x) - 1) as nat) <= x < pow2(bit_len(x)),
    decreases x,
{
    if x >= 2 {
        lemma_bit_len_bounds(x / 2);
        let b = bit_len(x);
        assert(b == 1 + bit_len(x / 2));
        assert(pow2((b - 1) as nat) == 2 * pow2((b - 2) as nat));
        assert(pow2(b) == 2 * pow2((b - 1) as nat));
    } else {
        assert(bit_len(x) == 1 + bit_len(0));
        assert(pow2(1) == 2 * pow2(0));
    }
}

/// Numbers below `2^n` have at most `n` digits, and numbers at or above `2^n` more.
pub proof fn lemma_bit_len_vs_pow2(x: nat, n: nat)
    ensures
        x < pow2(n) ==> bit_len(x) <= n,
        x >= pow2(n) ==> bit_len(x) > n,
    decreases x,
{
    lemma_pow2_positive(n);
    if x > 0 {
        lemma_bit_len_bounds(x);
        lemma_pow2_monotone(n, bit_len(x));
        lemma_pow2_monotone(bit_len(x), n);
        lemma_pow2_monotone((bit_len(x) - 1) as nat, n);
    }
}

/// `pow2` is monotone.
pub proof fn lemma_pow2_monotone(a: nat, b: nat)
    ensures
        a <= b ==> pow2(a) <= pow2(b),
        a > b ==> pow2(a) > pow2(b),
    decreases a + b,
{
    if a > 0 && b > 0 {
        lemma_pow2_monotone((a - 1) as nat, (b - 1) as nat);
    } else if a > 0 {
        lemma_pow2_positive((a - 1) as nat);
    } else if b > 0 {
        lemma_pow2_positive((b - 1) as nat);
    }
}

/// `pow2` is positive.
pub proof fn lemma_pow2_positive(n: nat)
    ensures
        pow2(n) >= 1,
    decreases n,
{
    if n > 0 {
        lemma_pow2_positive((n - 1) as nat);
    }
}

/// The minimum number of bits needed to store `x`, or 0 for 0.
pub fn ilog(x: u32) -> (r: u32)
    ensures
        r as nat == bit_len(x as nat),
        r <= 32,
{
    proof {
        reveal_with_fuel(pow2, 33);
        assert(pow2(32) == 0x1_0000_0000);
        lemma_bit_len_vs_pow2(x as nat, 32);
    }
    let mut r: u32 = 0;
    let mut v: u32 = x;
    while v > 0
        invariant
            r + bit_len(v as nat) == bit_len(x as nat),
            r + bit_len(v as nat) <= 32,
        decreases v,
    {
        v = v / 2;
        r = r + 1;
    }
    r
}

/// The value of `frac_mul16(a, b)`: the Q15 product of `a` and `b`, rounded.
pub open spec fn frac_mul16_spec(a: i16, b: i16) -> i16 {
    (((16384 + (a as i32) * (b as i32)) as i32) >> 15i32) as i16
}

/// Multiplies two Q15 numbers with rounding.
pub fn frac_mul16(a: i16, b: i16) -> (r: i16)
    ensures
        r == frac_mul16_spec(a, b),
{
    proof {
        let (p, q) = (a as int, b as int);
        assert(-0x4000_0000 <= p * q <= 0x4000_0000) by (nonlinear_arith)
            requires
                -0x8000 <= p < 0x8000,
                -0x8000 <= q < 0x8000,
        ;
    }
    let x = (a as i32) * (b as i32);
    #[verifier::truncate]
    (((16384 + x) >> 15) as i16)
}

/// The value of `bitexact_cos(x)`, a polynomial cosine approximation in Q15.
pub open spec fn bitexact_cos_spec(x: i16) -> i16 {
    let x2 = (x as i32) * (x as i32);
    let y = (((x2 + 4096) as i32) >> 13i32) as i16;
    let inner = (8277 + frac_mul16_spec(-626i16, y) as i32) as i16;
    let middle = (-7651 + frac_mul16_spec(y, inner) as i32) as i16;
    (1 + (32767 - y as i32) + frac_mul16_spec(y, middle) as i32) as i16
}

/// A cosine approximation that gives the same bits on every platform.
pub fn bitexact_cos(x: i16) -> (r: i16)
    ensures
        r == bitexact_cos_spec(x),
{
    proof {
        let p = x as int;
        assert(0 <= p * p <= 0x4000_0000) by (nonlinear_arith)
            requires
                -0x8000 <= p < 0x8000,
        ;
    }
    let x2 = (x as i32) * (x as i32);
    let y = #[verifier::truncate]
    (((x2 + 4096) >> 13) as i16);
    let inner = #[verifier::truncate]
    ((8277 + frac_mul16(-626, y) as i32) as i16);
    let middle = #[verifier::truncate]
    ((-7651 + frac_mul16(y, inner) as i32) as i16);
    #[verifier::truncate]
    ((1 + (32767 - y as i32) + frac_mul16(y, middle) as i32) as i16)
}

/// The Q15 polynomial used by `bitexact_log2tan` on a normalized input.
pub open spec fn log2tan_poly(v: i16) -> i32 {
    frac_mul16_spec(v, (frac_mul16_spec(v, -2597i16) as i32 + 7932) as i16) as i32
}

/// The value of `bitexact_log2tan(isin, icos)`: `log2(isin / icos)` in Q11.
pub open spec fn bitexact_log2tan_spec(isin: i32, icos: i32) -> i32 {
    let ls = bit_len(isin as u32 as nat) as i32;
    let lc = bit_len(icos as u32 as nat) as i32;
    let c = (icos << ((15 - lc) as i32)) as i16;
    let s = (isin << ((15 - ls) as i32)) as i16;
    ((ls - lc) * 2048 + log2tan_poly(s) - log2tan_poly(c)) as i32
}

/// A base-2 logarithm of a ratio, exact across platforms.
///
/// Both inputs are positive Q15 magnitudes.
pub fn bitexact_log2tan(isin: i32, icos: i32) -> (r: i32)
    requires
        0 < isin <= 32767,
        0 < icos <= 32767,
    ensures
        r == bitexact_log2tan_spec(isin, icos),
{
    let ls = ilog(isin as u32) as i32;
    let lc = ilog(icos as u32) as i32;
    proof {
        reveal_with_fuel(pow2, 16);
        assert(pow2(15) == 32768);
        lemma_bit_len_vs_pow2(isin as u32 as nat, 15);
        lemma_bit_len_vs_pow2(icos as u32 as nat, 15);
    }
    let c = #[verifier::truncate]
    ((icos << (15 - lc)) as i16);
    let s = #[verifier::truncate]
    ((isin << (15 - ls)) as i16);
    let a = frac_mul16(
        s,
        #[verifier::truncate]
        ((frac_mul16(s, -2597) as i32 + 7932) as i16),
    ) as i32;
    let b = frac_mul16(
        c,
        #[verifier::truncate]
        ((frac_mul16(c, -2597) as i32 + 7932) as i16),
    ) as i32;
    (ls - lc) * 2048 + a - b
}

} // verus!
