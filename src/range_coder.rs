//! Definitions shared by the range encoder and decoder: register sizes and
//! the bit-usage measures `tell` and `tell_frac`.
use vstd::prelude::*;
use crate::math::{bit_len, ilog};

verus! {

/// The number of bits of the range-coded part of a raw unsigned integer.
pub const UINT_BITS: u32 = 8;

/// Fractional resolution of `tell_frac`: 3 means eighths of a bit.
pub const BITRES: u32 = 3;

/// The width of the raw-bit window.
pub const WINDOW_SIZE: u32 = 32;

/// The number of bits moved per output symbol.
pub const SYM_BITS: u32 = 8;

/// The total number of bits in each state register.
pub const CODE_BITS: u32 = 32;

/// The largest symbol value.
pub const SYM_MAX: u32 = 255;

/// The shift that moves a symbol into the high-order position.
pub const CODE_SHIFT: u32 = 23;

/// The carry bit of the high-order range symbol.
pub const CODE_TOP: u32 = 0x8000_0000;

/// The low-order bit of the high-order range symbol; `range` stays above it.
pub const CODE_BOT: u32 = 0x80_0000;

/// The number of bits in the last, partial symbol of the code field.
pub const CODE_EXTRA: u32 = 7;

/// Whole bits used so far: the bits moved minus those still in the range.
pub open spec fn tell_spec(bits_total: u32, range: u32) -> u32 {
    if bits_total >= bit_len(range as nat) {
        (bits_total - bit_len(range as nat)) as u32
    } else {
        (bits_total + 0x1_0000_0000 - bit_len(range as nat)) as u32
    }
}

/// Returns the number of whole bits used by the symbols coded so far.
///
/// The count wraps around past `u32::MAX`.
pub fn tell(bits_total: u32, range: u32) -> (r: u32)
    ensures
        r == tell_spec(bits_total, range),
{
    bits_total.wrapping_sub(ilog(range))
}

/// The thresholds of the eighth-bit correction in `tell_frac`.
pub open spec fn tell_frac_correction(b: int) -> int {
    if b == 0 {
        35733
    } else if b == 1 {
        38967
    } else if b == 2 {
        42495
    } else if b == 3 {
        46340
    } else if b == 4 {
        50535
    } else if b == 5 {
        55109
    } else if b == 6 {
        60097
    } else {
        65535
    }
}

/// `log2(range)` in eighths of a bit, as the coder measures it: the top 16
/// bits of `range` give a first guess of the fraction, and the correction
/// table rounds it.
pub open spec fn frac_log(range: u32) -> int {
    let l = bit_len(range as nat) as int;
    let r = (range as int) / crate::math::pow2((l - 16) as nat) as int;
    let b = r / 4096 - 8;
    let b2 = if r > tell_frac_correction(b) {
        b + 1
    } else {
        b
    };
    l * 8 + b2
}

/// Bits used so far in eighths of a bit, wrapping as `u32` does.
pub open spec fn tell_frac_spec(bits_total: u32, range: u32) -> u32 {
    let v = (bits_total as int * 8) % 0x1_0000_0000 - frac_log(range);
    if v >= 0 {
        v as u32
    } else {
        (v + 0x1_0000_0000) as u32
    }
}

/// Returns the bits used by the symbols coded so far, in eighths of a bit.
///
/// The encoder and the decoder compute the same value after the same symbols.
pub fn tell_frac(bits_total: u32, range: u32) -> (r: u32)
    requires
        range >= 0x8000,
    ensures
        r == tell_frac_spec(bits_total, range),
{
    let correction: [u32; 8] = [35733, 38967, 42495, 46340, 50535, 55109, 60097, 65535];
    let bits = bits_total.wrapping_mul(8);
    let l = ilog(range);
    proof {
        crate::math::lemma_bit_len_vs_pow2(range as nat, 15);
        crate::math::lemma_bit_len_bounds(range as nat);
        reveal_with_fuel(crate::math::pow2, 17);
    }
    let r = range >> (l - 16);
    proof {
        lemma_shift_is_div(range, (l - 16) as u32);
        lemma_top_bits(range as nat, (l - 16) as nat);
    }
    assert(r >> 12 == r / 4096) by (bit_vector);
    let mut b = (r >> 12) - 8;
    if r > correction[b as usize] {
        b = b + 1;
    }
    proof {
        assert(bits as int == (bits_total as int * 8) % 0x1_0000_0000);
    }
    bits.wrapping_sub(l * 8 + b)
}

/// A right shift divides by a power of two.
pub proof fn lemma_shift_is_div(x: u32, s: u32)
    requires
        s < 32,
    ensures
        x >> s == x as nat / crate::math::pow2(s as nat),
{
    lemma_pow2_u32(s);
    assert(x >> s == x / (1u32 << s)) by (bit_vector)
        requires
            s < 32,
    ;
}

/// `1 << s` is `2^s`.
pub proof fn lemma_pow2_u32(s: u32)
    requires
        s < 32,
    ensures
        (1u32 << s) as nat == crate::math::pow2(s as nat),
    decreases s,
{
    if s > 0 {
        lemma_pow2_u32((s - 1) as u32);
        assert((1u32 << s) == 2 * (1u32 << ((s - 1) as u32))) by (bit_vector)
            requires
                0 < s < 32,
        ;
    } else {
        assert((1u32 << 0u32) == 1) by (bit_vector);
    }
}

/// The top 16 bits of a number of `l` bits lie in `[2^15, 2^16)`.
pub proof fn lemma_top_bits(x: nat, s: nat)
    requires
        crate::math::bit_len(x) == s + 16,
    ensures
        0x8000 <= x / crate::math::pow2(s) < 0x1_0000,
{
    crate::math::lemma_bit_len_bounds(x);
    lemma_pow2_add(s, 15);
    lemma_pow2_add(s, 16);
    reveal_with_fuel(crate::math::pow2, 17);
    crate::math::lemma_pow2_positive(s);
    let p = crate::math::pow2(s);
    assert(0x8000 * p <= x < 0x1_0000 * p);
    assert(0x8000 <= x / p < 0x1_0000) by (nonlinear_arith)
        requires
            0x8000 * p <= x < 0x1_0000 * p,
            p > 0,
    ;
}

/// `2^(a + b) == 2^a * 2^b`.
pub proof fn lemma_pow2_add(a: nat, b: nat)
    ensures
        crate::math::pow2(a + b) == crate::math::pow2(a) * crate::math::pow2(b),
    decreases b,
{
    if b > 0 {
        lemma_pow2_add(a, (b - 1) as nat);
        assert(crate::math::pow2(a + b) == 2 * crate::math::pow2((a + b - 1) as nat));
        assert(crate::math::pow2(b) == 2 * crate::math::pow2((b - 1) as nat));
        assert(crate::math::pow2(a) * (2 * crate::math::pow2((b - 1) as nat)) == 2 * (
        crate::math::pow2(a) * crate::math::pow2((b - 1) as nat))) by (nonlinear_arith);
    } else {
        assert(crate::math::pow2(0) == 1);
        assert(a + b == a);
    }
}

/// The frequency of the first nonzero value of a Laplace-like distribution,
/// before the minimum probability is added.
pub open spec fn laplace_freq1(fs0: u32, decay: u32) -> u32 {
    (((32768 - 32 - fs0) * (16384 - decay)) / 32768) as u32
}

/// Returns `laplace_freq1(fs0, decay)`.
pub fn get_lapace_freq(fs0: u32, decay: u32) -> (r: u32)
    requires
        fs0 <= 32736,
        decay <= 16384,
    ensures
        r == laplace_freq1(fs0, decay),
        r < 16384,
{
    let ft = 32768 - 32 - fs0;
    assert(ft * (16384 - decay) <= 32736 * 16384) by (nonlinear_arith)
        requires
            ft <= 32736,
            decay <= 16384,
    ;
    let p = ft * (16384 - decay);
    assert(p >> 15 == p / 32768) by (bit_vector);
    p >> 15
}

} // verus!
