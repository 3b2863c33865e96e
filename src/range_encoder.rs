//! The range encoder: the counterpart of `RangeDecoder`, writing coded
//! symbols from the front of a buffer and raw bits from its back.
use vstd::prelude::*;
use crate::error::EncoderError;
use crate::math::ilog;
use crate::range_coder::{get_lapace_freq, laplace_freq1};
use crate::range_decoder::{
    advanced, after_bits, byte_from_end, fill_measure, filled, normalize_measure, normalize_step,
    normalized, uint_high_total, uint_raw_bits, freq_of, after_uint, uint_after_high, RangeDecoder,
};
use crate::range_coder::{
    tell, tell_frac, tell_frac_spec, tell_spec, CODE_BOT, CODE_SHIFT, CODE_TOP, SYM_BITS,
    SYM_MAX, UINT_BITS, WINDOW_SIZE,
};

verus! {

/// The range encoder.
///
/// It fails with `BufferToSmall` as soon as the bytes it holds back for carry
/// propagation could no longer all be written.
pub struct RangeEncoder {
    /// The output buffer.
    pub buffer: Vec<u8>,
    /// The size of the used part of the buffer.
    pub storage: usize,
    /// The number of raw-bit bytes written at the end.
    pub end_offs: usize,
    /// Raw bits not yet written.
    pub end_window: u32,
    /// The number of valid bits in `end_window`.
    pub end_bits: u32,
    /// The total number of whole bits written.
    pub bits_total: u32,
    /// The offset of the next coded byte.
    pub offs: usize,
    /// The size of the current range.
    pub rng: u32,
    /// The low end of the current range.
    pub val: u32,
    /// The number of held-back bytes of value 255, awaiting a carry.
    pub ext: usize,
    /// A held-back byte, awaiting a carry.
    pub rem: Option<u32>,
}

/// The number of bytes the encoder holds back.
pub open spec fn pending(e: RangeEncoder) -> int {
    e.ext + if e.rem is Some {
        1int
    } else {
        0int
    }
}


/// The bytes that a carry of `carry` releases: the held-back byte plus the
/// carry, then each held-back 255 plus the carry.
pub open spec fn released(e: RangeEncoder, carry: u32) -> Seq<u8> {
    let head = match e.rem {
        Some(x) => seq![((x + carry) % 256) as u8],
        None => Seq::<u8>::empty(),
    };
    head + Seq::new(e.ext as nat, |i: int| ((255 + carry) % 256) as u8)
}

/// The encoder's state, with its buffer as a sequence of bytes.
pub struct EncoderState {
    pub buffer: Seq<u8>,
    pub storage: usize,
    pub end_offs: usize,
    pub end_window: u32,
    pub end_bits: u32,
    pub bits_total: u32,
    pub offs: usize,
    pub rng: u32,
    pub val: u32,
    pub ext: usize,
    pub rem: Option<u32>,
}

impl View for RangeEncoder {
    type V = EncoderState;

    open spec fn view(&self) -> EncoderState {
        EncoderState {
            buffer: self.buffer@,
            storage: self.storage,
            end_offs: self.end_offs,
            end_window: self.end_window,
            end_bits: self.end_bits,
            bits_total: self.bits_total,
            offs: self.offs,
            rng: self.rng,
            val: self.val,
            ext: self.ext,
            rem: self.rem,
        }
    }
}

/// The number of bytes held back in state `s`.
pub open spec fn held(s: EncoderState) -> int {
    s.ext + if s.rem is Some {
        1int
    } else {
        0int
    }
}

/// The bytes that a carry of `carry` releases from state `s`.
pub open spec fn released_bytes(s: EncoderState, carry: u32) -> Seq<u8> {
    let head = match s.rem {
        Some(x) => seq![((x + carry) % 256) as u8],
        None => Seq::<u8>::empty(),
    };
    head + Seq::new(s.ext as nat, |i: int| ((255 + carry) % 256) as u8)
}

/// `b` with `bytes` written from `at` on.
pub open spec fn splice(b: Seq<u8>, at: int, bytes: Seq<u8>) -> Seq<u8> {
    b.take(at) + bytes + b.skip(at + bytes.len())
}

/// The state after the top symbol `c` leaves the low register: the held
/// bytes are released when no carry can reach them any more, else `c` is
/// held too; `None` where the held bytes could no longer all be written.
pub open spec fn carry_step(s: EncoderState, c: u32) -> Option<EncoderState> {
    if s.offs + s.end_offs + held(s) + 1 > s.storage {
        None
    } else if c != 255 {
        Some(
            EncoderState {
                buffer: splice(s.buffer, s.offs as int, released_bytes(s, c / 256)),
                offs: (s.offs + held(s)) as usize,
                ext: 0,
                rem: Some(c % 256),
                ..s
            },
        )
    } else {
        Some(EncoderState { ext: (s.ext + 1) as usize, ..s })
    }
}

/// The measure that renormalization decreases.
pub open spec fn renormalize_measure(s: EncoderState) -> nat {
    if s.rng > CODE_BOT {
        0
    } else {
        (CODE_BOT + 1 - s.rng) as nat
    }
}

/// The state after renormalization: the top symbol moves out and the range
/// widens by a byte until it lies above `CODE_BOT`; `None` where a byte
/// could not be held.
pub open spec fn renormalized(s: EncoderState) -> Option<EncoderState>
    decreases renormalize_measure(s),
{
    if s.rng == 0 || s.rng > CODE_BOT {
        Some(s)
    } else {
        match carry_step(s, s.val >> 23u32) {
            None => None,
            Some(t) => renormalized(
                EncoderState {
                    val: (t.val << 8u32) & 0x7FFF_FFFFu32,
                    rng: (t.rng * 256) as u32,
                    bits_total: t.bits_total.wrapping_add(8),
                    ..t
                },
            ),
        }
    }
}

/// The state after narrowing the range to the symbol `[fl, fh)` of `ft`,
/// before renormalization.
pub open spec fn narrowed(s: EncoderState, fl: u32, fh: u32, ft: u32) -> EncoderState {
    let r = s.rng / ft;
    if fl > 0 {
        EncoderState {
            val: (s.val + (s.rng - r * (ft - fl))) as u32,
            rng: (r * (fh - fl)) as u32,
            ..s
        }
    } else {
        EncoderState { rng: (s.rng - r * (ft - fh)) as u32, ..s }
    }
}

/// The state after coding the symbol `[fl, fh)` of `ft`.
pub open spec fn encoded(s: EncoderState, fl: u32, fh: u32, ft: u32) -> Option<EncoderState> {
    renormalized(narrowed(s, fl, fh, ft))
}

/// The state after coding a bit that is one with probability `1 / 2^logp`,
/// before renormalization.
pub open spec fn bit_narrowed(s: EncoderState, val: u32, logp: u32) -> EncoderState {
    let q = s.rng >> logp;
    let r = (s.rng - q) as u32;
    EncoderState {
        val: if val != 0 {
            (s.val + r) as u32
        } else {
            s.val
        },
        rng: if val != 0 {
            q
        } else {
            r
        },
        ..s
    }
}

/// The state after coding symbol `sym` of an inverse cumulative table over
/// `2^ftb`, before renormalization.
pub open spec fn icdf_narrowed(s: EncoderState, sym: int, icdf: Seq<u8>, ftb: u32) -> EncoderState {
    let q = s.rng >> ftb;
    if sym > 0 {
        EncoderState {
            val: (s.val + (s.rng - q * icdf[sym - 1])) as u32,
            rng: (q * (icdf[sym - 1] - icdf[sym])) as u32,
            ..s
        }
    } else {
        EncoderState { rng: (s.rng - q * icdf[0]) as u32, ..s }
    }
}

/// The state after writing the whole bytes of the raw-bit window `window`
/// of `used` bits at the end, lowest byte first.
pub open spec fn flushed(s: EncoderState, window: u32, used: u32) -> (EncoderState, u32, u32)
    decreases used,
{
    if used < 8 {
        (s, window, used)
    } else {
        flushed(
            EncoderState {
                buffer: s.buffer.update(s.storage - (s.end_offs + 1), (window & 255u32) as u8),
                end_offs: (s.end_offs + 1) as usize,
                ..s
            },
            window >> 8u32,
            (used - 8) as u32,
        )
    }
}

/// The state after coding `bits` raw bits of `fl`; `None` where the window
/// must be written out and the bytes would not fit.
pub open spec fn raw_bits_step(s: EncoderState, fl: u32, bits: u32) -> Option<EncoderState> {
    if s.end_bits + bits > 32 {
        if s.offs + s.end_offs + held(s) + s.end_bits / 8 > s.storage {
            None
        } else {
            let (t, w, u) = flushed(s, s.end_window, s.end_bits);
            Some(
                EncoderState {
                    end_window: w | (fl << u),
                    end_bits: (u + bits) as u32,
                    bits_total: s.bits_total.wrapping_add(bits),
                    ..t
                },
            )
        }
    } else {
        Some(
            EncoderState {
                end_window: s.end_window | (fl << s.end_bits),
                end_bits: (s.end_bits + bits) as u32,
                bits_total: s.bits_total.wrapping_add(bits),
                ..s
            },
        )
    }
}

/// The state after coding the integer `fl` below `ft`: the high part coded,
/// any low part beyond `UINT_BITS` bits raw.
pub open spec fn uint_encoded(s: EncoderState, fl: u32, ft: u32) -> Option<EncoderState> {
    let b = uint_raw_bits(ft);
    if b > 0 {
        let high = fl >> b;
        match encoded(s, high, (high + 1) as u32, uint_high_total(ft)) {
            None => None,
            Some(t) => raw_bits_step(t, fl & (((1u32 << b) - 1) as u32), b),
        }
    } else {
        encoded(s, fl, (fl + 1) as u32, ft)
    }
}

/// How many bits `done` must still write, and the value whose top bits it
/// writes: the fewest bits that fall inside the final range whatever
/// follows them.
pub open spec fn done_end(s: EncoderState) -> (int, u32) {
    let l0 = 32 - crate::math::bit_len(s.rng as nat);
    let mask0 = 0x7FFF_FFFFu32 >> (l0 as u32);
    let end0 = ((s.val + mask0) as u32) & !mask0;
    if (end0 | mask0) >= s.val + s.rng {
        let mask1 = mask0 >> 1u32;
        (l0 + 1, ((s.val + mask1) as u32) & !mask1)
    } else {
        (l0, end0)
    }
}

/// The state after the final bytes of `end` leave through `carry_step`,
/// with the bits still owed (`l`, at most 0 at the end).
pub open spec fn done_carries(s: EncoderState, end: u32, l: int) -> Option<(EncoderState, int)>
    decreases if l <= 0 {
        0
    } else {
        l
    },
{
    if l <= 0 {
        Some((s, l))
    } else {
        match carry_step(s, end >> 23u32) {
            None => None,
            Some(t) => done_carries(t, (end << 8u32) & 0x7FFF_FFFFu32, l - 8),
        }
    }
}

/// The state with every held byte written, with no carry.
pub open spec fn release_all(s: EncoderState) -> EncoderState {
    if held(s) > 0 {
        EncoderState {
            buffer: splice(s.buffer, s.offs as int, released_bytes(s, 0)),
            offs: (s.offs + held(s)) as usize,
            ext: 0,
            rem: None,
            ..s
        }
    } else {
        s
    }
}

/// `b` with the bytes in `[from, to)` cleared.
pub open spec fn cleared(b: Seq<u8>, from: int, to: int) -> Seq<u8> {
    Seq::new(
        b.len(),
        |i: int|
            if from <= i < to {
                0u8
            } else {
                b[i]
            },
    )
}

/// The outcome of `done` on state `s`: the final bytes written through the
/// carry logic, every held byte released, the raw-bit window's whole bytes
/// written at the end, the gap between cleared, and the window's last bits
/// merged into the byte before the raw bytes (only as many as do not reach
/// the coded data, where the two meet).
pub open spec fn done_spec(s: EncoderState) -> Result<EncoderState, EncoderError> {
    let (l, end) = done_end(s);
    match done_carries(s, end, l) {
        None => Err(EncoderError::BufferToSmall),
        Some((t, l2)) => {
            let t2 = release_all(t);
            if t2.offs + t2.end_offs + t2.end_bits / 8 > t2.storage {
                Err(EncoderError::BufferToSmall)
            } else {
                let (t3, window, used) = flushed(t2, t2.end_window, t2.end_bits);
                let b = cleared(t3.buffer, t3.offs as int, t3.storage - t3.end_offs);
                let t4 = EncoderState { buffer: b, ..t3 };
                if used == 0 {
                    Ok(t4)
                } else if t4.end_offs >= t4.storage {
                    Err(EncoderError::InternalError("no range coder data"))
                } else {
                    let keep = -l2;
                    let w = if t4.offs + t4.end_offs >= t4.storage && keep < used {
                        window & (((1u32 << (keep as u32)) - 1) as u32)
                    } else {
                        window
                    };
                    let at = t4.storage - t4.end_offs - 1;
                    Ok(EncoderState { buffer: b.update(at, b[at] | (w as u8)), ..t4 })
                }
            }
        },
    }
}

/// The walk of `encode_laplace` outward through buckets of decaying width,
/// for a magnitude `mag`: gives the low bound, the width (0 once it has
/// decayed away) and the step reached; `None` where the buckets would pass
/// the end of the 15-bit range.
pub open spec fn laplace_enc_walk(fl: int, w: int, i: int, mag: int, decay: int) -> Option<
    (int, int, int),
>
    decreases mag - i,
{
    if w > 0 && i < mag {
        if fl + 2 * w + 2 > 32768 {
            None
        } else {
            let w2 = w * 2;
            laplace_enc_walk(fl + w2 + 2, w2 * decay / 32768, i + 1, mag, decay)
        }
    } else {
        Some((fl, w, i))
    }
}

/// What `encode_laplace` codes for `v`: the low bound and width of its
/// bucket and the value it stands for (a magnitude past the reach of the
/// distribution is clamped); `None` where the parameters leave the range.
pub open spec fn laplace_symbol(v: int, fs: int, decay: int) -> Option<(int, int, int)> {
    if v == 0 {
        Some((0, fs, 0))
    } else {
        let neg = v < 0;
        let mag = if neg {
            -v
        } else {
            v
        };
        let s = if neg {
            1int
        } else {
            0int
        };
        match laplace_enc_walk(fs, laplace_freq1(fs as u32, decay as u32) as int, 1, mag, decay) {
            None => None,
            Some((fl, w, i)) => {
                if w == 0 {
                    let ndi_max = (32768 - fl + s) / 2;
                    let di = if mag - i < ndi_max - 1 {
                        mag - i
                    } else {
                        ndi_max - 1
                    };
                    let fl2 = fl + 2 * di + 1 - s;
                    let w2 = if 32768 - fl2 < 1 {
                        32768 - fl2
                    } else {
                        1
                    };
                    let coded = i + di;
                    if coded > 0x7FFF_FFFF {
                        None
                    } else {
                        Some(
                            (
                                fl2,
                                w2,
                                if neg {
                                    -coded
                                } else {
                                    coded
                                },
                            ),
                        )
                    }
                } else {
                    Some(
                        (
                            if neg {
                                fl
                            } else {
                                fl + w + 1
                            },
                            w + 1,
                            v,
                        ),
                    )
                }
            },
        }
    }
}

/// The range and bit count after widening the range a byte at a time until
/// it lies above `CODE_BOT`: what renormalization does to them in both the
/// encoder and the decoder.
pub open spec fn widened(rng: u32, bits: u32) -> (u32, u32)
    decreases if rng > CODE_BOT {
        0
    } else {
        CODE_BOT + 1 - rng
    },
{
    if rng == 0 || rng > CODE_BOT {
        (rng, bits)
    } else {
        widened((rng * 256) as u32, bits.wrapping_add(8))
    }
}

/// The decoder's renormalization widens its range as `widened` says.
pub proof fn lemma_decoder_widened(d: RangeDecoder)
    ensures
        (normalized(d).rng, normalized(d).bits_total) == widened(d.rng, d.bits_total),
    decreases normalize_measure(d),
{
    if !(d.rng == 0 || d.rng > CODE_BOT) {
        lemma_decoder_widened(normalize_step(d));
    }
}

/// The encoder's renormalization, where it succeeds, widens its range as
/// `widened` says.
pub proof fn lemma_encoder_widened(s: EncoderState)
    ensures
        renormalized(s) matches Some(t) ==> (t.rng, t.bits_total) == widened(s.rng, s.bits_total),
    decreases renormalize_measure(s),
{
    if !(s.rng == 0 || s.rng > CODE_BOT) {
        if let Some(t) = carry_step(s, s.val >> 23u32) {
            lemma_encoder_widened(
                EncoderState {
                    val: (t.val << 8u32) & 0x7FFF_FFFFu32,
                    rng: (t.rng * 256) as u32,
                    bits_total: t.bits_total.wrapping_add(8),
                    ..t
                },
            );
        }
    }
}

/// A new encoder and a new decoder start with the same range and bit count.
pub proof fn lemma_coders_start_alike()
    ensures
        widened(128, 9) == (0x8000_0000u32, 33u32),
{
    reveal_with_fuel(widened, 4);
}

/// Coding the same symbol keeps the encoder and the decoder alike: where
/// they hold the same range and bit count, the encoder codes the symbol
/// `[fl, fh)` of `ft`, and the decoder, having decoded a frequency in that
/// symbol, advances past it, they again hold the same range and bit count,
/// and so report the same `tell` and `tell_frac`.
pub proof fn lemma_coders_agree(e: EncoderState, d: RangeDecoder, fl: u32, fh: u32, ft: u32)
    requires
        e.rng == d.rng,
        e.bits_total == d.bits_total,
        1 <= ft <= CODE_BOT,
        fl < fh <= ft,
        d.ext == d.rng / ft,
    ensures
        encoded(e, fl, fh, ft) matches Some(t) ==> {
            let d2 = normalized(advanced(d, fl, fh, ft));
            &&& t.rng == d2.rng
            &&& t.bits_total == d2.bits_total
            &&& tell_spec(t.bits_total, t.rng) == tell_spec(d2.bits_total, d2.rng)
            &&& tell_frac_spec(t.bits_total, t.rng) == tell_frac_spec(d2.bits_total, d2.rng)
        },
{
    let n = narrowed(e, fl, fh, ft);
    let a = advanced(d, fl, fh, ft);
    assert(n.rng == a.rng && n.bits_total == a.bits_total);
    lemma_encoder_widened(n);
    lemma_decoder_widened(a);
}

/// The coded part of an integer below `ft` has a total between 1 and 256.
pub proof fn lemma_uint_split(ft: u32)
    requires
        ft >= 2,
    ensures
        1 <= uint_high_total(ft) <= 256,
        uint_raw_bits(ft) <= 24,
{
    let ftm = (ft - 1) as u32;
    crate::math::lemma_bit_len_bounds(ftm as nat);
    reveal_with_fuel(crate::math::pow2, 9);
    crate::math::lemma_bit_len_vs_pow2(ftm as nat, 32);
    reveal_with_fuel(crate::math::pow2, 33);
    let b = uint_raw_bits(ft);
    if b > 0 {
        crate::range_coder::lemma_shift_is_div(ftm, b);
        crate::range_coder::lemma_pow2_add(b as nat, 8);
        crate::math::lemma_pow2_positive(b as nat);
        let p = crate::math::pow2(b as nat) as int;
        let high = ftm >> b;
        assert(high < 256) by (nonlinear_arith)
            requires
                high == ftm as int / p,
                ftm < p * 256,
                p > 0,
        ;
    } else {
        crate::math::lemma_pow2_monotone(crate::math::bit_len(ftm as nat), 8);
    }
}

/// Coding the same integer keeps the encoder and the decoder alike: where
/// they hold the same range and bit count, the encoder codes `fl` below
/// `ft`, and the decoder decodes the same coded high part, they again hold
/// the same range and bit count, and so report the same `tell` and
/// `tell_frac`.
pub proof fn lemma_uint_agree(e: EncoderState, d: RangeDecoder, fl: u32, ft: u32)
    requires
        d.wf(),
        e.rng == d.rng,
        e.bits_total == d.bits_total,
        ft >= 2,
        fl < ft,
        freq_of(
            RangeDecoder { ext: d.rng / uint_high_total(ft), ..d },
            uint_high_total(ft),
        ) == (if uint_raw_bits(ft) > 0 {
            fl >> uint_raw_bits(ft)
        } else {
            fl
        }),
    ensures
        uint_encoded(e, fl, ft) matches Some(t) ==> {
            let d2 = after_uint(d, ft);
            &&& t.rng == d2.rng
            &&& t.bits_total == d2.bits_total
            &&& tell_spec(t.bits_total, t.rng) == tell_spec(d2.bits_total, d2.rng)
            &&& tell_frac_spec(t.bits_total, t.rng) == tell_frac_spec(d2.bits_total, d2.rng)
        },
{
    lemma_uint_split(ft);
    let ft1 = uint_high_total(ft);
    let b = uint_raw_bits(ft);
    let d1 = RangeDecoder { ext: d.rng / ft1, ..d };
    assert(d1.ext >= 1 && d1.val / d1.ext >= 0) by (nonlinear_arith)
        requires
            d1.ext == d.rng / ft1,
            1 <= ft1 <= 256,
            d.rng > 256,
            d1.val >= 0,
    ;
    let s = freq_of(d1, ft1);
    lemma_coders_agree(e, d1, s, (s + 1) as u32, ft1);
    if b > 0 {
        let high = fl >> b;
        if let Some(t) = encoded(e, high, (high + 1) as u32, ft1) {
            lemma_raw_bits_agree(t, uint_after_high(d, ft), fl & (((1u32 << b) - 1) as u32), b);
        }
    }
}

/// Raw bits keep the encoder and the decoder alike: both add the bits to
/// their count and leave the range as it is.
pub proof fn lemma_raw_bits_agree(e: EncoderState, d: RangeDecoder, fl: u32, bits: u32)
    requires
        e.rng == d.rng,
        e.bits_total == d.bits_total,
    ensures
        raw_bits_step(e, fl, bits) matches Some(t) ==> t.rng == after_bits(d, bits).rng
            && t.bits_total == after_bits(d, bits).bits_total,
{
    if e.end_bits + bits > 32 {
        lemma_flushed_keeps(e, e.end_window, e.end_bits);
    }
    lemma_filled_keeps(d);
}

/// Writing out the raw-bit window changes neither range nor bit count.
pub proof fn lemma_flushed_keeps(s: EncoderState, window: u32, used: u32)
    ensures
        flushed(s, window, used).0.rng == s.rng,
        flushed(s, window, used).0.bits_total == s.bits_total,
    decreases used,
{
    if used >= 8 {
        lemma_flushed_keeps(
            EncoderState {
                buffer: s.buffer.update(s.storage - (s.end_offs + 1), (window & 255u32) as u8),
                end_offs: (s.end_offs + 1) as usize,
                ..s
            },
            window >> 8u32,
            (used - 8) as u32,
        );
    }
}

/// Filling the decoder's raw-bit window changes neither range nor bit count.
pub proof fn lemma_filled_keeps(d: RangeDecoder)
    ensures
        filled(d).rng == d.rng,
        filled(d).bits_total == d.bits_total,
    decreases fill_measure(d),
{
    let (b, e) = byte_from_end(d);
    let d2 = RangeDecoder {
        end_window: d.end_window | ((b as u32) << d.end_bits),
        end_bits: (d.end_bits + 8) as u32,
        end_offs: e,
        ..d
    };
    if !(d.end_bits > 24 || d2.end_bits > 24) {
        lemma_filled_keeps(d2);
    }
}

/// `written` bytes form a splice.
pub proof fn lemma_written_splice(a: Seq<u8>, b: Seq<u8>, at: int, bytes: Seq<u8>)
    requires
        written(a, b, at, bytes),
        0 <= at,
        at + bytes.len() <= a.len(),
    ensures
        b == splice(a, at, bytes),
{
    let sp = splice(a, at, bytes);
    assert forall|i: int| 0 <= i < b.len() implies b[i] == sp[i] by {
        if at <= i < at + bytes.len() {
            assert(b[at + (i - at)] == bytes[i - at]);
        }
    }
    assert(b =~= sp);
}

/// `b` is `a` with `bytes` written from `at` on.
pub open spec fn written(a: Seq<u8>, b: Seq<u8>, at: int, bytes: Seq<u8>) -> bool {
    &&& b.len() == a.len()
    &&& forall|i: int| 0 <= i < bytes.len() ==> b[at + i] == bytes[i]
    &&& forall|i: int| 0 <= i < a.len() && !(at <= i < at + bytes.len()) ==> b[i] == a[i]
}

impl RangeEncoder {
    /// The encoder's invariant: the written and held-back bytes fit, and the
    /// range registers cannot overflow.
    pub open spec fn wf(&self) -> bool {
        &&& self.storage <= self.buffer@.len()
        &&& self.offs + self.end_offs + pending(*self) <= self.storage
        &&& 0 < self.rng <= CODE_TOP
        &&& self.val + self.rng < 0x1_0000_0000
        &&& self.end_bits <= 32
        &&& (self.rem matches Some(x) ==> x <= 255)
    }

    /// The invariant, with the range renormalized above `CODE_BOT`.
    pub open spec fn ready(&self) -> bool {
        self.wf() && self.rng > CODE_BOT
    }

    /// Creates an encoder writing into `buffer`.
    pub fn new(buffer: Vec<u8>) -> (r: Self)
        ensures
            r.ready(),
            r.buffer@ == buffer@,
            r.storage == buffer@.len(),
            r.offs == 0 && r.end_offs == 0 && r.ext == 0 && r.rem is None,
            r.rng == CODE_TOP && r.val == 0 && r.bits_total == 33,
            r.end_window == 0 && r.end_bits == 0,
    {
        let storage = buffer.len();
        RangeEncoder {
            buffer,
            storage,
            end_offs: 0,
            end_window: 0,
            end_bits: 0,
            bits_total: 33,
            offs: 0,
            rng: CODE_TOP,
            val: 0,
            ext: 0,
            rem: None,
        }
    }

    /// Resets the encoder to its state after `new`, keeping the buffer.
    pub fn reset(&mut self)
        ensures
            final(self).ready(),
            final(self).buffer@ == old(self).buffer@,
            final(self).storage == old(self).buffer@.len(),
            final(self).offs == 0 && final(self).end_offs == 0 && final(self).ext == 0
                && final(self).rem is None,
            final(self).rng == CODE_TOP && final(self).val == 0 && final(self).bits_total == 33,
            final(self).end_window == 0 && final(self).end_bits == 0,
    {
        self.storage = self.buffer.len();
        self.end_offs = 0;
        self.end_window = 0;
        self.end_bits = 0;
        self.bits_total = 33;
        self.offs = 0;
        self.rng = CODE_TOP;
        self.val = 0;
        self.ext = 0;
        self.rem = None;
    }

    /// The number of coded bytes written; final after `done`.
    pub fn range_bytes(&self) -> (r: usize)
        ensures
            r == self.offs,
    {
        self.offs
    }

    /// The buffer written so far.
    pub fn buffer(&self) -> (r: &[u8])
        ensures
            r@ == self.buffer@,
    {
        self.buffer.as_slice()
    }

    /// Returns the number of whole bits written so far.
    pub fn tell(&self) -> (r: u32)
        ensures
            r == tell_spec(self.bits_total, self.rng),
    {
        tell(self.bits_total, self.rng)
    }

    /// Returns the bits written so far in eighths of a bit.
    pub fn tell_frac(&self) -> (r: u32)
        requires
            self.ready(),
        ensures
            r == tell_frac_spec(self.bits_total, self.rng),
    {
        tell_frac(self.bits_total, self.rng)
    }

    /// The total number of whole bits written.
    pub fn bits_total(&self) -> (r: u32)
        ensures
            r == self.bits_total,
    {
        self.bits_total
    }

    /// The size of the current range.
    pub fn range(&self) -> (r: u32)
        ensures
            r == self.rng,
    {
        self.rng
    }


    /// Writes the held-back bytes, each plus `carry`.
    fn release(&mut self, carry: u32)
        requires
            old(self).wf(),
            carry <= 1,
        ensures
            *final(self) == (RangeEncoder {
                buffer: final(self).buffer,
                offs: (old(self).offs + pending(*old(self))) as usize,
                ext: 0,
                rem: None,
                ..*old(self)
            }),
            written(
                old(self).buffer@,
                final(self).buffer@,
                old(self).offs as int,
                released(*old(self), carry),
            ),
            final(self).wf(),
    {
        let ghost e0 = *self;
        let ghost bytes = released(e0, carry);
        if let Some(rem) = self.rem {
            let x = rem + carry;
            let b = #[verifier::truncate]
            (x as u8);
            assert(b == (x % 256) as u8) by (bit_vector)
                requires
                    b == x as u8,
            ;
            let _ = self.write_byte(b);
            self.rem = None;
        }
        let ghost head = (pending(e0) - e0.ext) as int;
        assert(written(e0.buffer@, self.buffer@, e0.offs as int, bytes.take(head)));
        let sym = #[verifier::truncate]
        (((SYM_MAX + carry) & SYM_MAX) as u8);
        assert((((255u32 + carry) as u32) & 255u32) == (255u32 + carry) % 256) by (bit_vector)
            requires
                carry <= 1,
        ;
        while self.ext > 0
            invariant
                self.storage == e0.storage,
                self.end_offs == e0.end_offs,
                self.rem is None,
                self.storage <= self.buffer@.len(),
                self.offs + self.end_offs + self.ext <= self.storage,
                self.offs == e0.offs + head + (e0.ext - self.ext),
                self.ext <= e0.ext,
                sym == ((255 + carry) % 256) as u8,
                bytes == released(e0, carry),
                bytes.len() == head + e0.ext,
                forall|i: int| head <= i < bytes.len() ==> bytes[i] == sym,
                written(
                    e0.buffer@,
                    self.buffer@,
                    e0.offs as int,
                    bytes.take(head + (e0.ext - self.ext)),
                ),
                *self == (RangeEncoder {
                    buffer: self.buffer,
                    offs: self.offs,
                    ext: self.ext,
                    rem: None,
                    ..e0
                }),
            decreases self.ext,
        {
            let ghost k = head + (e0.ext - self.ext);
            let _ = self.write_byte(sym);
            self.ext = self.ext - 1;
            assert(bytes.take(k + 1) =~= bytes.take(k).push(sym));
        }
        assert(bytes.take(bytes.len() as int) =~= bytes);
    }

    /// Takes the top symbol `c` of the low register: releases the held-back
    /// bytes when no further carry can reach them, or holds `c` back too.
    /// Fails, changing nothing, when the held-back bytes could no longer all
    /// be written.
    fn carry_out(&mut self, c: u32) -> (r: Result<(), EncoderError>)
        requires
            old(self).wf(),
            c <= 511,
        ensures
            old(self).offs + old(self).end_offs + pending(*old(self)) + 1 > old(self).storage
                ==> r == Err::<(), EncoderError>(EncoderError::BufferToSmall) && *final(self)
                == *old(self),
            old(self).offs + old(self).end_offs + pending(*old(self)) + 1 <= old(self).storage
                ==> r is Ok && final(self).wf() && if c != 255 {
                *final(self) == (RangeEncoder {
                    buffer: final(self).buffer,
                    offs: (old(self).offs + pending(*old(self))) as usize,
                    ext: 0,
                    rem: Some(c % 256),
                    ..*old(self)
                }) && written(
                    old(self).buffer@,
                    final(self).buffer@,
                    old(self).offs as int,
                    released(*old(self), c / 256),
                )
            } else {
                *final(self) == (RangeEncoder { ext: (old(self).ext + 1) as usize, ..*old(self) })
            },
            match carry_step(old(self)@, c) {
                Some(t) => r is Ok && final(self)@ == t,
                None => r is Err && *final(self) == *old(self),
            },
    {
        let held: usize = if self.rem.is_some() {
            1
        } else {
            0
        };
        if self.offs + self.end_offs + self.ext + held >= self.storage {
            return Err(EncoderError::BufferToSmall);
        }
        if c != SYM_MAX {
            let carry = c >> SYM_BITS;
            assert(carry == c / 256 && carry <= 1) by (bit_vector)
                requires
                    carry == c >> 8u32,
                    c <= 511,
            ;
            self.release(carry);
            let low = c & SYM_MAX;
            assert(low == c % 256) by (bit_vector)
                requires
                    low == c & 255u32,
            ;
            self.rem = Some(low);
            proof {
                assert(released(*old(self), carry) == released_bytes(old(self)@, carry));
                lemma_written_splice(
                    old(self).buffer@,
                    self.buffer@,
                    old(self).offs as int,
                    released_bytes(old(self)@, carry),
                );
            }
        } else {
            self.ext = self.ext + 1;
        }
        Ok(())
    }

    /// Renormalizes: moves the top symbol out while the range is at or below
    /// `CODE_BOT`.
    fn normalize(&mut self) -> (r: Result<(), EncoderError>)
        requires
            old(self).wf(),
        ensures
            r is Ok ==> final(self).ready(),
            r is Err ==> r == Err::<(), EncoderError>(EncoderError::BufferToSmall),
            final(self).wf(),
            final(self).storage == old(self).storage,
            final(self).buffer@.len() == old(self).buffer@.len(),
            match renormalized(old(self)@) {
                Some(t) => r is Ok && final(self)@ == t,
                None => r is Err,
            },
    {
        while self.rng <= CODE_BOT
            invariant
                self.wf(),
                self.storage == old(self).storage,
                self.buffer@.len() == old(self).buffer@.len(),
                renormalized(self@) == renormalized(old(self)@),
            decreases if self.rng > CODE_BOT {
                0
            } else {
                CODE_BOT + 1 - self.rng
            },
        {
            let ghost before = self@;
            let v = self.val;
            let c = v >> CODE_SHIFT;
            assert(c <= 511) by (bit_vector)
                requires
                    c == v >> 23u32,
            ;
            match self.carry_out(c) {
                Ok(()) => {},
                Err(e) => return Err(e),
            }
            let shifted = (v << SYM_BITS) & (CODE_TOP - 1);
            assert(shifted < 0x8000_0000) by (bit_vector)
                requires
                    shifted == (v << 8u32) & 0x7FFF_FFFFu32,
            ;
            self.val = shifted;
            self.rng = self.rng * 256;
            self.bits_total = self.bits_total.wrapping_add(SYM_BITS);
            assert(renormalized(before) == renormalized(self@));
        }
        Ok(())
    }

    /// Encodes the symbol that occupies `[fl, fh)` of a total frequency `ft`.
    pub fn encode(&mut self, fl: u32, fh: u32, ft: u32) -> (r: Result<(), EncoderError>)
        requires
            old(self).ready(),
            fl < fh <= ft,
            ft <= CODE_BOT,
        ensures
            match encoded(old(self)@, fl, fh, ft) {
                Some(t) => r is Ok && final(self)@ == t,
                None => r is Err,
            },
            r is Ok ==> final(self).ready(),
            r is Err ==> r == Err::<(), EncoderError>(EncoderError::BufferToSmall),
            final(self).wf(),
            final(self).storage == old(self).storage,
            final(self).buffer@.len() == old(self).buffer@.len(),
    {
        let r = self.rng / ft;
        proof {
            let (rng, val) = (self.rng as int, self.val as int);
            assert(1 <= r && r * ft <= rng) by (nonlinear_arith)
                requires
                    r == rng / ft as int,
                    ft <= rng,
                    ft >= 1,
            ;
            assert(r * (ft - fl) <= r * ft && r * (fh - fl) <= r * (ft - fl) && r * (ft - fh) + r
                * (fh - fl) == r * (ft - fl) && r * (fh - fl) >= r && r * (ft - fh) <= r * (ft - fl)
                && r * (ft - fh) + r * fh == r * ft && r * fh >= r) by (nonlinear_arith)
                requires
                    r >= 1,
                    fl < fh <= ft,
            ;
        }
        if fl > 0 {
            self.val = self.val + (self.rng - r * (ft - fl));
            self.rng = r * (fh - fl);
        } else {
            self.rng = self.rng - r * (ft - fh);
        }
        self.normalize()
    }

    /// `encode` with a total frequency of `2^bits`.
    pub fn encode_bin(&mut self, fl: u32, fh: u32, bits: u32) -> (r: Result<(), EncoderError>)
        requires
            old(self).ready(),
            bits <= 23,
            fl < fh <= (1u32 << bits),
        ensures
            match encoded(old(self)@, fl, fh, 1u32 << bits) {
                Some(t) => r is Ok && final(self)@ == t,
                None => r is Err,
            },
            r is Ok ==> final(self).ready(),
            r is Err ==> r == Err::<(), EncoderError>(EncoderError::BufferToSmall),
            final(self).wf(),
            final(self).storage == old(self).storage,
            final(self).buffer@.len() == old(self).buffer@.len(),
    {
        assert(1u32 << bits <= 0x80_0000) by (bit_vector)
            requires
                bits <= 23,
        ;
        self.encode(fl, fh, 1 << bits)
    }

    /// Encodes a bit that is one with probability `1 / 2^logp`.
    pub fn encode_bit_logp(&mut self, val: u32, logp: u32) -> (r: Result<(), EncoderError>)
        requires
            old(self).ready(),
            1 <= logp <= 23,
        ensures
            match renormalized(bit_narrowed(old(self)@, val, logp)) {
                Some(t) => r is Ok && final(self)@ == t,
                None => r is Err,
            },
            r is Ok ==> final(self).ready(),
            r is Err ==> r == Err::<(), EncoderError>(EncoderError::BufferToSmall),
            final(self).wf(),
            final(self).storage == old(self).storage,
            final(self).buffer@.len() == old(self).buffer@.len(),
    {
        let rng = self.rng;
        let s = rng >> logp;
        assert(1 <= s <= rng / 2) by (bit_vector)
            requires
                s == rng >> logp,
                1 <= logp <= 23,
                rng > 0x80_0000,
        ;
        let r = rng - s;
        if val != 0 {
            self.val = self.val + r;
        }
        self.rng = if val != 0 {
            s
        } else {
            r
        };
        self.normalize()
    }

    /// Encodes symbol `s` of an "inverse" cumulative table over `2^ftb`.
    /// The symbol must have a nonzero frequency.
    pub fn encode_icdf(&mut self, s: usize, icdf: &[u8], ftb: u32) -> (r: Result<
        (),
        EncoderError,
    >)
        requires
            old(self).ready(),
            ftb <= 23,
            s < icdf@.len(),
            forall|i: int| 0 <= i < icdf@.len() ==> icdf@[i] as u32 <= (1u32 << ftb),
            s == 0 ==> (icdf@[0] as u32) < (1u32 << ftb),
            s > 0 ==> icdf@[s - 1] > icdf@[s as int],
        ensures
            match renormalized(icdf_narrowed(old(self)@, s as int, icdf@, ftb)) {
                Some(t) => r is Ok && final(self)@ == t,
                None => r is Err,
            },
            r is Ok ==> final(self).ready(),
            r is Err ==> r == Err::<(), EncoderError>(EncoderError::BufferToSmall),
            final(self).wf(),
            final(self).storage == old(self).storage,
            final(self).buffer@.len() == old(self).buffer@.len(),
    {
        let q = self.rng >> ftb;
        proof {
            crate::range_coder::lemma_shift_is_div(self.rng, ftb);
            crate::range_coder::lemma_pow2_u32(ftb);
            crate::math::lemma_pow2_positive(ftb as nat);
            crate::math::lemma_pow2_monotone(ftb as nat, 23);
            reveal_with_fuel(crate::math::pow2, 24);
            let p = crate::math::pow2(ftb as nat) as int;
            let rng = self.rng as int;
            assert(q >= 1 && q * p <= rng) by (nonlinear_arith)
                requires
                    q == rng / p,
                    0 < p <= 0x80_0000,
                    rng > 0x80_0000,
            ;
            assert forall|k: int| 0 <= k <= p implies #[trigger] (q * k) <= q * p by {
                assert(q * k <= q * p) by (nonlinear_arith)
                    requires
                        k <= p,
                        q >= 1,
                ;
            }
        }
        if s > 0 {
            let hi = icdf[s - 1] as u32;
            let lo = icdf[s] as u32;
            assert(q * hi - q * lo >= q && q * (hi - lo) == q * hi - q * lo) by (nonlinear_arith)
                requires
                    lo < hi,
                    q >= 1,
            ;
            assert(q * hi <= self.rng && q * lo <= q * hi);
            self.val = self.val + (self.rng - q * hi);
            self.rng = q * (hi - lo);
        } else {
            let lo = icdf[0] as u32;
            proof {
                let p = crate::math::pow2(ftb as nat) as int;
                assert(q * lo + q <= q * p) by (nonlinear_arith)
                    requires
                        lo < p,
                        q >= 1,
                ;
            }
            self.rng = self.rng - q * lo;
        }
        self.normalize()
    }

    /// Encodes `bits` raw bits of `fl` at the back of the buffer.
    pub fn encode_bits(&mut self, fl: u32, bits: u32) -> (r: Result<(), EncoderError>)
        requires
            old(self).wf(),
            1 <= bits <= 25,
            fl < (1u32 << bits),
        ensures
            match raw_bits_step(old(self)@, fl, bits) {
                Some(t) => r is Ok && final(self)@ == t,
                None => r is Err,
            },
            r is Ok ==> final(self).wf() && final(self).rng == old(self).rng
                && final(self).bits_total == old(self).bits_total.wrapping_add(bits),
            r is Err ==> r == Err::<(), EncoderError>(EncoderError::BufferToSmall) && *final(self)
                == *old(self),
            r is Err <==> (old(self).end_bits + bits > 32 && old(self).offs + old(self).end_offs
                + pending(*old(self)) + old(self).end_bits / 8 > old(self).storage),
            final(self).wf(),
            final(self).rng == old(self).rng,
            final(self).storage == old(self).storage,
            final(self).buffer@.len() == old(self).buffer@.len(),
    {
        let mut window = self.end_window;
        let mut used = self.end_bits;
        if used + bits > WINDOW_SIZE {
            let held: usize = if self.rem.is_some() {
                1
            } else {
                0
            };
            if (used / 8) as usize > self.storage - (self.offs + self.end_offs + self.ext + held) {
                return Err(EncoderError::BufferToSmall);
            }
            loop
                invariant_except_break
                    8 <= used,
                invariant
                    used <= 32,
                    self.wf(),
                    self.offs + self.end_offs + pending(*self) + used / 8 <= self.storage,
                    self.rng == old(self).rng,
                    self.bits_total == old(self).bits_total,
                    self.storage == old(self).storage,
                    self.buffer@.len() == old(self).buffer@.len(),
                    flushed(self@, window, used) == flushed(
                        old(self)@,
                        old(self).end_window,
                        old(self).end_bits,
                    ),
                    self@ == (EncoderState {
                        buffer: self@.buffer,
                        end_offs: self.end_offs,
                        ..old(self)@
                    }),
                ensures
                    used < 8,
                decreases used,
            {
                let ghost before = self@;
                let ghost (w0, u0) = (window, used);
                let _ = self.write_byte_at_end(
                    #[verifier::truncate]
                    ((window & SYM_MAX) as u8),
                );
                window = window >> SYM_BITS;
                used = used - SYM_BITS;
                assert(flushed(before, w0, u0) == flushed(self@, window, used));
                if used < SYM_BITS {
                    break;
                }
            }
        }
        assert(used + bits <= 32);
        window = window | (fl << used);
        used = used + bits;
        self.end_window = window;
        self.end_bits = used;
        self.bits_total = self.bits_total.wrapping_add(bits);
        Ok(())
    }

    /// Encodes an integer in `[0, ft)`: the high part coded, any low part
    /// beyond `UINT_BITS` bits raw.
    pub fn encode_uint(&mut self, fl: u32, ft: u32) -> (r: Result<(), EncoderError>)
        requires
            old(self).ready(),
            2 <= ft,
            fl < ft,
        ensures
            match uint_encoded(old(self)@, fl, ft) {
                Some(t) => r is Ok && final(self)@ == t,
                None => r is Err,
            },
            r is Ok ==> final(self).wf(),
            r is Err ==> r == Err::<(), EncoderError>(EncoderError::BufferToSmall),
            final(self).wf(),
            final(self).storage == old(self).storage,
            final(self).buffer@.len() == old(self).buffer@.len(),
    {
        let ftm = ft - 1;
        let all_bits = ilog(ftm);
        proof {
            crate::math::lemma_bit_len_bounds(ftm as nat);
        }
        if all_bits > UINT_BITS {
            let ftb = all_bits - UINT_BITS;
            let high = ftm >> ftb;
            let fl1 = fl >> ftb;
            proof {
                crate::range_coder::lemma_shift_is_div(ftm, ftb);
                crate::range_coder::lemma_pow2_add(ftb as nat, 8);
                reveal_with_fuel(crate::math::pow2, 9);
                crate::math::lemma_pow2_positive(ftb as nat);
                let p = crate::math::pow2(ftb as nat) as int;
                assert(high < 256) by (nonlinear_arith)
                    requires
                        high == ftm as int / p,
                        ftm < p * 256,
                        p > 0,
                ;
            }
            assert(fl1 <= high) by (bit_vector)
                requires
                    fl1 == fl >> ftb,
                    high == ftm >> ftb,
                    fl <= ftm,
            ;
            match self.encode(fl1, fl1 + 1, high + 1) {
                Ok(()) => {},
                Err(e) => return Err(e),
            }
            assert(1u32 << ftb >= 1) by (bit_vector)
                requires
                    ftb <= 24,
            ;
            let low = fl & ((1u32 << ftb) - 1);
            assert(low < (1u32 << ftb)) by (bit_vector)
                requires
                    low == fl & (((1u32 << ftb) - 1) as u32),
                    ftb <= 24,
            ;
            self.encode_bits(low, ftb)
        } else {
            proof {
                reveal_with_fuel(crate::math::pow2, 9);
                crate::math::lemma_pow2_monotone(all_bits as nat, 8);
            }
            self.encode(fl, fl + 1, ft)
        }
    }


    /// Overwrites the first `nbits` bits of the stream, which must already
    /// have been coded with probabilities that are powers of two. Where the
    /// first byte is still held in the registers and the patch would
    /// overflow them, the patch is refused.
    pub fn patch_initial_bits(&mut self, val: u32, nbits: u32) -> (r: Result<(), EncoderError>)
        requires
            old(self).wf(),
            1 <= nbits <= 8,
            val < (1u32 << nbits),
        ensures
            final(self).wf(),
            final(self).storage == old(self).storage,
            final(self).buffer@.len() == old(self).buffer@.len(),
            final(self).rng == old(self).rng,
            old(self).offs > 0 ==> r is Ok && final(self).buffer@ == old(self).buffer@.update(
                0,
                ((old(self).buffer@[0] as u32 & !((((1u32 << nbits) - 1) as u32) << ((8
                    - nbits) as u32))) | (val << ((8 - nbits) as u32))) as u8,
            ),
            old(self).offs == 0 && old(self).rem is Some ==> r is Ok && final(self).rem == Some(
                (old(self).rem.unwrap() & !((((1u32 << nbits) - 1) as u32) << ((8
                    - nbits) as u32))) | (val << ((8 - nbits) as u32)),
            ),
            old(self).offs == 0 && old(self).rem is None && old(self).rng > (CODE_TOP >> nbits)
                ==> r is Err,
    {
        let shift = SYM_BITS - nbits;
        assert(1u32 << nbits >= 1) by (bit_vector)
            requires
                nbits <= 8,
        ;
        let mask: u32 = ((1u32 << nbits) - 1) << shift;
        if self.offs > 0 {
            let first = self.buffer[0] as u32;
            let b = #[verifier::truncate]
            (((first & !mask) | val << shift) as u8);
            self.buffer.set(0, b);
        } else if let Some(rem) = self.rem {
            let patched = (rem & !mask) | val << shift;
            assert(patched <= 255) by (bit_vector)
                requires
                    patched == (rem & !mask) | val << shift,
                    rem <= 255,
                    mask == (((1u32 << nbits) - 1) as u32) << shift,
                    val < (1u32 << nbits),
                    shift == 8 - nbits,
                    1 <= nbits <= 8,
            ;
            self.rem = Some(patched);
        } else if self.rng <= (CODE_TOP >> nbits) {
            let patched = (self.val & !(mask << CODE_SHIFT)) | val << (CODE_SHIFT + shift);
            if patched > 0xFFFF_FFFF - self.rng {
                return Err(EncoderError::InternalError("the patch does not fit the range"));
            }
            self.val = patched;
        } else {
            return Err(EncoderError::InternalError("fewer than nbits bits have been encoded"));
        }
        Ok(())
    }

    /// Compacts the stream into the first `len` bytes of the buffer, moving
    /// the raw bits at the end so that they end at `len`.
    pub fn shrink(&mut self, len: usize)
        requires
            old(self).wf(),
            old(self).offs + old(self).end_offs + pending(*old(self)) <= len <= old(self).storage,
        ensures
            final(self).wf(),
            *final(self) == (RangeEncoder { buffer: final(self).buffer, storage: len, ..*old(self) }),
            final(self).buffer@.len() == old(self).buffer@.len(),
            forall|i: int|
                0 <= i < old(self).end_offs ==> #[trigger] final(self).buffer@[len
                    - old(self).end_offs + i] == old(self).buffer@[old(self).storage
                    - old(self).end_offs + i],
            forall|i: int|
                0 <= i < len - old(self).end_offs ==> final(self).buffer@[i]
                    == old(self).buffer@[i],
    {
        let start = self.storage - self.end_offs;
        let dest = len - self.end_offs;
        let mut i: usize = 0;
        while i < self.end_offs
            invariant
                i <= self.end_offs,
                start == old(self).storage - old(self).end_offs,
                dest == len - old(self).end_offs,
                dest <= start,
                start + old(self).end_offs <= self.buffer@.len(),
                *self == (RangeEncoder { buffer: self.buffer, ..*old(self) }),
                self.buffer@.len() == old(self).buffer@.len(),
                forall|j: int|
                    0 <= j < i ==> #[trigger] self.buffer@[dest + j] == old(self).buffer@[start
                        + j],
                forall|k: int|
                    0 <= k < self.buffer@.len() && !(dest <= k < dest + i) ==> self.buffer@[k]
                        == old(self).buffer@[k],
            decreases self.end_offs - i,
        {
            let b = self.buffer[start + i];
            self.buffer.set(dest + i, b);
            i = i + 1;
        }
        self.storage = len;
    }

    /// Ends the stream: writes the fewest bits that decode correctly whatever
    /// follows, flushes the held-back bytes and raw bits, and clears the gap
    /// between them. Where the two meet, the coded data wins over raw bits.
    pub fn done(&mut self) -> (r: Result<(), EncoderError>)
        requires
            old(self).ready(),
        ensures
            final(self).storage == old(self).storage,
            final(self).buffer@.len() == old(self).buffer@.len(),
            final(self).bits_total == old(self).bits_total,
            final(self).rng == old(self).rng,
            match done_spec(old(self)@) {
                Ok(t) => r is Ok && final(self)@ == t,
                Err(EncoderError::BufferToSmall) => r == Err::<(), EncoderError>(
                    EncoderError::BufferToSmall,
                ),
                Err(_) => r matches Err(EncoderError::InternalError(_)),
            },
    {
        let ghost s0 = self@;
        let rng = self.rng;
        let lg = ilog(rng);
        proof {
            crate::math::lemma_bit_len_bounds(rng as nat);
            crate::math::lemma_bit_len_vs_pow2(rng as nat, 23);
            reveal_with_fuel(crate::math::pow2, 24);
            crate::range_coder::lemma_shift_is_div(rng, (lg - 1) as u32);
            crate::math::lemma_pow2_positive((lg - 1) as nat);
            let p = crate::math::pow2((lg - 1) as nat) as int;
            assert((rng as int) / p >= 1) by (nonlinear_arith)
                requires
                    p <= rng,
                    p > 0,
            ;
        }
        let mut l: i32 = (32 - lg) as i32;
        let mut mask: u32 = (CODE_TOP - 1) >> (l as u32);
        let val = self.val;
        assert(mask < rng) by (bit_vector)
            requires
                mask == 0x7FFF_FFFFu32 >> ((32 - lg) as u32),
                rng >> ((lg - 1) as u32) >= 1,
                24 <= lg <= 32,
        ;
        let mut end: u32 = (val + mask) & !mask;
        if (end | mask) >= val + rng {
            l = l + 1;
            let m = mask;
            assert(m >> 1u32 <= m) by (bit_vector);
            mask = mask >> 1;
            end = (val + mask) & !mask;
        }
        assert((l as int, end) == done_end(s0));
        let ghost carried = done_carries(s0, end, l as int);
        while l > 0
            invariant
                -8 < l <= 9,
                self.wf(),
                self.rng == rng,
                rng == old(self).rng,
                self.bits_total == old(self).bits_total,
                self.storage == old(self).storage,
                self.buffer@.len() == old(self).buffer@.len(),
                done_carries(self@, end, l as int) == carried,
                carried == done_carries(s0, done_end(s0).1, done_end(s0).0),
                s0 == old(self)@,
            decreases l + 8,
        {
            let e = end;
            assert(e >> 23u32 <= 511) by (bit_vector);
            let ghost before = self@;
            match self.carry_out(e >> CODE_SHIFT) {
                Ok(()) => {},
                Err(err) => {
                    assert(self.rng == rng);
                    return Err(err);
                },
            }
            end = (e << SYM_BITS) & (CODE_TOP - 1);
            l = l - 8;
            assert(done_carries(before, e, l + 8) == done_carries(self@, end, l as int));
        }
        let ghost t = self@;
        assert(carried == Some((t, l as int)));
        if self.rem.is_some() || self.ext > 0 {
            let ghost e_before = *self;
            self.release(0);
            proof {
                assert(released(e_before, 0) =~= released_bytes(t, 0));
                lemma_written_splice(t.buffer, self.buffer@, t.offs as int, released_bytes(t, 0));
            }
        }
        let ghost t2 = self@;
        assert(t2 == release_all(t));
        let mut window = self.end_window;
        let mut used = self.end_bits;
        while used >= SYM_BITS
            invariant
                used <= 32,
                self.wf(),
                pending(*self) == 0,
                self.rng == rng,
                rng == old(self).rng,
                self.bits_total == old(self).bits_total,
                self.storage == old(self).storage,
                self.buffer@.len() == old(self).buffer@.len(),
                self.offs + self.end_offs + used / 8 == t2.offs + t2.end_offs + t2.end_bits / 8,
                flushed(self@, window, used) == flushed(t2, t2.end_window, t2.end_bits),
                self@ == (EncoderState { buffer: self@.buffer, end_offs: self.end_offs, ..t2 }),
                t2.storage == old(self).storage,
                carried == Some((t, l as int)),
                t2 == release_all(t),
                carried == done_carries(s0, done_end(s0).1, done_end(s0).0),
                s0 == old(self)@,
            decreases used,
        {
            let ghost before = self@;
            let ghost (w0, u0) = (window, used);
            match self.write_byte_at_end(
                #[verifier::truncate]
                ((window & SYM_MAX) as u8),
            ) {
                Ok(()) => {},
                Err(err) => {
                    assert(self.rng == rng);
                    return Err(err);
                },
            }
            window = window >> SYM_BITS;
            used = used - SYM_BITS;
            assert(flushed(before, w0, u0) == flushed(self@, window, used));
        }
        let ghost t3 = self@;
        assert(flushed(t2, t2.end_window, t2.end_bits) == (t3, window, used));
        let gap_end = self.storage - self.end_offs;
        let mut i = self.offs;
        while i < gap_end
            invariant
                gap_end == self.storage - self.end_offs,
                gap_end <= self.storage <= self.buffer@.len(),
                t3.offs <= i <= gap_end,
                self.wf(),
                self.rng == rng,
                rng == old(self).rng,
                self.bits_total == old(self).bits_total,
                self.storage == old(self).storage,
                self.buffer@.len() == old(self).buffer@.len(),
                self@ == (EncoderState { buffer: self@.buffer, ..t3 }),
                self.buffer@.len() == t3.buffer.len(),
                forall|j: int|
                    0 <= j < t3.buffer.len() ==> self.buffer@[j] == if t3.offs <= j < i {
                        0u8
                    } else {
                        t3.buffer[j]
                    },
            decreases gap_end - i,
        {
            self.buffer.set(i, 0);
            i = i + 1;
        }
        let ghost b = cleared(t3.buffer, t3.offs as int, t3.storage - t3.end_offs);
        assert(self.buffer@ =~= b);
        if used > 0 {
            if self.end_offs >= self.storage {
                return Err(EncoderError::InternalError("no range coder data"));
            }
            l = -l;
            if self.offs + self.end_offs >= self.storage && l < used as i32 {
                assert(1u32 << (l as u32) >= 1) by (bit_vector)
                    requires
                        0 <= l < 8,
                ;
                window = window & ((1u32 << (l as u32)) - 1);
            }
            let at = self.storage - self.end_offs - 1;
            let byte = self.buffer[at] | #[verifier::truncate]
            (window as u8);
            self.buffer.set(at, byte);
        }
        Ok(())
    }

    /// Encodes `value` with the two-sided geometric distribution that
    /// `RangeDecoder::decode_laplace(fs, decay)` decodes. A magnitude beyond
    /// the distribution's reach is clamped, and `value` set to what was coded.
    pub fn encode_laplace(&mut self, value: &mut i32, fs: u32, decay: u32) -> (r: Result<
        (),
        EncoderError,
    >)
        requires
            old(self).ready(),
            fs <= 32736,
            decay <= 16384,
            *old(value) > i32::MIN,
        ensures
            match laplace_symbol(*old(value) as int, fs as int, decay as int) {
                None => r matches Err(EncoderError::InternalError(_)),
                Some((fl, w, coded)) => if fl < 0 || w <= 0 || fl + w > 32768 {
                    r matches Err(EncoderError::InternalError(_))
                } else {
                    *final(value) == coded && match encoded(
                        old(self)@,
                        fl as u32,
                        (fl + w) as u32,
                        32768,
                    ) {
                        Some(t) => r is Ok && final(self)@ == t,
                        None => r == Err::<(), EncoderError>(EncoderError::BufferToSmall),
                    }
                },
            },
            r is Ok ==> final(self).ready(),
            r is Err ==> r == Err::<(), EncoderError>(EncoderError::BufferToSmall) || r matches Err(
                EncoderError::InternalError(_),
            ),
            final(self).wf(),
            *old(value) == 0 ==> *final(value) == 0,
    {
        let v = *value;
        let mut fl: i64 = 0;
        let mut w: i64 = fs as i64;
        if v != 0 {
            let negative = v < 0;
            let mag: i64 = if negative {
                -(v as i64)
            } else {
                v as i64
            };
            fl = fs as i64;
            w = get_lapace_freq(fs, decay) as i64;
            let mut i: i64 = 1;
            let ghost walk = laplace_enc_walk(fl as int, w as int, 1, mag as int, decay as int);
            while w > 0 && i < mag
                invariant
                    walk == laplace_enc_walk(fl as int, w as int, i as int, mag as int, decay as int),
                    walk == laplace_enc_walk(
                        fs as int,
                        laplace_freq1(fs, decay) as int,
                        1,
                        mag as int,
                        decay as int,
                    ),
                    *old(value) != 0,
                    mag == (if *old(value) < 0 {
                        -(*old(value) as int)
                    } else {
                        *old(value) as int
                    }),
                    0 <= fl <= 32768,
                    0 <= w <= 16384,
                    1 <= i <= mag,
                    mag <= 0x8000_0000,
                    decay <= 16384,
                    *self == *old(self),
                    self.ready(),
                decreases mag - i,
            {
                if fl + 2 * w + 2 > 32768 {
                    return Err(EncoderError::InternalError("laplace parameters out of range"));
                }
                w = w * 2;
                fl = fl + w + 2;
                assert(w * decay / 32768 <= w / 2) by (nonlinear_arith)
                    requires
                        0 <= w,
                        0 <= decay <= 16384,
                ;
                w = w * (decay as i64) / 32768;
                i = i + 1;
            }
            if w == 0 {
                let ndi_max = (32768 - fl + (if negative {
                    1i64
                } else {
                    0i64
                })) / 2;
                let di = if mag - i < ndi_max - 1 {
                    mag - i
                } else {
                    ndi_max - 1
                };
                fl = fl + 2 * di + 1 - (if negative {
                    1i64
                } else {
                    0i64
                });
                w = if 32768 - fl < 1 {
                    32768 - fl
                } else {
                    1
                };
                let coded = i + di;
                if coded > 0x7FFF_FFFF {
                    return Err(EncoderError::InternalError("laplace value out of range"));
                }
                *value = if negative {
                    -(coded as i32)
                } else {
                    coded as i32
                };
            } else {
                w = w + 1;
                if !negative {
                    fl = fl + w;
                }
            }
        }
        if fl < 0 || w <= 0 || fl + w > 32768 {
            return Err(EncoderError::InternalError("laplace parameters out of range"));
        }
        assert(1u32 << 15u32 == 32768) by (bit_vector);
        self.encode_bin(fl as u32, (fl + w) as u32, 15)
    }

    /// Writes a coded byte at the front.
    fn write_byte(&mut self, value: u8) -> (r: Result<(), EncoderError>)
        requires
            old(self).storage <= old(self).buffer@.len(),
            old(self).offs + old(self).end_offs <= old(self).storage,
        ensures
            old(self).offs + old(self).end_offs < old(self).storage ==> r is Ok && *final(self)
                == (RangeEncoder {
                buffer: final(self).buffer,
                offs: (old(self).offs + 1) as usize,
                ..*old(self)
            }) && final(self).buffer@ == old(self).buffer@.update(old(self).offs as int, value),
            old(self).offs + old(self).end_offs >= old(self).storage ==> r == Err::<
                (),
                EncoderError,
            >(EncoderError::BufferToSmall) && *final(self) == *old(self),
    {
        if self.offs + self.end_offs >= self.storage {
            return Err(EncoderError::BufferToSmall);
        }
        self.buffer.set(self.offs, value);
        self.offs = self.offs + 1;
        Ok(())
    }

    /// Writes a raw-bit byte at the back.
    fn write_byte_at_end(&mut self, value: u8) -> (r: Result<(), EncoderError>)
        requires
            old(self).storage <= old(self).buffer@.len(),
            old(self).offs + old(self).end_offs <= old(self).storage,
        ensures
            old(self).offs + old(self).end_offs < old(self).storage ==> r is Ok && *final(self)
                == (RangeEncoder {
                buffer: final(self).buffer,
                end_offs: (old(self).end_offs + 1) as usize,
                ..*old(self)
            }) && final(self).buffer@ == old(self).buffer@.update(
                old(self).storage - (old(self).end_offs + 1),
                value,
            ),
            old(self).offs + old(self).end_offs >= old(self).storage ==> r == Err::<
                (),
                EncoderError,
            >(EncoderError::BufferToSmall) && *final(self) == *old(self),
    {
        if self.offs + self.end_offs >= self.storage {
            return Err(EncoderError::BufferToSmall);
        }
        self.end_offs = self.end_offs + 1;
        self.buffer.set(self.storage - self.end_offs, value);
        Ok(())
    }
}

} // verus!
