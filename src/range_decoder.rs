//! The range decoder: symbols coded from the front of a byte range, raw bits
//! from its back.
use vstd::prelude::*;
use crate::math::ilog;
use crate::range_coder::{
    get_lapace_freq, laplace_freq1, tell, tell_frac, tell_frac_spec, tell_spec, CODE_BOT, CODE_EXTRA, SYM_BITS,
    SYM_MAX, UINT_BITS,
};

verus! {

/// The range decoder.
///
/// Decodes, from one byte range, the symbols, integers and bits that a range
/// encoder wrote: coded data grows from the front, raw bits from the back.
pub struct RangeDecoder<'d> {
    /// The bytes being decoded.
    pub buffer: &'d [u8],
    /// The usable length of the buffer; trailing bytes may be excluded.
    pub storage: usize,
    /// The number of raw-bit bytes read from the end.
    pub end_offs: usize,
    /// Raw bits read from the end and not yet used.
    pub end_window: u32,
    /// The number of valid bits in `end_window`.
    pub end_bits: u32,
    /// The total number of whole bits read.
    pub bits_total: u32,
    /// The offset of the next coded byte.
    pub offs: usize,
    /// The size of the current range.
    pub rng: u32,
    /// The distance from the top of the range to the coded value, minus one.
    pub val: u32,
    /// The scale saved by `decode` for the following `update`.
    pub ext: u32,
    /// The last coded byte read, part of whose bits are still to be used.
    pub rem: u8,
}

/// The next coded byte and the offset after it: 0 once the usable bytes are
/// used up.
pub open spec fn next_byte(d: RangeDecoder) -> (u8, usize) {
    if d.offs < d.storage {
        (d.buffer@[d.offs as int], (d.offs + 1) as usize)
    } else {
        (0u8, d.offs)
    }
}

/// One step of renormalization: widen the range by a byte and fold in the
/// next coded byte.
pub open spec fn normalize_step(d: RangeDecoder) -> RangeDecoder {
    let (b, offs) = next_byte(d);
    let symbol = (((d.rem as u32) << 8u32) | (b as u32)) >> 1u32;
    RangeDecoder {
        bits_total: d.bits_total.wrapping_add(8),
        rng: (d.rng * 256) as u32,
        rem: b,
        offs,
        val: (((d.val * 256) as u32 + (255u32 & !symbol)) as u32) & 0x7FFF_FFFFu32,
        ..d
    }
}

/// The measure that renormalization decreases.
pub open spec fn normalize_measure(d: RangeDecoder) -> nat {
    if d.rng > CODE_BOT {
        0
    } else {
        (CODE_BOT + 1 - d.rng) as nat
    }
}

/// The decoder after renormalization: widened a byte at a time until the
/// range lies above `CODE_BOT`.
pub open spec fn normalized(d: RangeDecoder) -> RangeDecoder
    decreases normalize_measure(d),
{
    if d.rng == 0 || d.rng > CODE_BOT {
        d
    } else {
        normalized(normalize_step(d))
    }
}


/// The cumulative frequency that `decode` returns once `d.ext` is set for a
/// total of `ft`.
pub open spec fn freq_of(d: RangeDecoder, ft: u32) -> u32 {
    let s = d.val / d.ext;
    if s + 1 < ft {
        (ft - (s + 1)) as u32
    } else {
        0
    }
}

/// The value of `decode_bit_logp(logp)`: whether the coded value falls in
/// the top `1 / 2^logp` of the range.
pub open spec fn bit_logp_value(d: RangeDecoder, logp: u32) -> bool {
    d.val < (d.rng >> logp)
}

/// The decoder after `decode_bit_logp(logp)`.
pub open spec fn after_bit_logp(d: RangeDecoder, logp: u32) -> RangeDecoder {
    let s = d.rng >> logp;
    let r = bit_logp_value(d, logp);
    normalized(
        RangeDecoder {
            val: if r {
                d.val
            } else {
                (d.val - s) as u32
            },
            rng: if r {
                s
            } else {
                (d.rng - s) as u32
            },
            ..d
        },
    )
}

/// The decoder after advancing past the symbol in `[fl, fh)` of `ft`,
/// before renormalization.
pub open spec fn advanced(d: RangeDecoder, fl: u32, fh: u32, ft: u32) -> RangeDecoder {
    let s = d.ext * (ft - fh);
    RangeDecoder {
        val: (d.val - s) as u32,
        rng: if fl > 0 {
            (d.ext * (fh - fl)) as u32
        } else {
            (d.rng - s) as u32
        },
        ..d
    }
}

/// The next raw-bit byte from the end and the count after it: 0 once the
/// usable bytes are used up.
pub open spec fn byte_from_end(d: RangeDecoder) -> (u8, usize) {
    if d.end_offs < d.storage {
        (d.buffer@[d.storage - (d.end_offs + 1)], (d.end_offs + 1) as usize)
    } else {
        (0u8, d.end_offs)
    }
}

/// The measure that filling the raw-bit window decreases.
pub open spec fn fill_measure(d: RangeDecoder) -> nat {
    if d.end_bits > 24 {
        0
    } else {
        (25 - d.end_bits) as nat
    }
}

/// The decoder after filling its raw-bit window a byte at a time until it
/// holds more than 24 bits.
pub open spec fn filled(d: RangeDecoder) -> RangeDecoder
    decreases fill_measure(d),
{
    let (b, e) = byte_from_end(d);
    let d2 = RangeDecoder {
        end_window: d.end_window | ((b as u32) << d.end_bits),
        end_bits: (d.end_bits + 8) as u32,
        end_offs: e,
        ..d
    };
    if d.end_bits > 24 || d2.end_bits > 24 {
        d2
    } else {
        filled(d2)
    }
}

/// The window from which `decode_bits(bits)` takes its bits.
pub open spec fn bits_source(d: RangeDecoder, bits: u32) -> RangeDecoder {
    if d.end_bits < bits {
        filled(d)
    } else {
        d
    }
}

/// The value of `decode_bits(bits)`: the low `bits` bits of the window.
pub open spec fn bits_value(d: RangeDecoder, bits: u32) -> u32 {
    bits_source(d, bits).end_window & (((1u32 << bits) - 1) as u32)
}

/// The decoder after `decode_bits(bits)`.
pub open spec fn after_bits(d: RangeDecoder, bits: u32) -> RangeDecoder {
    let w = bits_source(d, bits);
    RangeDecoder {
        end_window: w.end_window >> bits,
        end_bits: (w.end_bits - bits) as u32,
        bits_total: d.bits_total.wrapping_add(bits),
        ..w
    }
}

/// The index that `decode_icdf` settles on: the first entry, from `i` on,
/// whose scaled value is at most `d`.
pub open spec fn icdf_find(icdf: Seq<u8>, r: int, d: int, i: int) -> int
    decreases icdf.len() - i,
{
    if i >= icdf.len() - 1 || d >= r * icdf[i] {
        i
    } else {
        icdf_find(icdf, r, d, i + 1)
    }
}

/// The number of raw low bits of an integer below `ft`: what `ft - 1` has
/// beyond `UINT_BITS` bits.
pub open spec fn uint_raw_bits(ft: u32) -> u32 {
    let b = crate::math::bit_len((ft - 1) as nat);
    if b > 8 {
        (b - 8) as u32
    } else {
        0
    }
}

/// The coded total of the high part of an integer below `ft`.
pub open spec fn uint_high_total(ft: u32) -> u32 {
    let b = uint_raw_bits(ft);
    if b > 0 {
        ((((ft - 1) as u32) >> b) + 1) as u32
    } else {
        ft
    }
}

/// The decoder after the coded high part of an integer below `ft`.
pub open spec fn uint_after_high(d: RangeDecoder, ft: u32) -> RangeDecoder {
    let ft1 = uint_high_total(ft);
    let d1 = RangeDecoder { ext: d.rng / ft1, ..d };
    let s = freq_of(d1, ft1);
    normalized(advanced(d1, s, (s + 1) as u32, ft1))
}

/// The value of `decode_uint(ft)`: the coded high part, then the raw low
/// bits; a value past `ft - 1` (a corrupt stream) saturates to `ft - 1`.
pub open spec fn uint_value(d: RangeDecoder, ft: u32) -> u32 {
    let ft1 = uint_high_total(ft);
    let s = freq_of(RangeDecoder { ext: d.rng / ft1, ..d }, ft1);
    let b = uint_raw_bits(ft);
    if b > 0 {
        let t = (s << b) | bits_value(uint_after_high(d, ft), b);
        if t <= ft - 1 {
            t
        } else {
            (ft - 1) as u32
        }
    } else {
        s
    }
}

/// The decoder after `decode_uint(ft)`.
pub open spec fn after_uint(d: RangeDecoder, ft: u32) -> RangeDecoder {
    let b = uint_raw_bits(ft);
    if b > 0 {
        after_bits(uint_after_high(d, ft), b)
    } else {
        uint_after_high(d, ft)
    }
}

/// The walk of `decode_laplace` outward through buckets of decaying width:
/// gives the low bound, width and magnitude where `fm` stops it.
pub open spec fn laplace_walk(fm: int, fl: int, fs: int, val: int, decay: int) -> (int, int, int)
    decreases fm - fl,
{
    if fs > 1 && fm >= fl + 2 * fs {
        let fs2 = fs * 2;
        laplace_walk(fm, fl + fs2, (fs2 - 2) * decay / 32768 + 1, val + 1, decay)
    } else {
        (fl, fs, val)
    }
}

/// What `decode_laplace(fs, decay)` finds for the 15-bit value `fm`: the
/// signed value, and the low bound and width of its bucket.
pub open spec fn laplace_result(fm: int, fs: int, decay: int) -> (int, int, int) {
    if fm < fs {
        (0, 0, fs)
    } else {
        let (fl, w, val) = laplace_walk(
            fm,
            fs,
            laplace_freq1(fs as u32, decay as u32) + 1,
            1,
            decay,
        );
        let di = if w <= 1 {
            (fm - fl) / 2
        } else {
            0
        };
        let fl2 = fl + 2 * di;
        let v = val + di;
        if fm < fl2 + w {
            (-v, fl2, w)
        } else {
            (v, fl2 + w, w)
        }
    }
}

/// Advancing past a symbol whose frequency covers the decoded value keeps
/// the value inside a nonempty range.
pub proof fn lemma_advance(rng: int, val: int, ext: int, ft: int, fl: int, fh: int)
    requires
        1 <= ft,
        ext == rng / ft,
        ext >= 1,
        0 <= val < rng,
        fl < fh <= ft,
        0 <= fl,
        fl <= (if val / ext + 1 < ft {
            ft - (val / ext + 1)
        } else {
            0
        }) < fh,
    ensures
        0 <= ext * (ft - fh) <= val,
        fl > 0 ==> 0 <= val - ext * (ft - fh) < ext * (fh - fl) <= rng,
        fl == 0 ==> 0 <= val - ext * (ft - fh) < rng - ext * (ft - fh),
        ext * ft <= rng,
{
    let q = val / ext;
    assert(ext * q <= val < ext * (q + 1)) by (nonlinear_arith)
        requires
            q == val / ext,
            ext >= 1,
            val >= 0,
    ;
    assert(ext * ft <= rng) by (nonlinear_arith)
        requires
            ext == rng / ft,
            ft >= 1,
            rng >= 0,
    ;
    if q + 1 < ft {
        assert(ft - fh <= q);
        assert(q + 1 <= ft - fl);
        assert(ext * (ft - fh) <= ext * q) by (nonlinear_arith)
            requires
                ft - fh <= q,
                ext >= 1,
        ;
        assert(ext * (q + 1) <= ext * (ft - fl)) by (nonlinear_arith)
            requires
                q + 1 <= ft - fl,
                ext >= 1,
        ;
        assert(ext * (ft - fl) - ext * (ft - fh) == ext * (fh - fl)) by (nonlinear_arith);
        assert(ext * (fh - fl) <= ext * ft) by (nonlinear_arith)
            requires
                fh - fl <= ft,
                ext >= 1,
        ;
    } else {
        assert(ext * (ft - fh) <= ext * q) by (nonlinear_arith)
            requires
                ft - fh <= q,
                ext >= 1,
        ;
    }
    assert(0 <= ext * (ft - fh)) by (nonlinear_arith)
        requires
            ext >= 1,
            fh <= ft,
    ;
}

impl<'d> RangeDecoder<'d> {
    /// The decoder's invariant: the range lies above `CODE_BOT`, the coded
    /// value inside the range, and the usable length inside the buffer.
    pub open spec fn wf(&self) -> bool {
        &&& CODE_BOT < self.rng <= 0x8000_0000
        &&& self.val < self.rng
        &&& self.storage <= self.buffer@.len()
        &&& self.end_bits <= 32
    }

    /// Creates a decoder over `buffer`: reads the first coded byte and
    /// renormalizes.
    pub fn new(buffer: &'d [u8]) -> (r: Self)
        ensures
            r.wf(),
            r == normalized(
                RangeDecoder {
                    buffer,
                    storage: buffer@.len() as usize,
                    end_offs: 0,
                    end_window: 0,
                    end_bits: 0,
                    bits_total: 9,
                    offs: if buffer@.len() > 0 {
                        1
                    } else {
                        0
                    },
                    rng: 128,
                    val: (127 - (if buffer@.len() > 0 {
                        buffer@[0]
                    } else {
                        0u8
                    }) / 2) as u32,
                    ext: 0,
                    rem: if buffer@.len() > 0 {
                        buffer@[0]
                    } else {
                        0u8
                    },
                },
            ),
    {
        let mut dec = RangeDecoder {
            buffer,
            storage: buffer.len(),
            end_offs: 0,
            end_window: 0,
            end_bits: 0,
            bits_total: 9,
            offs: 0,
            rng: 128,
            val: 0,
            ext: 0,
            rem: 0,
        };
        dec.rem = dec.read_byte();
        let first = dec.rem as u32;
        assert(first >> 1u32 == first / 2) by (bit_vector);
        dec.val = 127 - ((dec.rem as u32) >> (SYM_BITS - CODE_EXTRA));
        dec.normalize();
        dec
    }

    /// Reads the next coded byte from the front, or 0 past the usable length.
    fn read_byte(&mut self) -> (r: u8)
        requires
            old(self).storage <= old(self).buffer@.len(),
        ensures
            (r, final(self).offs) == next_byte(*old(self)),
            *final(self) == (RangeDecoder { offs: final(self).offs, ..*old(self) }),
    {
        if self.offs < self.storage {
            let b = self.buffer[self.offs];
            self.offs = self.offs + 1;
            b
        } else {
            0
        }
    }

    /// Renormalizes: widens the range a byte at a time until it lies above
    /// `CODE_BOT`, reading coded bytes as it goes.
    fn normalize(&mut self)
        requires
            0 < old(self).rng <= 0x8000_0000,
            old(self).val < old(self).rng,
            old(self).storage <= old(self).buffer@.len(),
            old(self).end_bits <= 32,
        ensures
            final(self).storage == old(self).storage,
            final(self).buffer == old(self).buffer,
            *final(self) == normalized(*old(self)),
            final(self).wf(),
    {
        while self.rng <= CODE_BOT
            invariant
                0 < self.rng <= 0x8000_0000,
                self.val < self.rng,
                self.storage <= self.buffer@.len(),
                self.end_bits <= 32,
                normalized(*self) == normalized(*old(self)),
                self.storage == old(self).storage,
                self.buffer == old(self).buffer,
            decreases normalize_measure(*self),
        {
            let ghost before = *self;
            self.bits_total = self.bits_total.wrapping_add(SYM_BITS);
            self.rng = self.rng * 256;
            let mut symbol = self.rem as u32;
            self.rem = self.read_byte();
            symbol = (symbol << SYM_BITS | self.rem as u32) >> (SYM_BITS - CODE_EXTRA);
            let v = self.val * 256;
            proof {
                let s = symbol;
                assert(255u32 & !s <= 255) by (bit_vector);
                let w = (v + (255u32 & !s)) as u32;
                assert(w & 0x7FFF_FFFFu32 <= w) by (bit_vector);
            }
            self.val = (v + (SYM_MAX & !symbol)) & 0x7FFF_FFFF;
            assert(*self == normalize_step(before));
        }
    }


    /// Returns the cumulative frequency under which the next symbol falls,
    /// for an alphabet of total frequency `ft`; `update` must follow.
    pub fn decode(&mut self, ft: u32) -> (r: u32)
        requires
            old(self).wf(),
            1 <= ft <= CODE_BOT,
        ensures
            final(self).storage == old(self).storage,
            final(self).buffer == old(self).buffer,
            *final(self) == (RangeDecoder { ext: old(self).rng / ft, ..*old(self) }),
            r == freq_of(*final(self), ft),
            r < ft,
            final(self).wf(),
            final(self).ext >= 1,
    {
        assert(self.rng / ft >= 1) by (nonlinear_arith)
            requires
                ft <= self.rng,
                ft >= 1,
        ;
        self.ext = self.rng / ft;
        let s = self.val / self.ext;
        if s + 1 < ft {
            ft - (s + 1)
        } else {
            0
        }
    }

    /// `decode` for a total of `2^bits`.
    pub fn decode_bin(&mut self, bits: u32) -> (r: u32)
        requires
            old(self).wf(),
            bits <= 23,
        ensures
            final(self).storage == old(self).storage,
            final(self).buffer == old(self).buffer,
            *final(self) == (RangeDecoder { ext: old(self).rng / (1u32 << bits), ..*old(self) }),
            r == freq_of(*final(self), 1u32 << bits),
            r < (1u32 << bits),
            1 <= (1u32 << bits) <= CODE_BOT,
            final(self).wf(),
    {
        proof {
            crate::range_coder::lemma_pow2_u32(bits);
            crate::math::lemma_pow2_monotone(bits as nat, 23);
            crate::math::lemma_pow2_positive(bits as nat);
            reveal_with_fuel(crate::math::pow2, 24);
        }
        let ft: u32 = 1 << bits;
        self.decode(ft)
    }

    /// Advances past the symbol that occupies `[fl, fh)` of `ft`, as the
    /// preceding `decode(ft)` found it, and renormalizes.
    pub fn update(&mut self, fl: u32, fh: u32, ft: u32)
        requires
            old(self).wf(),
            1 <= ft <= CODE_BOT,
            old(self).ext == old(self).rng / ft,
            fl < fh <= ft,
            fl <= freq_of(*old(self), ft) < fh,
        ensures
            final(self).storage == old(self).storage,
            final(self).buffer == old(self).buffer,
            *final(self) == normalized(advanced(*old(self), fl, fh, ft)),
            final(self).wf(),
    {
        proof {
            assert(self.ext >= 1) by (nonlinear_arith)
                requires
                    self.ext == self.rng / ft,
                    ft <= self.rng,
                    ft >= 1,
            ;
            lemma_advance(
                self.rng as int,
                self.val as int,
                self.ext as int,
                ft as int,
                fl as int,
                fh as int,
            );
        }
        let s = self.ext * (ft - fh);
        self.val = self.val - s;
        self.rng = if fl > 0 {
            self.ext * (fh - fl)
        } else {
            self.rng - s
        };
        self.normalize();
    }

    /// Decodes a bit that is one with probability `1 / 2^logp`.
    pub fn decode_bit_logp(&mut self, logp: u32) -> (r: bool)
        requires
            old(self).wf(),
            logp < 32,
        ensures
            final(self).storage == old(self).storage,
            final(self).buffer == old(self).buffer,
            r == bit_logp_value(*old(self), logp),
            *final(self) == after_bit_logp(*old(self), logp),
            final(self).wf(),
    {
        let r = self.rng;
        let d = self.val;
        let s = r >> logp;
        assert(s <= r) by (bit_vector)
            requires
                s == r >> logp,
        ;
        let ret = d < s;
        if !ret {
            self.val = d - s;
        }
        self.rng = if ret {
            s
        } else {
            r - s
        };
        self.normalize();
        ret
    }

    /// Decodes a symbol with an "inverse" cumulative table: symbol `s` covers
    /// `[ft - icdf[s - 1], ft - icdf[s])` of `ft = 2^ftb`. The table does not
    /// increase and ends in 0.
    pub fn decode_icdf(&mut self, icdf: &[u8], ftb: u32) -> (r: usize)
        requires
            old(self).wf(),
            ftb < 32,
            icdf@.len() >= 1,
            icdf@.last() == 0,
            forall|i: int| 0 <= i < icdf@.len() ==> icdf@[i] as u32 <= (1u32 << ftb),
        ensures
            final(self).storage == old(self).storage,
            final(self).buffer == old(self).buffer,
            ({
                let d = *old(self);
                let q = d.rng >> ftb;
                let k = icdf_find(icdf@, q as int, d.val as int, 0);
                let top = if k == 0 {
                    d.rng as int
                } else {
                    q * icdf@[k - 1]
                };
                &&& r == k
                &&& *final(self) == normalized(
                    RangeDecoder {
                        val: (d.val - q * icdf@[k]) as u32,
                        rng: (top - q * icdf@[k]) as u32,
                        ..d
                    },
                )
            }),
            r < icdf@.len(),
            final(self).wf(),
    {
        let d = self.val;
        let q = self.rng >> ftb;
        proof {
            crate::range_coder::lemma_shift_is_div(self.rng, ftb);
            crate::range_coder::lemma_pow2_u32(ftb);
            let p = crate::math::pow2(ftb as nat) as int;
            crate::math::lemma_pow2_positive(ftb as nat);
            assert forall|i: int| 0 <= i < icdf@.len() implies q * icdf@[i] <= self.rng by {
                let k = icdf@[i] as int;
                assert(q * k <= self.rng) by (nonlinear_arith)
                    requires
                        q == self.rng as int / p,
                        k <= p,
                        p > 0,
                        self.rng >= 0,
                ;
            }
        }
        let ghost start = icdf_find(icdf@, q as int, d as int, 0);
        let mut ret: usize = 0;
        let mut t = self.rng;
        let mut s = q * icdf[0] as u32;
        let n = icdf.len();
        while d < s
            invariant
                n == icdf@.len(),
                ret < icdf@.len(),
                s == q * icdf@[ret as int],
                d < t,
                t == (if ret == 0 {
                    self.rng as int
                } else {
                    q * icdf@[ret - 1]
                }),
                start == icdf_find(icdf@, q as int, d as int, ret as int),
                forall|i: int| 0 <= i < icdf@.len() ==> q * icdf@[i] <= self.rng,
                icdf@.last() == 0,
            decreases icdf@.len() - ret,
        {
            assert(icdf@[ret as int] != 0);
            assert(ret + 1 < icdf@.len());
            ret = ret + 1;
            t = s;
            s = q * icdf[ret] as u32;
        }
        self.val = d - s;
        self.rng = t - s;
        self.normalize();
        ret
    }


    /// Decodes an integer in `[0, ft)`: values of more than `UINT_BITS` bits
    /// have their high part coded and their low part raw. A corrupt stream
    /// that gives a value past `ft - 1` gives `ft - 1`.
    pub fn decode_uint(&mut self, ft: u32) -> (r: u32)
        requires
            old(self).wf(),
            ft >= 2,
        ensures
            final(self).storage == old(self).storage,
            final(self).buffer == old(self).buffer,
            r == uint_value(*old(self), ft),
            *final(self) == after_uint(*old(self), ft),
            r < ft,
            final(self).wf(),
    {
        let ftm = ft - 1;
        let all_bits = ilog(ftm);
        proof {
            crate::math::lemma_bit_len_bounds(ftm as nat);
        }
        if all_bits > UINT_BITS {
            let ftb = all_bits - UINT_BITS;
            let high = ftm >> ftb;
            proof {
                crate::range_coder::lemma_shift_is_div(ftm, ftb);
                crate::range_coder::lemma_pow2_add(ftb as nat, 8);
                reveal_with_fuel(crate::math::pow2, 9);
                crate::math::lemma_pow2_positive(ftb as nat);
                let p = crate::math::pow2(ftb as nat) as int;
                assert(high < 256) by (nonlinear_arith)
                    requires
                        high == ftm as int / p,
                        ftm < p * 256,
                        p > 0,
                ;
            }
            let ft1 = high + 1;
            let s = self.decode(ft1);
            self.update(s, s + 1, ft1);
            assert(s << ftb <= 0xFFFF_FFFF) by (bit_vector);
            let low = self.decode_bits(ftb);
            let t = s << ftb | low;
            if t <= ftm {
                t
            } else {
                ftm
            }
        } else {
            proof {
                reveal_with_fuel(crate::math::pow2, 9);
                crate::math::lemma_pow2_monotone(all_bits as nat, 8);
            }
            let s = self.decode(ft);
            self.update(s, s + 1, ft);
            s
        }
    }

    /// Decodes a value of a two-sided geometric distribution whose zero has
    /// frequency `fs` of 32768 and whose buckets decay by `decay` of 16384
    /// per step away from zero.
    pub fn decode_laplace(&mut self, fs: u32, decay: u32) -> (r: i32)
        requires
            old(self).wf(),
            fs <= 32736,
            decay <= 16384,
        ensures
            final(self).storage == old(self).storage,
            final(self).buffer == old(self).buffer,
            ({
                let d1 = RangeDecoder { ext: old(self).rng / 32768, ..*old(self) };
                let fm = freq_of(d1, 32768) as int;
                let (v, fl, w) = laplace_result(fm, fs as int, decay as int);
                let fh = if fl + w < 32768 {
                    fl + w
                } else {
                    32768
                };
                &&& r == v
                &&& 0 <= fl < 32768
                &&& w > 0
                &&& fl <= fm < fh
                &&& *final(self) == normalized(advanced(d1, fl as u32, fh as u32, 32768))
            }),
            final(self).wf(),
    {
        proof {
            crate::range_coder::lemma_pow2_u32(15);
            reveal_with_fuel(crate::math::pow2, 16);
        }
        let fm = self.decode_bin(15);
        let ghost d1 = *self;
        let mut val: i32 = 0;
        let mut fl: u32 = 0;
        let mut w: u32 = fs;
        if fm >= fs {
            val = 1;
            fl = fs;
            w = get_lapace_freq(fs, decay) + 1;
            let ghost first = laplace_walk(fm as int, fl as int, w as int, 1, decay as int);
            while w > 1 && fm >= fl + 2 * w
                invariant
                    1 <= w <= 16384,
                    fl <= fm < 32768,
                    decay <= 16384,
                    1 <= val <= fl + 1,
                    first == laplace_walk(fm as int, fl as int, w as int, val as int, decay as int),
                decreases fm - fl,
            {
                w = w * 2;
                fl = fl + w;
                assert((w - 2) * decay <= 32768 * 16384) by (nonlinear_arith)
                    requires
                        2 <= w <= 32768,
                        decay <= 16384,
                ;
                let p = (w - 2) * decay;
                assert(p >> 15 == p / 32768) by (bit_vector);
                assert(p / 32768 < w / 2) by (nonlinear_arith)
                    requires
                        p == (w - 2) * decay,
                        decay <= 16384,
                        w >= 4,
                ;
                w = (p >> 15) + 1;
                val = val + 1;
            }
            if w <= 1 {
                let gap = fm - fl;
                let di = gap >> 1;
                assert(di == gap / 2) by (bit_vector)
                    requires
                        di == gap >> 1,
                ;
                val = val + di as i32;
                fl = fl + 2 * di;
            }
            if fm < fl + w {
                val = -val;
            } else {
                fl = fl + w;
            }
        }
        let fh = if fl + w < 32768 {
            fl + w
        } else {
            32768
        };
        self.update(fl, fh, 32768);
        val
    }

    /// Reads the next raw-bit byte from the end of the usable bytes, or 0
    /// once they are used up.
    fn read_byte_from_end(&mut self) -> (r: u8)
        requires
            old(self).storage <= old(self).buffer@.len(),
        ensures
            (r, final(self).end_offs) == byte_from_end(*old(self)),
            *final(self) == (RangeDecoder { end_offs: final(self).end_offs, ..*old(self) }),
    {
        if self.end_offs < self.storage {
            self.end_offs = self.end_offs + 1;
            self.buffer[self.storage - self.end_offs]
        } else {
            0
        }
    }

    /// Extracts `bits` raw bits, packed least-significant first, from the end
    /// of the byte range.
    pub fn decode_bits(&mut self, bits: u32) -> (r: u32)
        requires
            old(self).wf(),
            bits <= 25,
        ensures
            final(self).storage == old(self).storage,
            final(self).buffer == old(self).buffer,
            r == bits_value(*old(self), bits),
            *final(self) == after_bits(*old(self), bits),
            final(self).wf(),
            r < (1u32 << bits),
    {
        let ghost d0 = *self;
        if self.end_bits < bits {
            loop
                invariant_except_break
                    self.end_bits < 25,
                    filled(*self) == filled(d0),
                invariant
                    self.storage <= self.buffer@.len(),
                    self.rng == d0.rng,
                    self.val == d0.val,
                    self.bits_total == d0.bits_total,
                    *self == (RangeDecoder {
                        end_window: self.end_window,
                        end_bits: self.end_bits,
                        end_offs: self.end_offs,
                        ..d0
                    }),
                ensures
                    *self == filled(d0),
                    24 < self.end_bits <= 32,
                decreases fill_measure(*self),
            {
                let ghost before = *self;
                let b = self.read_byte_from_end();
                self.end_window = self.end_window | ((b as u32) << self.end_bits);
                self.end_bits = self.end_bits + SYM_BITS;
                assert(filled(before) == if self.end_bits > 24 {
                    *self
                } else {
                    filled(*self)
                });
                if self.end_bits > 24 {
                    break;
                }
            }
        }
        assert(*self == bits_source(d0, bits));
        let window = self.end_window;
        assert(1u32 << bits >= 1) by (bit_vector)
            requires
                bits <= 25,
        ;
        let mask: u32 = ((1u32 << bits) - 1) as u32;
        let ret = window & mask;
        assert(ret < (1u32 << bits)) by (bit_vector)
            requires
                ret == window & mask,
                mask == ((1u32 << bits) - 1) as u32,
                bits <= 25,
        ;
        self.end_window = window >> bits;
        self.end_bits = self.end_bits - bits;
        self.bits_total = self.bits_total.wrapping_add(bits);
        ret
    }

    /// Excludes the last `n` bytes from decoding, as when they belong to
    /// another frame.
    pub fn shrink_storage(&mut self, n: usize)
        requires
            old(self).wf(),
            n <= old(self).storage,
        ensures
            *final(self) == (RangeDecoder {
                storage: (old(self).storage - n) as usize,
                ..*old(self)
            }),
            final(self).wf(),
    {
        self.storage = self.storage - n;
    }

    /// Returns the number of whole bits read so far.
    pub fn tell(&self) -> (r: u32)
        ensures
            r == tell_spec(self.bits_total, self.rng),
    {
        tell(self.bits_total, self.rng)
    }

    /// Returns the bits read so far in eighths of a bit.
    pub fn tell_frac(&self) -> (r: u32)
        requires
            self.wf(),
        ensures
            r == tell_frac_spec(self.bits_total, self.rng),
    {
        tell_frac(self.bits_total, self.rng)
    }

    /// The total number of whole bits read.
    pub fn bits_total(&self) -> (r: u32)
        ensures
            r == self.bits_total,
    {
        self.bits_total
    }

    /// The size of the current range: what the encoder ends with, as a check.
    pub fn range(&self) -> (r: u32)
        ensures
            r == self.rng,
    {
        self.rng
    }
}

} // verus!
