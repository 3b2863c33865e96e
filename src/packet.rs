//! The packet framing parser: what the TOC byte says, and where each frame lies.
use vstd::prelude::*;
use crate::error::DecoderError;

verus! {

/// Audio channels.
#[derive(Clone, Copy, Debug, PartialEq, Eq, Structural)]
pub enum Channels {
    /// One channel.
    Mono,
    /// Two interleaved channels.
    Stereo,
}

impl Channels {
    /// The number of channels.
    pub open spec fn spec_count(self) -> nat {
        match self {
            Channels::Mono => 1,
            Channels::Stereo => 2,
        }
    }

    /// The number of channels.
    pub fn count(&self) -> (r: usize)
        ensures
            r == self.spec_count(),
    {
        match self {
            Channels::Mono => 1,
            Channels::Stereo => 2,
        }
    }
}

/// Samples per second.
#[derive(Clone, Copy, Debug, PartialEq, Eq, Structural)]
pub enum SamplingRate {
    /// 8 kHz.
    Hz8000,
    /// 12 kHz.
    Hz12000,
    /// 16 kHz.
    Hz16000,
    /// 24 kHz.
    Hz24000,
    /// 48 kHz.
    Hz48000,
}

impl SamplingRate {
    /// The rate in Hz.
    pub open spec fn spec_hz(self) -> nat {
        match self {
            SamplingRate::Hz8000 => 8000,
            SamplingRate::Hz12000 => 12000,
            SamplingRate::Hz16000 => 16000,
            SamplingRate::Hz24000 => 24000,
            SamplingRate::Hz48000 => 48000,
        }
    }

    /// The rate in Hz.
    pub fn hz(&self) -> (r: usize)
        ensures
            r == self.spec_hz(),
    {
        match self {
            SamplingRate::Hz8000 => 8000,
            SamplingRate::Hz12000 => 12000,
            SamplingRate::Hz16000 => 16000,
            SamplingRate::Hz24000 => 24000,
            SamplingRate::Hz48000 => 48000,
        }
    }
}

/// Audio bandwidth.
#[derive(Clone, Copy, Debug, PartialEq, Eq, Structural)]
pub enum Bandwidth {
    /// Automatic selection.
    Auto,
    /// 4 kHz passband.
    Narrowband,
    /// 6 kHz passband.
    Mediumband,
    /// 8 kHz passband.
    Wideband,
    /// 12 kHz passband.
    Superwideband,
    /// 20 kHz passband.
    Fullband,
}

/// Codec mode.
#[derive(Clone, Copy, Debug, PartialEq, Eq, Structural)]
pub enum CodecMode {
    /// The linear-prediction sub-codec alone.
    Silk,
    /// Low band by the linear-prediction sub-codec, high band by the transform one.
    Hybrid,
    /// The transform sub-codec alone.
    Celt,
}

/// The bandwidth that the 5-bit configuration `config` of a TOC byte selects.
pub open spec fn config_bandwidth(config: u8) -> Bandwidth {
    if config < 16 {
        if config < 4 {
            Bandwidth::Narrowband
        } else if config < 8 {
            Bandwidth::Mediumband
        } else if config < 12 {
            Bandwidth::Wideband
        } else if config < 14 {
            Bandwidth::Superwideband
        } else {
            Bandwidth::Fullband
        }
    } else {
        if config < 20 {
            Bandwidth::Narrowband
        } else if config < 24 {
            Bandwidth::Wideband
        } else if config < 28 {
            Bandwidth::Superwideband
        } else {
            Bandwidth::Fullband
        }
    }
}

/// The bandwidth that the configuration `config` (below 32) selects.
pub fn bandwidth_of_config(config: u8) -> (r: Bandwidth)
    requires
        config < 32,
    ensures
        r == config_bandwidth(config),
{
    if config < 16 {
        if config < 4 {
            Bandwidth::Narrowband
        } else if config < 8 {
            Bandwidth::Mediumband
        } else if config < 12 {
            Bandwidth::Wideband
        } else if config < 14 {
            Bandwidth::Superwideband
        } else {
            Bandwidth::Fullband
        }
    } else {
        if config < 20 {
            Bandwidth::Narrowband
        } else if config < 24 {
            Bandwidth::Wideband
        } else if config < 28 {
            Bandwidth::Superwideband
        } else {
            Bandwidth::Fullband
        }
    }
}

/// The bandwidth of a packet whose TOC byte is `toc`.
pub open spec fn toc_bandwidth(toc: u8) -> Bandwidth {
    config_bandwidth(toc >> 3u8)
}

/// The channel count of a packet whose TOC byte is `toc`.
pub open spec fn toc_channels(toc: u8) -> Channels {
    if toc & 0x4 != 0 {
        Channels::Stereo
    } else {
        Channels::Mono
    }
}

/// The codec mode of a packet whose TOC byte is `toc`.
pub open spec fn toc_mode(toc: u8) -> CodecMode {
    if toc & 0x80 == 0x80 {
        CodecMode::Celt
    } else if toc & 0x60 == 0x60 {
        CodecMode::Hybrid
    } else {
        CodecMode::Silk
    }
}

/// `2^a` for a 2-bit `a`.
pub open spec fn shift_factor(a: u8) -> nat {
    if a == 0 {
        1
    } else if a == 1 {
        2
    } else if a == 2 {
        4
    } else {
        8
    }
}

/// The samples per frame, at `rate` Hz, of a packet whose TOC byte is `toc`.
///
/// Transform-only configurations last 2.5, 5, 10 or 20 ms; hybrid ones 10 or
/// 20 ms; the others 10, 20, 40 or 60 ms.
pub open spec fn toc_samples_per_frame(toc: u8, rate: nat) -> nat {
    let a = (toc >> 3u8) & 0x3;
    if toc & 0x80 != 0 {
        rate * shift_factor(a) / 400
    } else if toc & 0x60 == 0x60 {
        if toc & 0x08 != 0 {
            rate / 50
        } else {
            rate / 100
        }
    } else if a == 3 {
        rate * 60 / 1000
    } else {
        rate * shift_factor(a) / 100
    }
}

/// The frame count that the TOC byte, and for code 3 the second byte, declare;
/// `None` where code 3 lacks its second byte.
pub open spec fn packet_frame_count(packet: Seq<u8>) -> Option<nat> {
    let code = packet[0] & 0x3;
    if code == 0 {
        Some(1)
    } else if code != 3 {
        Some(2)
    } else if packet.len() < 2 {
        None
    } else {
        Some((packet[1] & 0x3F) as nat)
    }
}

/// Bounds of the masked fields of a header byte.
pub proof fn lemma_low_bits(b: u8)
    by (bit_vector)
    ensures
        b & 0x3F <= 63,
        b & 0x3 <= 3,
        b >> 3u8 < 32,
        (b >> 3u8) & 0x3 < 4,
        b & 0x80 == 0 || b & 0x80 == 0x80,
        b & 0x40 == 0 || b & 0x40 == 0x40,
{
}

/// Returns the bandwidth of a packet.
pub fn query_packet_bandwidth(packet: &[u8]) -> (r: Bandwidth)
    requires
        packet@.len() >= 1,
    ensures
        r == toc_bandwidth(packet@[0]),
{
    let toc = packet[0];
    assert(toc >> 3u8 < 32) by (bit_vector);
    bandwidth_of_config(toc >> 3)
}

/// Returns the number of channels of a packet.
pub fn query_packet_channel_count(packet: &[u8]) -> (r: Channels)
    requires
        packet@.len() >= 1,
    ensures
        r == toc_channels(packet@[0]),
{
    if packet[0] & 0x4 != 0 {
        Channels::Stereo
    } else {
        Channels::Mono
    }
}

/// Returns the number of frames in a packet.
pub fn query_packet_frame_count(packet: &[u8]) -> (r: Result<usize, DecoderError>)
    requires
        packet@.len() >= 1,
    ensures
        match packet_frame_count(packet@) {
            Some(n) => r == Ok::<usize, DecoderError>(n as usize),
            None => r == Err::<usize, DecoderError>(DecoderError::InvalidPacket),
        },
{
    let count = packet[0] & 0x3;
    if count == 0 {
        Ok(1)
    } else if count != 3 {
        Ok(2)
    } else if packet.len() < 2 {
        Err(DecoderError::InvalidPacket)
    } else {
        Ok((packet[1] & 0x3F) as usize)
    }
}

/// Returns the number of samples per frame of a packet at the given rate.
pub fn query_packet_samples_per_frame(packet: &[u8], sampling_rate: SamplingRate) -> (r: usize)
    requires
        packet@.len() >= 1,
    ensures
        r == toc_samples_per_frame(packet@[0], sampling_rate.spec_hz()),
        r <= sampling_rate.spec_hz() / 50 * 3,
        r > 0,
{
    let toc = packet[0];
    let rate = sampling_rate.hz();
    let a = (toc >> 3) & 0x3;
    assert(a < 4) by (bit_vector)
        requires
            a == (toc >> 3u8) & 0x3,
    ;
    let factor: usize = if a == 0 {
        1
    } else if a == 1 {
        2
    } else if a == 2 {
        4
    } else {
        8
    };
    if toc & 0x80 != 0 {
        rate * factor / 400
    } else if (toc & 0x60) == 0x60 {
        if toc & 0x08 != 0 {
            rate / 50
        } else {
            rate / 100
        }
    } else if a == 3 {
        rate * 60 / 1000
    } else {
        rate * factor / 100
    }
}

/// Returns the number of samples of a packet at the given rate.
///
/// A packet of more than 120 ms is invalid.
pub fn query_packet_sample_count(packet: &[u8], sampling_rate: SamplingRate) -> (r: Result<
    usize,
    DecoderError,
>)
    requires
        packet@.len() >= 1,
    ensures
        match packet_frame_count(packet@) {
            Some(n) => {
                let samples = n * toc_samples_per_frame(packet@[0], sampling_rate.spec_hz());
                if samples * 25 > sampling_rate.spec_hz() * 3 {
                    r == Err::<usize, DecoderError>(DecoderError::InvalidPacket)
                } else {
                    r == Ok::<usize, DecoderError>(samples as usize)
                }
            },
            None => r == Err::<usize, DecoderError>(DecoderError::InvalidPacket),
        },
{
    let count = match query_packet_frame_count(packet) {
        Ok(c) => c,
        Err(e) => return Err(e),
    };
    let per_frame = query_packet_samples_per_frame(packet, sampling_rate);
    proof {
        if packet@.len() >= 2 {
            lemma_low_bits(packet@[1]);
        }
    }
    assert(count * per_frame <= 63 * 2880) by (nonlinear_arith)
        requires
            count <= 63,
            per_frame <= 2880,
    ;
    let samples = count * per_frame;
    if samples * 25 > sampling_rate.hz() * 3 {
        Err(DecoderError::InvalidPacket)
    } else {
        Ok(samples)
    }
}

/// Returns the codec mode of a packet.
pub fn query_packet_codec_mode(packet: &[u8]) -> (r: CodecMode)
    requires
        packet@.len() >= 1,
    ensures
        r == toc_mode(packet@[0]),
{
    if packet[0] & 0x80 == 0x80 {
        CodecMode::Celt
    } else if packet[0] & 0x60 == 0x60 {
        CodecMode::Hybrid
    } else {
        CodecMode::Silk
    }
}

/// The sum of a sequence of sizes.
pub open spec fn seq_sum(s: Seq<int>) -> int
    decreases s.len(),
{
    if s.len() == 0 {
        0
    } else {
        seq_sum(s.drop_last()) + s.last()
    }
}

/// A size field at `at`, within the `avail` bytes left: `(size, bytes used)`.
///
/// A byte below 252 is the size itself; otherwise the size is
/// `4 * second + first`, over two bytes.
pub open spec fn size_field(data: Seq<u8>, at: int, avail: int) -> Option<(int, int)> {
    if avail < 1 {
        None
    } else if data[at] < 252 {
        Some((data[at] as int, 1))
    } else if avail < 2 {
        None
    } else {
        Some((4 * data[at + 1] + data[at], 2))
    }
}

/// The padding run at `offset` with `len` bytes left: each 255 stands for 254
/// bytes of padding and one more length byte; a smaller value ends the run.
/// Gives the offset after the run, the bytes left, and the padding in all.
pub open spec fn skip_padding(data: Seq<u8>, offset: int, len: int, pad: int) -> Option<
    (int, int, int),
>
    decreases len,
{
    if len <= 0 {
        None
    } else {
        let p = data[offset] as int;
        let tmp = if p == 255 {
            254
        } else {
            p
        };
        let rest = len - 1 - tmp;
        if rest < 0 {
            None
        } else if p == 255 {
            skip_padding(data, offset + 1, rest, pad + tmp)
        } else {
            Some((offset + 1, rest, pad + tmp))
        }
    }
}

/// Reads `k` more size fields of a variable-size frame list: gives the
/// offset after them, the bytes left, the bytes left for the last frame, and
/// the sizes read (appended to `acc`).
pub open spec fn vbr_sizes(
    data: Seq<u8>,
    offset: int,
    len: int,
    last: int,
    k: int,
    acc: Seq<int>,
) -> Option<(int, int, int, Seq<int>)>
    decreases k,
{
    if k <= 0 {
        Some((offset, len, last, acc))
    } else {
        match size_field(data, offset, len) {
            None => None,
            Some((sz, bytes)) => {
                let rest = len - bytes;
                let last2 = last - bytes - sz;
                if sz > rest || last2 < 0 {
                    None
                } else {
                    vbr_sizes(data, offset + bytes, rest, last2, k - 1, acc.push(sz))
                }
            },
        }
    }
}

/// What the header of a packet gives before the self-delimiting size: the
/// frame count, whether frames share one size, the offset and bytes left,
/// the bytes left for the last frame, the padding, and the sizes known so far.
pub struct Head {
    pub count: int,
    pub cbr: bool,
    pub offset: int,
    pub len: int,
    pub last: int,
    pub pad: int,
    pub known: Seq<int>,
}

/// Where a packet's frames lie: their sizes, where the first begins, and the
/// padding that follows the last.
pub struct Framing {
    pub sizes: Seq<int>,
    pub payload_offset: int,
    pub padding: int,
}

/// The header of a packet with a code-3 count byte.
pub open spec fn parse_head_multi(data: Seq<u8>, self_delimited: bool) -> Option<Head> {
    let len = data.len() - 1;
    if len < 1 {
        None
    } else {
        let ch = data[1];
        let count = (ch & 0x3F) as int;
        if count == 0 || toc_samples_per_frame(data[0], 48000) * count > 5760 {
            None
        } else {
            let padded = if ch & 0x40 != 0 {
                skip_padding(data, 2, len - 1, 0)
            } else {
                Some((2int, len - 1, 0int))
            };
            match padded {
                None => None,
                Some((offset, len, pad)) => {
                    if ch & 0x80 != 0 {
                        match vbr_sizes(data, offset, len, len, count - 1, seq![]) {
                            None => None,
                            Some((offset, len, last, known)) => Some(
                                Head { count, cbr: false, offset, len, last, pad, known },
                            ),
                        }
                    } else if !self_delimited {
                        let last = len / count;
                        if last * count != len {
                            None
                        } else {
                            Some(
                                Head {
                                    count,
                                    cbr: true,
                                    offset,
                                    len,
                                    last,
                                    pad,
                                    known: Seq::new((count - 1) as nat, |i: int| last),
                                },
                            )
                        }
                    } else {
                        Some(Head { count, cbr: true, offset, len, last: len, pad, known: seq![] })
                    }
                },
            }
        }
    }
}

/// The header of a packet, up to the self-delimiting size.
pub open spec fn parse_head(data: Seq<u8>, self_delimited: bool) -> Option<Head> {
    let len = data.len() - 1;
    let code = data[0] & 0x3;
    if code == 0 {
        Some(Head { count: 1, cbr: false, offset: 1, len, last: len, pad: 0, known: seq![] })
    } else if code == 1 {
        if self_delimited {
            Some(Head { count: 2, cbr: true, offset: 1, len, last: len, pad: 0, known: seq![] })
        } else if len % 2 == 1 {
            None
        } else {
            Some(
                Head {
                    count: 2,
                    cbr: true,
                    offset: 1,
                    len,
                    last: len / 2,
                    pad: 0,
                    known: seq![len / 2],
                },
            )
        }
    } else if code == 2 {
        match size_field(data, 1, len) {
            None => None,
            Some((sz, bytes)) => {
                let rest = len - bytes;
                if sz > rest {
                    None
                } else {
                    Some(
                        Head {
                            count: 2,
                            cbr: false,
                            offset: 1 + bytes,
                            len: rest,
                            last: rest - sz,
                            pad: 0,
                            known: seq![sz],
                        },
                    )
                }
            },
        }
    } else {
        parse_head_multi(data, self_delimited)
    }
}

/// The framing of a packet, or `None` where it is invalid.
pub open spec fn parse_framing(data: Seq<u8>, self_delimited: bool) -> Option<Framing> {
    if data.len() == 0 {
        None
    } else {
        match parse_head(data, self_delimited) {
            None => None,
            Some(h) => {
                if self_delimited {
                    match size_field(data, h.offset, h.len) {
                        None => None,
                        Some((sz, bytes)) => {
                            let rest = h.len - bytes;
                            if sz > rest {
                                None
                            } else if h.cbr {
                                if sz * h.count > rest {
                                    None
                                } else {
                                    Some(
                                        Framing {
                                            sizes: Seq::new(h.count as nat, |i: int| sz),
                                            payload_offset: h.offset + bytes,
                                            padding: h.pad,
                                        },
                                    )
                                }
                            } else if bytes + sz > h.last {
                                None
                            } else {
                                Some(
                                    Framing {
                                        sizes: h.known.push(sz),
                                        payload_offset: h.offset + bytes,
                                        padding: h.pad,
                                    },
                                )
                            }
                        },
                    }
                } else if h.last > 1275 {
                    None
                } else {
                    Some(
                        Framing {
                            sizes: h.known.push(h.last),
                            payload_offset: h.offset,
                            padding: h.pad,
                        },
                    )
                }
            },
        }
    }
}

/// The frames of a parsed packet.
#[derive(Debug, Clone)]
pub struct ParsedPacket {
    /// The number of frames.
    pub count: usize,
    /// The offset of each frame in the packet.
    pub frames: Vec<usize>,
    /// The size of each frame in bytes.
    pub sizes: Vec<usize>,
    /// The offset of the first frame.
    pub payload_offset: usize,
    /// The offset just past this packet's padding, where a following packet
    /// would begin.
    pub packet_offset: usize,
}

impl ParsedPacket {
    /// This result describes `f`: the same sizes, each frame starting where
    /// the one before ends, and the packet ending after the padding.
    pub open spec fn describes(&self, f: Framing) -> bool {
        &&& self.count == f.sizes.len()
        &&& self.sizes@.len() == f.sizes.len()
        &&& self.frames@.len() == f.sizes.len()
        &&& forall|i: int| 0 <= i < f.sizes.len() ==> self.sizes@[i] == f.sizes[i]
        &&& forall|i: int|
            0 <= i < f.sizes.len() ==> self.frames@[i] == f.payload_offset + seq_sum(
                f.sizes.take(i),
            )
        &&& self.payload_offset == f.payload_offset
        &&& self.packet_offset == f.payload_offset + seq_sum(f.sizes) + f.padding
    }
}

/// Reads the size field at `at`, of the `avail` bytes left.
fn parse_size(data: &[u8], at: usize, avail: usize) -> (r: Result<(usize, usize), DecoderError>)
    requires
        at + avail <= data@.len(),
    ensures
        match size_field(data@, at as int, avail as int) {
            Some((sz, bytes)) => r == Ok::<(usize, usize), DecoderError>(
                (sz as usize, bytes as usize),
            ),
            None => r == Err::<(usize, usize), DecoderError>(DecoderError::InvalidPacket),
        },
        r matches Ok((sz, bytes)) ==> 1 <= bytes <= avail && bytes <= 2 && sz <= 1275,
{
    if avail < 1 {
        Err(DecoderError::InvalidPacket)
    } else if data[at] < 252 {
        Ok((data[at] as usize, 1))
    } else if avail < 2 {
        Err(DecoderError::InvalidPacket)
    } else {
        Ok((4 * (data[at + 1] as usize) + data[at] as usize, 2))
    }
}

/// The sizes held in a vector, as integers.
pub open spec fn as_ints(v: Seq<usize>) -> Seq<int> {
    v.map_values(|x: usize| x as int)
}

/// Appending adds to the sum.
pub proof fn lemma_sum_push(s: Seq<int>, x: int)
    ensures
        seq_sum(s.push(x)) == seq_sum(s) + x,
{
    assert(s.push(x).drop_last() =~= s);
}

/// A prefix one longer adds one more element.
pub proof fn lemma_sum_take_step(s: Seq<int>, i: int)
    requires
        0 <= i < s.len(),
    ensures
        seq_sum(s.take(i + 1)) == seq_sum(s.take(i)) + s[i],
{
    assert(s.take(i + 1).drop_last() =~= s.take(i));
}

/// Of sizes that are not negative, a prefix sums to no more than the whole.
pub proof fn lemma_sum_take_le(s: Seq<int>, i: int)
    requires
        0 <= i <= s.len(),
        forall|j: int| 0 <= j < s.len() ==> s[j] >= 0,
    ensures
        0 <= seq_sum(s.take(i)) <= seq_sum(s),
    decreases s.len() - i,
{
    if i < s.len() {
        lemma_sum_take_step(s, i);
        lemma_sum_take_le(s, i + 1);
        lemma_sum_nonneg(s.take(i));
    } else {
        assert(s.take(i) =~= s);
        lemma_sum_nonneg(s);
    }
}

/// Sizes that are not negative have a sum that is not negative.
pub proof fn lemma_sum_nonneg(s: Seq<int>)
    requires
        forall|j: int| 0 <= j < s.len() ==> s[j] >= 0,
    ensures
        seq_sum(s) >= 0,
    decreases s.len(),
{
    if s.len() > 0 {
        lemma_sum_nonneg(s.drop_last());
    }
}

/// `n` copies of `c` sum to `n * c`.
pub proof fn lemma_sum_repeat(n: nat, c: int)
    ensures
        seq_sum(Seq::new(n, |i: int| c)) == n * c,
    decreases n,
{
    if n > 0 {
        let s = Seq::new(n, |i: int| c);
        assert(s.drop_last() =~= Seq::new((n - 1) as nat, |i: int| c));
        assert(s.last() == c);
        assert(seq_sum(s) == seq_sum(s.drop_last()) + s.last());
        lemma_sum_repeat((n - 1) as nat, c);
        assert(n * c == (n - 1) * c + c) by (nonlinear_arith);
        assert(seq_sum(s) == n * c);
    } else {
        assert(Seq::new(n, |i: int| c).len() == 0);
    }
}

/// Reading a padding run keeps the packet accounted for.
pub proof fn lemma_skip_padding(data: Seq<u8>, offset: int, len: int, pad: int)
    requires
        offset >= 0,
        len >= 0,
        pad >= 0,
    ensures
        skip_padding(data, offset, len, pad) matches Some((o, l, p)) ==> o + l + p == offset + len
            + pad && l >= 0 && p >= pad && o > offset,
    decreases len,
{
    if len > 0 {
        let p = data[offset] as int;
        let tmp = if p == 255 {
            254
        } else {
            p
        };
        let rest = len - 1 - tmp;
        if rest >= 0 && p == 255 {
            lemma_skip_padding(data, offset + 1, rest, pad + tmp);
        }
    }
}

/// Reading size fields keeps the packet accounted for.
pub proof fn lemma_vbr_sizes(
    data: Seq<u8>,
    offset: int,
    len: int,
    last: int,
    k: int,
    acc: Seq<int>,
)
    requires
        len >= 0,
        last == len - seq_sum(acc),
        last >= 0,
        forall|j: int| 0 <= j < acc.len() ==> acc[j] >= 0,
    ensures
        vbr_sizes(data, offset, len, last, k, acc) matches Some((o, l, t, a)) ==> o + l == offset
            + len && o >= offset && l >= 0 && t >= 0 && t == l - seq_sum(a) && a.len() == acc.len() + (if k
            > 0 {
            k
        } else {
            0
        }) && (forall|j: int| 0 <= j < a.len() ==> a[j] >= 0),
    decreases k,
{
    if k > 0 {
        match size_field(data, offset, len) {
            None => {},
            Some((sz, bytes)) => {
                let rest = len - bytes;
                let last2 = last - bytes - sz;
                if !(sz > rest || last2 < 0) {
                    lemma_sum_push(acc, sz);
                    lemma_vbr_sizes(data, offset + bytes, rest, last2, k - 1, acc.push(sz));
                }
            },
        }
    }
}

/// What the header gives keeps the packet accounted for.
pub proof fn lemma_head(data: Seq<u8>, self_delimited: bool)
    requires
        data.len() >= 1,
    ensures
        parse_head(data, self_delimited) matches Some(h) ==> {
            &&& h.offset + h.len + h.pad == data.len()
            &&& h.offset >= 1 && h.len >= 0 && h.pad >= 0 && h.last >= 0
            &&& h.last == h.len - seq_sum(h.known)
            &&& 1 <= h.count <= 63
            &&& forall|j: int| 0 <= j < h.known.len() ==> h.known[j] >= 0
            &&& (!(self_delimited && h.cbr) ==> h.known.len() == h.count - 1)
            &&& packet_frame_count(data) == Some(h.count as nat)
        },
{
    let len = data.len() - 1;
    let code = data[0] & 0x3;
    lemma_low_bits(data[0]);
    if code == 1 && !self_delimited && len % 2 == 0 {
        lemma_sum_push(seq![], len / 2);
        assert(seq![len / 2] =~= Seq::<int>::empty().push(len / 2));
    } else if code == 2 {
        if let Some((sz, bytes)) = size_field(data, 1, len) {
            lemma_sum_push(seq![], sz);
            assert(seq![sz] =~= Seq::<int>::empty().push(sz));
        }
    } else if code == 3 && len >= 1 {
        let ch = data[1];
        lemma_low_bits(ch);
        let count = (ch & 0x3F) as int;
        if ch & 0x40 != 0 {
            lemma_skip_padding(data, 2, len - 1, 0);
        }
        let padded = if ch & 0x40 != 0 {
            skip_padding(data, 2, len - 1, 0)
        } else {
            Some((2int, len - 1, 0int))
        };
        if let Some((offset, l, pad)) = padded {
            if ch & 0x80 != 0 {
                lemma_vbr_sizes(data, offset, l, l, count - 1, seq![]);
            } else if !self_delimited && count >= 1 {
                let last = l / count;
                if last * count == l {
                    lemma_sum_repeat((count - 1) as nat, last);
                    assert((count - 1) * last == l - last) by (nonlinear_arith)
                        requires
                            last * count == l,
                    ;
                }
            }
        }
    }
}

/// Every accepted packet is accounted for byte by byte: the header, the
/// frames and the padding fill no more than the packet, and fill it exactly
/// where the framing is not self-delimited.
pub proof fn lemma_framing_fills_packet(data: Seq<u8>, self_delimited: bool)
    ensures
        parse_framing(data, self_delimited) matches Some(f) ==> {
            &&& f.payload_offset + seq_sum(f.sizes) + f.padding <= data.len()
            &&& (!self_delimited ==> f.payload_offset + seq_sum(f.sizes) + f.padding
                == data.len())
            &&& f.payload_offset >= 1 && f.padding >= 0
            &&& 1 <= f.sizes.len() <= 63
            &&& forall|j: int| 0 <= j < f.sizes.len() ==> f.sizes[j] >= 0
            &&& (!self_delimited ==> packet_frame_count(data) == Some(f.sizes.len()))
        },
{
    if data.len() > 0 {
        lemma_head(data, self_delimited);
        if let Some(h) = parse_head(data, self_delimited) {
            if self_delimited {
                if let Some((sz, bytes)) = size_field(data, h.offset, h.len) {
                    if h.cbr {
                        lemma_sum_repeat(h.count as nat, sz);
                    } else {
                        lemma_sum_push(h.known, sz);
                    }
                }
            } else {
                lemma_sum_push(h.known, h.last);
            }
        }
    }
}

/// Reads a padding run at `offset`, with `len` bytes left up to the end.
fn read_padding(data: &[u8], at: usize, avail: usize) -> (r: Result<
    (usize, usize, usize),
    DecoderError,
>)
    requires
        at + avail == data@.len(),
    ensures
        match skip_padding(data@, at as int, avail as int, 0) {
            Some((o, l, p)) => r == Ok::<(usize, usize, usize), DecoderError>(
                (o as usize, l as usize, p as usize),
            ),
            None => r == Err::<(usize, usize, usize), DecoderError>(DecoderError::InvalidPacket),
        },
{
    let ghost start = skip_padding(data@, at as int, avail as int, 0);
    let mut offset = at;
    let mut len = avail;
    let mut pad: usize = 0;
    loop
        invariant
            offset + len + pad == data@.len(),
            start == skip_padding(data@, offset as int, len as int, pad as int),
            start == skip_padding(data@, at as int, avail as int, 0),
        decreases len,
    {
        if len == 0 {
            return Err(DecoderError::InvalidPacket);
        }
        let p = data[offset] as usize;
        let tmp: usize = if p == 255 {
            254
        } else {
            p
        };
        if len - 1 < tmp {
            return Err(DecoderError::InvalidPacket);
        }
        offset = offset + 1;
        len = len - 1 - tmp;
        pad = pad + tmp;
        if p != 255 {
            return Ok((offset, len, pad));
        }
    }
}

/// Reads `k` size fields of a variable-size frame list at `at`, with `avail`
/// bytes left.
fn read_vbr_sizes(data: &[u8], at: usize, avail: usize, k: usize) -> (r: Result<
    (usize, usize, usize, Vec<usize>),
    DecoderError,
>)
    requires
        at + avail <= data@.len(),
    ensures
        match vbr_sizes(data@, at as int, avail as int, avail as int, k as int, seq![]) {
            Some((o, l, t, a)) => r matches Ok((ro, rl, rt, ra)) && ro == o && rl == l && rt == t
                && as_ints(ra@) == a,
            None => r == Err::<(usize, usize, usize, Vec<usize>), DecoderError>(
                DecoderError::InvalidPacket,
            ),
        },
{
    let ghost start = vbr_sizes(data@, at as int, avail as int, avail as int, k as int, seq![]);
    let mut offset = at;
    let mut len = avail;
    let mut last = avail;
    let mut sizes: Vec<usize> = Vec::new();
    let mut i: usize = 0;
    let n = data.len();
    assert(as_ints(sizes@) =~= seq![]);
    while i < k
        invariant
            i <= k,
            n == data@.len(),
            offset + len <= data@.len(),
            start == vbr_sizes(
                data@,
                offset as int,
                len as int,
                last as int,
                (k - i) as int,
                as_ints(sizes@),
            ),
            start == vbr_sizes(data@, at as int, avail as int, avail as int, k as int, seq![]),
        decreases k - i,
    {
        let (sz, bytes) = match parse_size(data, offset, len) {
            Ok(v) => v,
            Err(e) => return Err(e),
        };
        len = len - bytes;
        if sz > len || bytes + sz > last {
            return Err(DecoderError::InvalidPacket);
        }
        offset = offset + bytes;
        last = last - bytes - sz;
        proof {
            assert(as_ints(sizes@.push(sz)) =~= as_ints(sizes@).push(sz as int));
        }
        sizes.push(sz);
        i = i + 1;
    }
    Ok((offset, len, last, sizes))
}

/// The header's findings, in the order of `Head`'s fields.
pub type HeadFields = (usize, bool, usize, usize, usize, usize, Vec<usize>);

/// `fields` holds what `h` says.
pub open spec fn head_matches(fields: HeadFields, h: Head) -> bool {
    &&& fields.0 == h.count
    &&& fields.1 == h.cbr
    &&& fields.2 == h.offset
    &&& fields.3 == h.len
    &&& fields.4 == h.last
    &&& fields.5 == h.pad
    &&& as_ints(fields.6@) == h.known
}

/// Reads the header of a packet with a code-3 count byte.
fn read_head_multi(packet: &[u8], self_delimited: bool) -> (r: Result<HeadFields, DecoderError>)
    requires
        packet@.len() >= 1,
        packet@[0] & 0x3 == 3,
    ensures
        match parse_head_multi(packet@, self_delimited) {
            Some(h) => r matches Ok(fields) && head_matches(fields, h),
            None => r matches Err(e) && e == DecoderError::InvalidPacket,
        },
{
    let framesize = query_packet_samples_per_frame(packet, SamplingRate::Hz48000);
    let mut offset: usize = 1;
    let mut len: usize = packet.len() - 1;
    let mut pad: usize = 0;
    if len < 1 {
        return Err(DecoderError::InvalidPacket);
    }
    let ch = packet[offset];
    proof {
        lemma_low_bits(ch);
    }
    offset = offset + 1;
    let count = (ch & 0x3F) as usize;
    assert(framesize * count <= 2880 * 63) by (nonlinear_arith)
        requires
            framesize <= 2880,
            count <= 63,
    ;
    if count == 0 || framesize * count > 5760 {
        return Err(DecoderError::InvalidPacket);
    }
    len = len - 1;
    if ch & 0x40 != 0 {
        proof {
            lemma_skip_padding(packet@, offset as int, len as int, 0);
        }
        let (o, l, p) = match read_padding(packet, offset, len) {
            Ok(v) => v,
            Err(e) => return Err(e),
        };
        offset = o;
        len = l;
        pad = p;
    }
    let cbr = ch & 0x80 == 0;
    if !cbr {
        let (o, l, t, a) = match read_vbr_sizes(packet, offset, len, count - 1) {
            Ok(v) => v,
            Err(e) => return Err(e),
        };
        Ok((count, false, o, l, t, pad, a))
    } else if !self_delimited {
        let last_size = len / count;
        assert(last_size * count <= len) by (nonlinear_arith)
            requires
                last_size == len / count,
                count > 0,
        ;
        if last_size * count != len {
            return Err(DecoderError::InvalidPacket);
        }
        let mut known: Vec<usize> = Vec::new();
        let mut i: usize = 0;
        while i + 1 < count
            invariant
                i + 1 <= count,
                known@.len() == i,
                forall|j: int| 0 <= j < i ==> known@[j] == last_size,
            decreases count - i,
        {
            known.push(last_size);
            i = i + 1;
        }
        assert(as_ints(known@) =~= Seq::new((count - 1) as nat, |i: int| last_size as int));
        Ok((count, true, offset, len, last_size, pad, known))
    } else {
        let known: Vec<usize> = Vec::new();
        assert(as_ints(known@) =~= seq![]);
        Ok((count, true, offset, len, len, pad, known))
    }
}

/// Reads the header of a packet, up to the self-delimiting size.
fn read_head(packet: &[u8], self_delimited: bool) -> (r: Result<HeadFields, DecoderError>)
    requires
        packet@.len() >= 1,
    ensures
        match parse_head(packet@, self_delimited) {
            Some(h) => r matches Ok(fields) && head_matches(fields, h),
            None => r matches Err(e) && e == DecoderError::InvalidPacket,
        },
{
    let len: usize = packet.len() - 1;
    let code = packet[0] & 0x3;
    proof {
        lemma_low_bits(packet@[0]);
    }
    let mut known: Vec<usize> = Vec::new();
    if code == 0 {
        assert(as_ints(known@) =~= seq![]);
        Ok((1, false, 1, len, len, 0, known))
    } else if code == 1 {
        if self_delimited {
            assert(as_ints(known@) =~= seq![]);
            Ok((2, true, 1, len, len, 0, known))
        } else if len % 2 == 1 {
            Err(DecoderError::InvalidPacket)
        } else {
            known.push(len / 2);
            assert(as_ints(known@) =~= seq![(len / 2) as int]);
            Ok((2, true, 1, len, len / 2, 0, known))
        }
    } else if code == 2 {
        let (sz, bytes) = match parse_size(packet, 1, len) {
            Ok(v) => v,
            Err(e) => return Err(e),
        };
        let rest = len - bytes;
        if sz > rest {
            return Err(DecoderError::InvalidPacket);
        }
        known.push(sz);
        assert(as_ints(known@) =~= seq![sz as int]);
        Ok((2, false, 1 + bytes, rest, rest - sz, 0, known))
    } else {
        read_head_multi(packet, self_delimited)
    }
}

/// Parses a packet into its frames.
///
/// Returns where each frame lies and how long it is, without copying them;
/// a malformed header or inconsistent sizes give `InvalidPacket`.
pub fn parse_packet(packet: &[u8], self_delimited: bool) -> (r: Result<
    ParsedPacket,
    DecoderError,
>)
    ensures
        match parse_framing(packet@, self_delimited) {
            Some(f) => r matches Ok(p) && p.describes(f),
            None => r == Err::<ParsedPacket, DecoderError>(DecoderError::InvalidPacket),
        },
{
    if packet.len() == 0 {
        return Err(DecoderError::InvalidPacket);
    }
    proof {
        lemma_head(packet@, self_delimited);
        lemma_framing_fills_packet(packet@, self_delimited);
    }
    let (count, cbr, offset, len, last_size, pad, known) = match read_head(
        packet,
        self_delimited,
    ) {
        Ok(v) => v,
        Err(e) => return Err(e),
    };
    let ghost h = parse_head(packet@, self_delimited).unwrap();
    let mut sizes: Vec<usize> = Vec::new();
    let payload_offset: usize;
    if self_delimited {
        let (sz, bytes) = match parse_size(packet, offset, len) {
            Ok(v) => v,
            Err(e) => return Err(e),
        };
        let rest = len - bytes;
        if sz > rest {
            return Err(DecoderError::InvalidPacket);
        }
        if cbr {
            assert(sz * count <= 1275 * 63) by (nonlinear_arith)
                requires
                    sz <= 1275,
                    count <= 63,
            ;
            if sz * count > rest {
                return Err(DecoderError::InvalidPacket);
            }
            let mut i: usize = 0;
            while i < count
                invariant
                    i <= count,
                    sizes@.len() == i,
                    forall|j: int| 0 <= j < i ==> sizes@[j] == sz,
                decreases count - i,
            {
                sizes.push(sz);
                i = i + 1;
            }
            assert(as_ints(sizes@) =~= Seq::new(count as nat, |i: int| sz as int));
        } else {
            if bytes + sz > last_size {
                return Err(DecoderError::InvalidPacket);
            }
            sizes = known;
            sizes.push(sz);
            assert(as_ints(sizes@) =~= h.known.push(sz as int));
        }
        payload_offset = offset + bytes;
    } else {
        if last_size > 1275 {
            return Err(DecoderError::InvalidPacket);
        }
        sizes = known;
        sizes.push(last_size);
        assert(as_ints(sizes@) =~= h.known.push(last_size as int));
        payload_offset = offset;
    }
    let ghost f = parse_framing(packet@, self_delimited).unwrap();
    assert(as_ints(sizes@) == f.sizes);
    let mut frames: Vec<usize> = Vec::new();
    let mut at = payload_offset;
    let mut i: usize = 0;
    while i < sizes.len()
        invariant
            i <= sizes@.len(),
            as_ints(sizes@) == f.sizes,
            f.payload_offset + seq_sum(f.sizes) + f.padding <= packet@.len(),
            f.padding >= 0,
            packet@.len() <= usize::MAX,
            forall|j: int| 0 <= j < f.sizes.len() ==> f.sizes[j] >= 0,
            f.payload_offset == payload_offset,
            frames@.len() == i,
            at == payload_offset + seq_sum(f.sizes.take(i as int)),
            forall|j: int|
                0 <= j < i ==> frames@[j] == f.payload_offset + seq_sum(f.sizes.take(j)),
        decreases sizes@.len() - i,
    {
        proof {
            lemma_sum_take_step(f.sizes, i as int);
            lemma_sum_take_le(f.sizes, i as int + 1);
            assert(f.sizes[i as int] == sizes@[i as int]);
            assert(at + sizes@[i as int] == payload_offset + seq_sum(f.sizes.take(i + 1)));
        }
        frames.push(at);
        at = at + sizes[i];
        i = i + 1;
    }
    proof {
        assert(f.sizes.take(f.sizes.len() as int) =~= f.sizes);
    }
    Ok(ParsedPacket { count, frames, sizes, payload_offset, packet_offset: pad + at })
}

} // verus!
