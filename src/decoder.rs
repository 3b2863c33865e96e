//! The decode orchestrator: the state kept across packets, and the decisions
//! of each decode call. Audio synthesis is left to the caller, who carries
//! out the frame jobs that a call returns.
use vstd::prelude::*;
use crate::error::DecoderError;
use crate::packet::{
    parse_framing, parse_packet, query_packet_bandwidth, query_packet_channel_count,
    query_packet_codec_mode, query_packet_sample_count, query_packet_samples_per_frame,
    toc_bandwidth, toc_channels, toc_mode, toc_samples_per_frame, packet_frame_count, seq_sum, Framing, Bandwidth,
    Channels, CodecMode, SamplingRate,
};
use crate::range_decoder::{after_bit_logp, after_uint, bit_logp_value, uint_value, RangeDecoder};
use crate::range_coder::tell_spec;

verus! {

/// Configures a decoder on creation.
#[derive(Clone, Copy, Debug)]
pub struct DecoderConfiguration {
    /// The rate to decode at. Default: 48 kHz.
    pub sampling_rate: SamplingRate,
    /// The channels to decode. Default: stereo.
    pub channels: Channels,
    /// Output gain in Q8 dB. Default: 0.
    pub gain: i16,
}

impl Default for DecoderConfiguration {
    fn default() -> (r: Self)
        ensures
            r.sampling_rate == SamplingRate::Hz48000,
            r.channels == Channels::Stereo,
            r.gain == 0,
    {
        DecoderConfiguration { sampling_rate: SamplingRate::Hz48000, channels: Channels::Stereo, gain: 0 }
    }
}

/// One piece of the work that a decode call leaves to the synthesis stage.
/// Offsets and lengths count samples per channel.
#[derive(Clone, Copy, Debug, PartialEq, Eq)]
pub enum FrameJob {
    /// Write silence: no codec mode is known yet.
    Silence { offset: usize, samples: usize },
    /// Conceal a lost or empty frame in the given mode.
    Conceal { offset: usize, samples: usize, mode: CodecMode },
    /// Decode the frame held in bytes `[start, start + len)` of the packet.
    Coded {
        offset: usize,
        samples: usize,
        start: usize,
        len: usize,
        mode: CodecMode,
        /// Decode the in-band redundancy of the previous frame instead.
        fec: bool,
        /// Before this transform-only frame, conceal 5 ms in the previous
        /// mode to crossfade from.
        celt_transition: bool,
        /// After the linear-prediction part, conceal 5 ms in the previous
        /// mode to crossfade from, unless a redundant frame is found.
        silk_transition: bool,
        /// Reset the linear-prediction sub-codec first.
        reset_silk: bool,
        /// Reset the transform sub-codec first.
        reset_celt: bool,
        /// The last band the transform sub-codec decodes.
        end_band: u32,
        /// The internal rate of the linear-prediction sub-codec.
        silk_rate: SamplingRate,
        /// The mode of the frame before.
        prev_mode: Option<CodecMode>,
        /// Whether the frame before ended with a redundant transform frame.
        prev_redundancy: bool,
    },
}

impl FrameJob {
    /// Where the job's samples begin.
    pub open spec fn spec_offset(self) -> int {
        match self {
            FrameJob::Silence { offset, .. } => offset as int,
            FrameJob::Conceal { offset, .. } => offset as int,
            FrameJob::Coded { offset, .. } => offset as int,
        }
    }

    /// How many samples per channel the job produces.
    pub open spec fn spec_samples(self) -> int {
        match self {
            FrameJob::Silence { samples, .. } => samples as int,
            FrameJob::Conceal { samples, .. } => samples as int,
            FrameJob::Coded { samples, .. } => samples as int,
        }
    }
}

/// `jobs[from..]` lie back to back from `start` on and end at `end`, each
/// producing at least one sample.
pub open spec fn tiles(jobs: Seq<FrameJob>, from: int, start: int, end: int) -> bool
    decreases jobs.len() - from,
{
    if from >= jobs.len() {
        start == end
    } else {
        &&& 0 <= from
        &&& jobs[from].spec_offset() == start
        &&& jobs[from].spec_samples() > 0
        &&& tiles(jobs, from + 1, start + jobs[from].spec_samples(), end)
    }
}

/// All of `jobs` are silence.
pub open spec fn all_silence(jobs: Seq<FrameJob>) -> bool {
    forall|i: int| 0 <= i < jobs.len() ==> jobs[i] is Silence
}

/// The last band that the transform sub-codec decodes for a bandwidth.
pub open spec fn end_band_of(bandwidth: Option<Bandwidth>) -> u32 {
    match bandwidth {
        Some(Bandwidth::Narrowband) => 13,
        Some(Bandwidth::Mediumband) => 17,
        Some(Bandwidth::Wideband) => 17,
        Some(Bandwidth::Superwideband) => 19,
        _ => 21,
    }
}

/// The internal rate of the linear-prediction sub-codec for a mode and bandwidth.
pub open spec fn silk_rate_of(mode: CodecMode, bandwidth: Option<Bandwidth>) -> SamplingRate {
    if mode == CodecMode::Silk {
        match bandwidth {
            Some(Bandwidth::Narrowband) => SamplingRate::Hz8000,
            Some(Bandwidth::Mediumband) => SamplingRate::Hz12000,
            _ => SamplingRate::Hz16000,
        }
    } else {
        SamplingRate::Hz16000
    }
}

/// The decoder's state across packets.
#[derive(Clone, Copy, Debug)]
pub struct Decoder {
    /// The rate the decoder outputs.
    pub sampling_rate: SamplingRate,
    /// The channels the decoder outputs.
    pub channels: Channels,
    /// Output gain in Q8 dB.
    pub decode_gain: i16,
    /// The channels of the last packet.
    pub stream_channels: Channels,
    /// The bandwidth of the last packet.
    pub bandwidth: Option<Bandwidth>,
    /// The mode of the last packet.
    pub mode: Option<CodecMode>,
    /// The mode of the last frame decoded or concealed.
    pub prev_mode: Option<CodecMode>,
    /// The samples per frame of the last packet.
    pub frame_size: usize,
    /// Whether the last frame ended with a redundant transform frame.
    pub prev_redundancy: bool,
    /// The duration of the last packet decoded or concealed.
    pub last_packet_duration: Option<usize>,
    /// The final range of the last frame's entropy decoder.
    pub final_range: u32,
}

/// Samples in 2.5 ms at `rate`.
pub open spec fn unit(rate: SamplingRate) -> int {
    (rate.spec_hz() / 400) as int
}


/// The frame durations a decoder can hold: 2.5, 5, 10, 20, 40 or 60 ms.
pub open spec fn legal_frame_size(n: int, rate: SamplingRate) -> bool {
    let u = unit(rate);
    n == u || n == 2 * u || n == 4 * u || n == 8 * u || n == 16 * u || n == 24 * u
}

/// Every packet's frame duration is one a decoder can hold.
pub proof fn lemma_packet_frame_size_legal(toc: u8, rate: SamplingRate)
    ensures
        legal_frame_size(toc_samples_per_frame(toc, rate.spec_hz()) as int, rate),
{
    crate::packet::lemma_low_bits(toc);
    let a = (toc >> 3u8) & 0x3;
    assert(a == 0 || a == 1 || a == 2 || a == 3);
    let f = crate::packet::shift_factor(a);
    assert(f == 1 || f == 2 || f == 4 || f == 8);
    let r = rate.spec_hz();
    let u = unit(rate);
    assert(r == 400 * u);
    assert(r * f / 400 == f * u) by (nonlinear_arith)
        requires
            r == 400 * u,
    ;
    assert(r / 50 == 8 * u);
    assert(r / 100 == 4 * u);
    assert(r * 60 / 1000 == 24 * u);
    assert(r * f / 100 == 4 * f * u) by (nonlinear_arith)
        requires
            r == 400 * u,
    ;
}

/// Joining a tiling of `old` with a tiling of what was appended to it.
pub proof fn lemma_tiles_concat(
    old_jobs: Seq<FrameJob>,
    new_jobs: Seq<FrameJob>,
    from: int,
    start: int,
    mid: int,
    end: int,
)
    requires
        0 <= from <= old_jobs.len(),
        tiles(old_jobs, from, start, mid),
        new_jobs.len() >= old_jobs.len(),
        new_jobs.take(old_jobs.len() as int) == old_jobs,
        tiles(new_jobs, old_jobs.len() as int, mid, end),
    ensures
        tiles(new_jobs, from, start, end),
    decreases old_jobs.len() - from,
{
    if from < old_jobs.len() {
        assert(new_jobs[from] == new_jobs.take(old_jobs.len() as int)[from]);
        lemma_tiles_concat(
            old_jobs,
            new_jobs,
            from + 1,
            start + old_jobs[from].spec_samples(),
            mid,
            end,
        );
    }
}

/// Appending one job to an empty tail tiles it.
pub proof fn lemma_tiles_single(jobs: Seq<FrameJob>, j: FrameJob)
    requires
        j.spec_samples() > 0,
    ensures
        tiles(jobs.push(j), jobs.len() as int, j.spec_offset(), j.spec_offset() + j.spec_samples()),
{
    let n = jobs.push(j);
    assert(n[jobs.len() as int] == j);
    assert(tiles(
        n,
        jobs.len() + 1int,
        j.spec_offset() + j.spec_samples(),
        j.spec_offset() + j.spec_samples(),
    ));
}

/// Whether a frame in `mode` after the state `d` crosses between the
/// transform-only mode and the others, so that a crossfade is needed.
pub open spec fn is_transition(d: Decoder, mode: CodecMode) -> bool {
    match d.prev_mode {
        None => false,
        Some(p) => (mode == CodecMode::Celt && p != CodecMode::Celt && d.prev_redundancy) || (mode
            != CodecMode::Celt && p == CodecMode::Celt),
    }
}

/// The job planned for a coded frame in `mode` after the state `d`.
pub open spec fn coded_job(
    d: Decoder,
    mode: CodecMode,
    offset: usize,
    start: usize,
    len: usize,
    fec: bool,
) -> FrameJob {
    let t = is_transition(d, mode);
    let celt_transition = t && mode == CodecMode::Celt;
    let redundancy = if celt_transition {
        false
    } else {
        d.prev_redundancy
    };
    FrameJob::Coded {
        offset,
        samples: d.frame_size,
        start,
        len,
        mode,
        fec,
        celt_transition,
        silk_transition: t && mode != CodecMode::Celt,
        reset_silk: mode != CodecMode::Celt && d.prev_mode == Some(CodecMode::Celt),
        reset_celt: mode != CodecMode::Silk && d.prev_mode is Some && d.prev_mode != Some(mode)
            && !redundancy,
        end_band: end_band_of(d.bandwidth),
        silk_rate: silk_rate_of(mode, d.bandwidth),
        prev_mode: d.prev_mode,
        prev_redundancy: redundancy,
    }
}

/// `d` holds what the header of `p` says.
pub open spec fn holds_header(d: Decoder, p: Seq<u8>) -> bool {
    &&& d.mode == Some(toc_mode(p[0]))
    &&& d.bandwidth == Some(toc_bandwidth(p[0]))
    &&& d.frame_size == toc_samples_per_frame(p[0], d.sampling_rate.spec_hz())
    &&& d.stream_channels == toc_channels(p[0])
}

/// `d2` is `d` with only the fields that decoding may touch changed: the
/// settings it was created with stay.
pub open spec fn same_settings(d: Decoder, d2: Decoder) -> bool {
    &&& d2.sampling_rate == d.sampling_rate
    &&& d2.channels == d.channels
    &&& d2.decode_gain == d.decode_gain
}


/// What a coded frame says of a redundant transform frame embedded at its end.
#[derive(Clone, Copy, Debug, PartialEq, Eq)]
pub struct Redundancy {
    /// Whether a redundant frame is present.
    pub present: bool,
    /// Its direction: into the linear-prediction mode (true) or out of it.
    pub celt_to_silk: bool,
    /// Its length in bytes, at the end of the frame.
    pub bytes: u32,
    /// The bytes left to the primary frame.
    pub len: u32,
}

/// What `detect_redundancy(d, hybrid, len)` finds, and the decoder after it.
///
/// Where at least `17` bits (37 in hybrid mode) remain past `tell`: in
/// hybrid mode a bit of probability 1/4096 says whether a redundant frame is
/// there, in the other modes it always is; a bit of probability 1/2 gives
/// its direction; its length is a coded integer below 256 plus 2 (hybrid) or
/// all the whole bytes left after `tell`. It is taken only where that length
/// fits in `len` and leaves at least `tell` bits to the primary frame; the
/// decoder's usable length then shrinks by it. Otherwise the primary frame
/// keeps nothing (`len` 0).
pub open spec fn redundancy_spec(d: RangeDecoder, hybrid: bool, len: u32) -> (
    Redundancy,
    RangeDecoder,
) {
    let need = tell_spec(d.bits_total, d.rng) as int + 17 + if hybrid {
        20int
    } else {
        0int
    };
    let absent = Redundancy { present: false, celt_to_silk: false, bytes: 0, len };
    if need > 8 * len {
        (absent, d)
    } else {
        let present = if hybrid {
            bit_logp_value(d, 12)
        } else {
            true
        };
        let d1 = if hybrid {
            after_bit_logp(d, 12)
        } else {
            d
        };
        if !present {
            (absent, d1)
        } else {
            let c2s = bit_logp_value(d1, 1);
            let d2 = after_bit_logp(d1, 1);
            let bytes: int = if hybrid {
                uint_value(d2, 256) + 2
            } else {
                len - (tell_spec(d2.bits_total, d2.rng) + 7) / 8
            };
            let d3 = if hybrid {
                after_uint(d2, 256)
            } else {
                d2
            };
            if 0 <= bytes <= len && (len - bytes) * 8 >= tell_spec(d3.bits_total, d3.rng) {
                (
                    Redundancy {
                        present: true,
                        celt_to_silk: c2s,
                        bytes: bytes as u32,
                        len: (len - bytes) as u32,
                    },
                    RangeDecoder { storage: (d3.storage - bytes) as usize, ..d3 },
                )
            } else {
                (Redundancy { present: false, celt_to_silk: c2s, bytes: 0, len: 0 }, d3)
            }
        }
    }
}

/// Looks for a redundant frame after the linear-prediction part of a coded
/// frame of `len` bytes, once that part has been decoded from `dec`.
///
/// Enough bits must remain: in hybrid mode a coded bit then says whether the
/// frame is there, in the other modes it always is. Its direction is one
/// coded bit; its length is coded (hybrid) or all that remains. The bytes
/// are then excluded from `dec`. A length that leaves fewer bytes than were
/// already decoded means there is no redundant frame after all.
pub fn detect_redundancy(dec: &mut RangeDecoder, hybrid: bool, len: u32) -> (r: Redundancy)
    requires
        old(dec).wf(),
        len <= old(dec).storage,
        len <= 0x1000_0000,
    ensures
        (r, *final(dec)) == redundancy_spec(*old(dec), hybrid, len),
        final(dec).wf(),
        ({
            let need = tell_spec(old(dec).bits_total, old(dec).rng) as int + 17 + if hybrid {
                20int
            } else {
                0int
            };
            need > 8 * len ==> r == Redundancy {
                present: false,
                celt_to_silk: false,
                bytes: 0,
                len,
            } && *final(dec) == *old(dec)
        }),
        r.present ==> r.bytes + r.len == len && 8 * r.len >= tell_spec(
            final(dec).bits_total,
            final(dec).rng,
        ) && final(dec).storage == old(dec).storage - r.bytes,
        r.present && hybrid ==> 2 <= r.bytes <= 257,
        !r.present ==> r.bytes == 0 && final(dec).storage == old(dec).storage && (r.len == len
            || r.len == 0),
{
    let t = dec.tell() as u64;
    let need: u64 = t + 17 + if hybrid {
        20
    } else {
        0
    };
    if need > 8 * (len as u64) {
        return Redundancy { present: false, celt_to_silk: false, bytes: 0, len };
    }
    let present = if hybrid {
        dec.decode_bit_logp(12)
    } else {
        true
    };
    if !present {
        return Redundancy { present: false, celt_to_silk: false, bytes: 0, len };
    }
    let celt_to_silk = dec.decode_bit_logp(1);
    let bytes: u64 = if hybrid {
        dec.decode_uint(256) as u64 + 2
    } else {
        let used = (dec.tell() as u64 + 7) / 8;
        if used <= len as u64 {
            len as u64 - used
        } else {
            len as u64 + 1
        }
    };
    if bytes > len as u64 || (len as u64 - bytes) * 8 < dec.tell() as u64 {
        return Redundancy { present: false, celt_to_silk, bytes: 0, len: 0 };
    }
    dec.shrink_storage(bytes as usize);
    Redundancy { present: true, celt_to_silk, bytes: bytes as u32, len: (len as u64 - bytes) as u32 }
}

/// The first band the transform sub-codec decodes for a primary frame in
/// `mode`: above the linear-prediction band where both sub-codecs share it.
pub fn celt_start_band(mode: CodecMode) -> (r: u32)
    ensures
        r == (if mode != CodecMode::Celt {
            17u32
        } else {
            0u32
        }),
{
    if mode != CodecMode::Celt {
        17
    } else {
        0
    }
}

/// Whether the 5 ms crossfade out of the transform mode is concealed for a
/// coded frame, once its redundancy is known: only where no redundant frame
/// provides the audio instead.
pub fn silk_transition_needed(job: &FrameJob, found: &Redundancy) -> (r: bool)
    ensures
        r == match *job {
            FrameJob::Coded { silk_transition, .. } => silk_transition && !found.present,
            _ => false,
        },
{
    match *job {
        FrameJob::Coded { silk_transition, .. } => silk_transition && !found.present,
        _ => false,
    }
}

/// Whether the transform sub-codec fades out, by decoding a silence frame,
/// after a hybrid frame is followed by a linear-prediction-only one: not
/// where a redundant frame into the linear-prediction mode follows one out
/// of it.
pub fn hybrid_fade_needed(job: &FrameJob, found: &Redundancy) -> (r: bool)
    ensures
        r == match *job {
            FrameJob::Coded { mode, prev_mode, prev_redundancy, .. } => mode == CodecMode::Silk
                && prev_mode == Some(CodecMode::Hybrid) && !(found.present && found.celt_to_silk
                && prev_redundancy),
            _ => false,
        },
{
    match *job {
        FrameJob::Coded { mode, prev_mode, prev_redundancy, .. } => mode == CodecMode::Silk
            && prev_mode == Some(CodecMode::Hybrid) && !(found.present && found.celt_to_silk
            && prev_redundancy),
        _ => false,
    }
}

/// The final range of a frame: that of its entropy decoder, combined with
/// that of its redundant frame; 0 where no coded data was read.
pub open spec fn frame_final_range(coder_range: Option<u32>, redundant_range: u32) -> u32 {
    match coder_range {
        Some(r) => r ^ redundant_range,
        None => 0,
    }
}

/// The samples that concealment produces for a chunk of `c` samples of at
/// most 20 ms in `mode`, `u` being 2.5 ms: between 10 and 20 ms it gives
/// 10 ms; between 5 and 10 ms it gives 5 ms unless the mode is
/// linear-prediction only; otherwise the whole chunk.
pub open spec fn snapped(c: int, mode: CodecMode, u: int) -> int {
    if c < 8 * u && c > 4 * u {
        4 * u
    } else if c < 8 * u && mode != CodecMode::Silk && 2 * u < c < 4 * u {
        2 * u
    } else {
        c
    }
}

/// The concealment jobs for `rem` samples from `offset` on, in chunks of at
/// most 20 ms, each snapped.
pub open spec fn chunk_jobs(offset: int, rem: int, mode: CodecMode, u: int) -> Seq<FrameJob>
    decreases rem,
{
    if rem <= 0 || u <= 0 {
        seq![]
    } else {
        let c = if rem < 8 * u {
            rem
        } else {
            8 * u
        };
        let n = snapped(c, mode, u);
        if n <= 0 {
            seq![]
        } else {
            seq![FrameJob::Conceal { offset: offset as usize, samples: n as usize, mode }]
                + chunk_jobs(offset + n, rem - n, mode, u)
        }
    }
}

/// What concealing a lost or empty frame with room for `frame_size` samples
/// at `offset` produces after state `d`: the samples, and the jobs. No more
/// than the last packet's frame duration is concealed; before any packet it
/// is silence; above 20 ms it goes in chunks; at or below, one snapped chunk.
pub open spec fn loss_plan(d: Decoder, offset: int, frame_size: int) -> (int, Seq<FrameJob>) {
    let u = unit(d.sampling_rate);
    let s = if frame_size < d.frame_size {
        frame_size
    } else {
        d.frame_size as int
    };
    match d.prev_mode {
        None => (s, seq![FrameJob::Silence { offset: offset as usize, samples: s as usize }]),
        Some(m) => if s > 8 * u {
            (s, chunk_jobs(offset, s, m, u))
        } else {
            let n = snapped(s, m, u);
            (n, seq![FrameJob::Conceal { offset: offset as usize, samples: n as usize, mode: m }])
        },
    }
}

/// The state after concealing a frame: once a mode is known, no redundant
/// frame and no final range are left.
pub open spec fn after_loss(d: Decoder) -> Decoder {
    match d.prev_mode {
        None => d,
        Some(_) => Decoder { prev_redundancy: false, final_range: 0, ..d },
    }
}

/// The jobs of concealing `frame_size` samples, from `done` on.
pub open spec fn conceal_plan(d: Decoder, done: int, frame_size: int) -> Seq<FrameJob>
    decreases frame_size - done,
{
    if done >= frame_size {
        seq![]
    } else {
        let (n, js) = loss_plan(d, done, frame_size - done);
        if n <= 0 {
            seq![]
        } else {
            js + conceal_plan(d, done + n, frame_size)
        }
    }
}

/// The state after concealing `frame_size` samples.
pub open spec fn concealed(d: Decoder, frame_size: int) -> Decoder {
    if frame_size == 0 {
        d
    } else {
        after_loss(d)
    }
}

/// The state after a decode call that conceals `frame_size` samples.
pub open spec fn concealed_call(d: Decoder, frame_size: usize) -> Decoder {
    Decoder { last_packet_duration: Some(frame_size), ..concealed(d, frame_size as int) }
}

/// What a decode call with in-band redundancy requested gives for the
/// packet `p`: where no redundancy can be there (the packet is longer than
/// the room, or the packet or the last one is transform-only) it is exactly
/// a concealment call; otherwise the lead is concealed and the packet's
/// header is taken on.
pub open spec fn fec_outcome(
    old: Decoder,
    new: Decoder,
    p: Seq<u8>,
    frame_size: usize,
    r: Result<(usize, Vec<FrameJob>), DecoderError>,
) -> bool {
    match parse_framing(p, false) {
        None => r == Err::<(usize, Vec<FrameJob>), DecoderError>(DecoderError::InvalidPacket),
        Some(f) => {
            let pfs = toc_samples_per_frame(p[0], old.sampling_rate.spec_hz());
            let impossible = frame_size < pfs || toc_mode(p[0]) == CodecMode::Celt || old.mode
                == Some(CodecMode::Celt);
            r matches Ok((n, jobs)) && n == frame_size && tiles(jobs@, 0, 0, n as int)
                && new.last_packet_duration == Some(frame_size) && (!impossible ==> {
                let lead = frame_size - pfs;
                let d = with_header(concealed(old, lead), p);
                &&& holds_header(new, p)
                &&& jobs@ == conceal_plan(old, 0, lead) + frame_jobs(d, f, 0, lead, frame_size as int, true)
                &&& new == (Decoder {
                    last_packet_duration: Some(frame_size),
                    ..after_frame(d, f.sizes[0])
                })
            }) && (impossible ==> jobs@ == conceal_plan(old, 0, frame_size as int) && new
                == concealed_call(old, frame_size))
        },
    }
}

/// The state after planning one frame of `len` bytes: a coded frame sets the
/// mode; an empty one is concealed.
pub open spec fn after_frame(d: Decoder, len: int) -> Decoder {
    if len <= 1 {
        after_loss(d)
    } else {
        Decoder { prev_mode: d.mode, prev_redundancy: false, final_range: 0, ..d }
    }
}

/// The jobs of frame `i` of a packet with framing `f`, planned after state
/// `d` at `done` samples with room for `frame_size`: a frame of one byte or
/// none is concealed, a longer one decoded from its bytes.
pub open spec fn frame_jobs(
    d: Decoder,
    f: Framing,
    i: int,
    done: int,
    frame_size: int,
    fec: bool,
) -> Seq<FrameJob> {
    let len = f.sizes[i];
    if len <= 1 {
        loss_plan(d, done, frame_size - done).1
    } else {
        seq![
            coded_job(
                d,
                d.mode.unwrap(),
                done as usize,
                (f.payload_offset + seq_sum(f.sizes.take(i))) as usize,
                len as usize,
                fec,
            ),
        ]
    }
}

/// The jobs and the final state of planning frames `i..` of a packet with
/// framing `f`, each one frame duration of state `d` long.
pub open spec fn frames_plan(d: Decoder, f: Framing, i: int, done: int, frame_size: int) -> (
    Seq<FrameJob>,
    Decoder,
)
    decreases f.sizes.len() - i,
{
    if i < 0 || i >= f.sizes.len() {
        (seq![], d)
    } else {
        let js = frame_jobs(d, f, i, done, frame_size, false);
        let rest = frames_plan(
            after_frame(d, f.sizes[i]),
            f,
            i + 1,
            done + d.frame_size,
            frame_size,
        );
        (js + rest.0, rest.1)
    }
}

/// `d` with the header of packet `p` taken on.
pub open spec fn with_header(d: Decoder, p: Seq<u8>) -> Decoder {
    Decoder {
        mode: Some(toc_mode(p[0])),
        bandwidth: Some(toc_bandwidth(p[0])),
        frame_size: toc_samples_per_frame(p[0], d.sampling_rate.spec_hz()) as usize,
        stream_channels: toc_channels(p[0]),
        ..d
    }
}

/// Sums and differences of multiples of `u` are multiples of `u`.
pub proof fn lemma_multiples(a: int, b: int, u: int)
    requires
        u > 0,
        a % u == 0,
        b % u == 0,
    ensures
        (a + b) % u == 0,
        (a - b) % u == 0,
{
    vstd::arithmetic::div_mod::lemma_add_mod_noop(a, b, u);
    vstd::arithmetic::div_mod::lemma_sub_mod_noop(a, b, u);
    assert(0int % u == 0);
}

/// `k * u` is a multiple of `u`, and a positive multiple is at least `u`.
pub proof fn lemma_times(k: int, u: int)
    requires
        u > 0,
    ensures
        (k * u) % u == 0,
        forall|x: int| #![trigger x % u] x > 0 && x % u == 0 ==> x >= u,
{
    vstd::arithmetic::div_mod::lemma_mod_multiples_basic(k, u);
    assert forall|x: int| #![trigger x % u] x > 0 && x % u == 0 implies x >= u by {
        vstd::arithmetic::div_mod::lemma_fundamental_div_mod(x, u);
        let q = x / u;
        assert(x == u * q);
        if q <= 0 {
            assert(u * q <= 0) by (nonlinear_arith)
                requires
                    u > 0,
                    q <= 0,
            ;
        } else {
            assert(u * q >= u) by (nonlinear_arith)
                requires
                    u > 0,
                    q >= 1,
            ;
        }
    }
}

/// A legal frame duration is a positive multiple of 2.5 ms.
pub proof fn lemma_legal_multiple(n: int, rate: SamplingRate)
    requires
        legal_frame_size(n, rate),
    ensures
        n % unit(rate) == 0,
        n >= unit(rate),
        unit(rate) >= 20,
        (2 * unit(rate)) % unit(rate) == 0,
        (4 * unit(rate)) % unit(rate) == 0,
        (8 * unit(rate)) % unit(rate) == 0,
        n <= 24 * unit(rate),
{
    let u = unit(rate);
    lemma_times(1, u);
    lemma_times(2, u);
    lemma_times(4, u);
    lemma_times(8, u);
    lemma_times(16, u);
    lemma_times(24, u);
}

impl Decoder {
    /// The decoder's invariant: it holds a frame duration that a packet can
    /// have, or 2.5 ms before the first packet.
    pub open spec fn wf(&self) -> bool {
        legal_frame_size(self.frame_size as int, self.sampling_rate)
    }

    /// The state of a decoder just created with these settings.
    pub open spec fn fresh(rate: SamplingRate, channels: Channels, gain: i16) -> Decoder {
        Decoder {
            sampling_rate: rate,
            channels,
            decode_gain: gain,
            stream_channels: channels,
            bandwidth: None,
            mode: None,
            prev_mode: None,
            frame_size: unit(rate) as usize,
            prev_redundancy: false,
            last_packet_duration: None,
            final_range: 0,
        }
    }

    /// Creates a decoder with the given configuration.
    pub fn new(configuration: &DecoderConfiguration) -> (r: Result<Self, DecoderError>)
        ensures
            r matches Ok(d) && d == Decoder::fresh(
                configuration.sampling_rate,
                configuration.channels,
                configuration.gain,
            ) && d.wf(),
    {
        Ok(Decoder {
            sampling_rate: configuration.sampling_rate,
            channels: configuration.channels,
            decode_gain: configuration.gain,
            stream_channels: configuration.channels,
            bandwidth: None,
            mode: None,
            prev_mode: None,
            frame_size: configuration.sampling_rate.hz() / 400,
            prev_redundancy: false,
            last_packet_duration: None,
            final_range: 0,
        })
    }

    /// Returns the decoder to the state of a freshly created one.
    pub fn reset(&mut self) -> (r: Result<(), DecoderError>)
        ensures
            r is Ok,
            *final(self) == Decoder::fresh(
                old(self).sampling_rate,
                old(self).channels,
                old(self).decode_gain,
            ),
            final(self).wf(),
    {
        self.stream_channels = self.channels;
        self.bandwidth = None;
        self.mode = None;
        self.prev_mode = None;
        self.frame_size = self.sampling_rate.hz() / 400;
        self.prev_redundancy = false;
        self.last_packet_duration = None;
        self.final_range = 0;
        Ok(())
    }

    /// Returns the sampling rate the decoder was created with.
    pub fn sampling_rate(&self) -> (r: SamplingRate)
        ensures
            r == self.sampling_rate,
    {
        self.sampling_rate
    }

    /// Returns the channels the decoder was created with.
    pub fn channels(&self) -> (r: Channels)
        ensures
            r == self.channels,
    {
        self.channels
    }

    /// Returns the output gain in Q8 dB.
    pub fn gain(&self) -> (r: i16)
        ensures
            r == self.decode_gain,
    {
        self.decode_gain
    }

    /// Returns the bandwidth of the last packet.
    pub fn bandwidth(&self) -> (r: Option<Bandwidth>)
        ensures
            r == self.bandwidth,
    {
        self.bandwidth
    }

    /// Returns the duration, in samples, of the last packet decoded or concealed.
    pub fn last_packet_duration(&self) -> (r: Option<usize>)
        ensures
            r == self.last_packet_duration,
    {
        self.last_packet_duration
    }

    /// Returns the final state of the last frame's entropy decoder.
    pub fn final_range(&self) -> (r: u32)
        ensures
            r == self.final_range,
    {
        self.final_range
    }

    /// Returns the pitch of the last frame, from the sub-codec that decoded
    /// it: `celt_pitch` from the transform one, `silk_pitch` from the other.
    pub fn pitch(&self, celt_pitch: u32, silk_pitch: u32) -> (r: Option<u32>)
        ensures
            r == match self.prev_mode {
                None => None,
                Some(CodecMode::Celt) => Some(celt_pitch),
                Some(_) => Some(silk_pitch),
            },
    {
        match self.prev_mode {
            None => None,
            Some(CodecMode::Celt) => Some(celt_pitch),
            Some(_) => Some(silk_pitch),
        }
    }


    /// Plans one concealment chunk of `size` samples, at most 20 ms, snapped
    /// down to a duration that concealment supports (10 ms, or 5 ms where
    /// the mode is not linear-prediction only).
    fn plan_loss_chunk(
        &mut self,
        offset: usize,
        size: usize,
        mode: CodecMode,
        jobs: &mut Vec<FrameJob>,
    ) -> (r: usize)
        requires
            unit(old(self).sampling_rate) <= size <= 8 * unit(old(self).sampling_rate),
            size as int % unit(old(self).sampling_rate) == 0,
            offset + size <= usize::MAX,
        ensures
            r == snapped(size as int, mode, unit(old(self).sampling_rate)),
            0 < r <= size,
            r as int % unit(old(self).sampling_rate) == 0,
            legal_frame_size(size as int, old(self).sampling_rate) ==> r == size,
            final(jobs)@ == old(jobs)@.push(FrameJob::Conceal { offset, samples: r, mode }),
            *final(self) == (Decoder { prev_redundancy: false, final_range: 0, ..*old(self) }),
    {
        let u = self.sampling_rate.hz() / 400;
        proof {
            lemma_legal_multiple(unit(self.sampling_rate), self.sampling_rate);
        }
        let mut n = size;
        if size < 8 * u {
            if size > 4 * u {
                n = 4 * u;
            } else if mode != CodecMode::Silk && size > 2 * u && size < 4 * u {
                n = 2 * u;
            }
        }
        jobs.push(FrameJob::Conceal { offset, samples: n, mode });
        self.prev_redundancy = false;
        self.final_range = 0;
        n
    }

    /// Plans the concealment of a lost or empty frame of at most
    /// `frame_size` samples at `offset`: no more than the last packet's
    /// frame duration, in chunks of at most 20 ms. Before any packet, plans
    /// silence.
    fn plan_loss(&mut self, offset: usize, frame_size: usize, jobs: &mut Vec<FrameJob>) -> (r:
        Result<usize, DecoderError>)
        requires
            old(self).wf(),
            frame_size as int % unit(old(self).sampling_rate) == 0,
            offset + frame_size <= usize::MAX,
        ensures
            final(self).wf(),
            frame_size >= unit(old(self).sampling_rate) ==> r == Ok::<usize, DecoderError>(
                loss_plan(*old(self), offset as int, frame_size as int).0 as usize,
            ) && final(jobs)@ == old(jobs)@ + loss_plan(*old(self), offset as int, frame_size as int).1
                && *final(self) == after_loss(*old(self)),
            frame_size < unit(old(self).sampling_rate) ==> r == Err::<usize, DecoderError>(
                DecoderError::FrameSizeTooSmall,
            ) && *final(self) == *old(self) && final(jobs)@ == old(jobs)@,
            frame_size >= unit(old(self).sampling_rate) ==> ({
                let m = if frame_size < old(self).frame_size {
                    frame_size as int
                } else {
                    old(self).frame_size as int
                };
                r matches Ok(n) && 0 < n <= m && n as int % unit(old(self).sampling_rate) == 0
                    && final(jobs)@.len() > old(jobs)@.len() && final(jobs)@.take(
                    old(jobs)@.len() as int,
                ) == old(jobs)@ && tiles(final(jobs)@, old(jobs)@.len() as int, offset as int, offset + n)
                    && (legal_frame_size(m, old(self).sampling_rate) ==> n == m) && (old(
                    self,
                ).prev_mode is None ==> n == m && *final(self) == *old(self) && forall|i: int|
                    old(jobs)@.len() <= i < final(jobs)@.len() ==> final(jobs)@[i] is Silence) && (old(
                    self,
                ).prev_mode is Some ==> *final(self) == (Decoder {
                    prev_redundancy: false,
                    final_range: 0,
                    ..*old(self)
                }))
            }),
    {
        let u = self.sampling_rate.hz() / 400;
        proof {
            lemma_legal_multiple(self.frame_size as int, self.sampling_rate);
        }
        if frame_size < u {
            return Err(DecoderError::FrameSizeTooSmall);
        }
        let fs = if frame_size < self.frame_size {
            frame_size
        } else {
            self.frame_size
        };
        let ghost l0 = jobs@.len();
        let ghost jobs0 = jobs@;
        match self.prev_mode {
            None => {
                jobs.push(FrameJob::Silence { offset, samples: fs });
                proof {
                    lemma_tiles_single(jobs0, FrameJob::Silence { offset, samples: fs });
                    assert(jobs@.take(l0 as int) =~= jobs0);
                    assert(jobs@ =~= jobs0 + seq![FrameJob::Silence { offset, samples: fs }]);
                }
                Ok(fs)
            },
            Some(mode) => {
                self.prev_redundancy = false;
                self.final_range = 0;
                if fs > 8 * u {
                    let mut done: usize = 0;
                    proof {
                        assert(jobs@.take(l0 as int) =~= jobs0);
                    }
                    while done < fs
                        invariant
                            done <= fs,
                            done % u == 0,
                            fs % u == 0,
                            u == unit(self.sampling_rate),
                            u > 0,
                            offset + fs <= usize::MAX,
                            jobs@.len() >= l0,
                            done > 0 ==> jobs@.len() > l0,
                            jobs@.take(l0 as int) == jobs0,
                            tiles(jobs@, l0 as int, offset as int, offset + done),
                            jobs@ + chunk_jobs(offset + done, fs - done, mode, u as int) == jobs0
                                + chunk_jobs(offset as int, fs as int, mode, u as int),
                            done > 0 || jobs@ == jobs0,
                            *self == (Decoder {
                                prev_redundancy: false,
                                final_range: 0,
                                ..*old(self)
                            }),
                            self.wf(),
                        decreases fs - done,
                    {
                        proof {
                            lemma_multiples(fs as int, done as int, u as int);
                            lemma_times(8, u as int);
                        }
                        let chunk = if fs - done < 8 * u {
                            fs - done
                        } else {
                            8 * u
                        };
                        let ghost before = jobs@;
                        let n = self.plan_loss_chunk(offset + done, chunk, mode, jobs);
                        proof {
                            lemma_tiles_single(
                                before,
                                FrameJob::Conceal { offset: (offset + done) as usize, samples: n, mode },
                            );
                            assert(jobs@.take(before.len() as int) =~= before);
                            lemma_tiles_concat(
                                before,
                                jobs@,
                                l0 as int,
                                offset as int,
                                offset + done,
                                offset + done + n,
                            );
                            assert(jobs@.take(l0 as int) =~= before.take(l0 as int));
                            lemma_multiples(done as int, n as int, u as int);
                            let j = FrameJob::Conceal { offset: (offset + done) as usize, samples: n, mode };
                            let rest = chunk_jobs(offset + done + n, fs - done - n, mode, u as int);
                            assert(chunk_jobs(offset + done, fs - done, mode, u as int) == seq![j] + rest);
                            assert(jobs@ + rest =~= before + (seq![j] + rest));
                        }
                        done = done + n;
                    }
                    Ok(fs)
                } else {
                    let n = self.plan_loss_chunk(offset, fs, mode, jobs);
                    proof {
                        lemma_tiles_single(jobs0, FrameJob::Conceal { offset, samples: n, mode });
                        assert(jobs@.take(l0 as int) =~= jobs0);
                        assert(jobs@ =~= jobs0 + seq![FrameJob::Conceal { offset, samples: n, mode }]);
                    }
                    Ok(n)
                }
            },
        }
    }


    /// Plans a coded frame of the last packet's mode, in bytes
    /// `[start, start + len)`, at `offset` with room for `frame_size` samples.
    fn plan_coded(
        &mut self,
        offset: usize,
        frame_size: usize,
        start: usize,
        len: usize,
        fec: bool,
        jobs: &mut Vec<FrameJob>,
    ) -> (r: Result<usize, DecoderError>)
        requires
            old(self).wf(),
            old(self).mode is Some,
        ensures
            final(self).wf(),
            same_settings(*old(self), *final(self)),
            frame_size < unit(old(self).sampling_rate) ==> r == Err::<usize, DecoderError>(
                DecoderError::FrameSizeTooSmall,
            ) && *final(self) == *old(self) && final(jobs)@ == old(jobs)@,
            frame_size >= unit(old(self).sampling_rate) && old(self).frame_size > frame_size ==> r
                == Err::<usize, DecoderError>(DecoderError::FrameSizeTooSmall) && final(jobs)@
                == old(jobs)@,
            frame_size >= unit(old(self).sampling_rate) && old(self).frame_size <= frame_size ==> r
                == Ok::<usize, DecoderError>(old(self).frame_size) && final(jobs)@ == old(
                jobs,
            )@.push(coded_job(*old(self), old(self).mode.unwrap(), offset, start, len, fec))
                && *final(self) == (Decoder {
                prev_mode: old(self).mode,
                prev_redundancy: false,
                final_range: 0,
                ..*old(self)
            }),
    {
        let u = self.sampling_rate.hz() / 400;
        if frame_size < u {
            return Err(DecoderError::FrameSizeTooSmall);
        }
        let mode = match self.mode {
            Some(m) => m,
            None => CodecMode::Celt,
        };
        let audiosize = self.frame_size;
        let prev = self.prev_mode;
        let transition = match prev {
            None => false,
            Some(p) => (mode == CodecMode::Celt && p != CodecMode::Celt && self.prev_redundancy) || (
            mode != CodecMode::Celt && p == CodecMode::Celt),
        };
        let celt_transition = transition && mode == CodecMode::Celt;
        if celt_transition {
            // The 5 ms concealed in the previous mode leaves its marks.
            self.prev_redundancy = false;
            self.final_range = 0;
        }
        if audiosize > frame_size {
            return Err(DecoderError::FrameSizeTooSmall);
        }
        let reset_silk = mode != CodecMode::Celt && prev == Some(CodecMode::Celt);
        let reset_celt = mode != CodecMode::Silk && prev.is_some() && prev != Some(mode)
            && !self.prev_redundancy;
        let end_band: u32 = match self.bandwidth {
            Some(Bandwidth::Narrowband) => 13,
            Some(Bandwidth::Mediumband) => 17,
            Some(Bandwidth::Wideband) => 17,
            Some(Bandwidth::Superwideband) => 19,
            _ => 21,
        };
        let silk_rate = if mode == CodecMode::Silk {
            match self.bandwidth {
                Some(Bandwidth::Narrowband) => SamplingRate::Hz8000,
                Some(Bandwidth::Mediumband) => SamplingRate::Hz12000,
                _ => SamplingRate::Hz16000,
            }
        } else {
            SamplingRate::Hz16000
        };
        jobs.push(
            FrameJob::Coded {
                offset,
                samples: audiosize,
                start,
                len,
                mode,
                fec,
                celt_transition,
                silk_transition: transition && mode != CodecMode::Celt,
                reset_silk,
                reset_celt,
                end_band,
                silk_rate,
                prev_mode: prev,
                prev_redundancy: self.prev_redundancy,
            },
        );
        self.prev_mode = Some(mode);
        self.prev_redundancy = false;
        self.final_range = 0;
        Ok(audiosize)
    }

    /// Plans one frame of a packet: a frame of one byte or none is
    /// concealed, a longer one decoded.
    fn plan_frame(
        &mut self,
        start: usize,
        len: usize,
        offset: usize,
        frame_size: usize,
        fec: bool,
        jobs: &mut Vec<FrameJob>,
    ) -> (r: Result<usize, DecoderError>)
        requires
            old(self).wf(),
            old(self).mode is Some,
            frame_size as int % unit(old(self).sampling_rate) == 0,
            offset + frame_size <= usize::MAX,
            old(self).frame_size <= frame_size,
        ensures
            final(self).wf(),
            same_settings(*old(self), *final(self)),
            final(self).mode == old(self).mode,
            final(self).frame_size == old(self).frame_size,
            final(self).bandwidth == old(self).bandwidth,
            final(self).stream_channels == old(self).stream_channels,
            final(self).last_packet_duration == old(self).last_packet_duration,
            r == Ok::<usize, DecoderError>(old(self).frame_size),
            final(jobs)@.len() > old(jobs)@.len(),
            final(jobs)@.take(old(jobs)@.len() as int) == old(jobs)@,
            tiles(
                final(jobs)@,
                old(jobs)@.len() as int,
                offset as int,
                offset + old(self).frame_size,
            ),
            len > 1 ==> final(jobs)@ == old(jobs)@.push(
                coded_job(*old(self), old(self).mode.unwrap(), offset, start, len, fec),
            ),
            len <= 1 ==> final(jobs)@ == old(jobs)@ + loss_plan(
                *old(self),
                offset as int,
                frame_size as int,
            ).1,
            *final(self) == after_frame(*old(self), len as int),
    {
        proof {
            lemma_legal_multiple(self.frame_size as int, self.sampling_rate);
        }
        if len <= 1 {
            self.plan_loss(offset, frame_size, jobs)
        } else {
            let ghost before = jobs@;
            let r = self.plan_coded(offset, frame_size, start, len, fec, jobs);
            proof {
                let j = coded_job(*old(self), old(self).mode.unwrap(), offset, start, len, fec);
                lemma_tiles_single(before, j);
                assert(jobs@.take(before.len() as int) =~= before);
            }
            r
        }
    }

    /// Plans the concealment of `frame_size` samples from the start of the
    /// output.
    fn conceal(&mut self, frame_size: usize, jobs: &mut Vec<FrameJob>)
        requires
            old(self).wf(),
            frame_size as int % unit(old(self).sampling_rate) == 0,
            old(jobs)@.len() == 0,
        ensures
            final(self).wf(),
            same_settings(*old(self), *final(self)),
            final(self).mode == old(self).mode,
            final(self).frame_size == old(self).frame_size,
            final(self).bandwidth == old(self).bandwidth,
            final(self).stream_channels == old(self).stream_channels,
            final(self).prev_mode == old(self).prev_mode,
            final(self).last_packet_duration == old(self).last_packet_duration,
            tiles(final(jobs)@, 0, 0, frame_size as int),
            old(self).prev_mode is None ==> all_silence(final(jobs)@) && *final(self) == *old(
                self,
            ),
            final(jobs)@ == conceal_plan(*old(self), 0, frame_size as int),
            *final(self) == concealed(*old(self), frame_size as int),
    {
        let u = self.sampling_rate.hz() / 400;
        proof {
            lemma_legal_multiple(self.frame_size as int, self.sampling_rate);
            lemma_times(1, u as int);
        }
        let mut sample_count: usize = 0;
        while sample_count < frame_size
            invariant
                sample_count <= frame_size,
                sample_count as int % u as int == 0,
                frame_size as int % u as int == 0,
                u == unit(self.sampling_rate),
                u >= 20,
                self.wf(),
                same_settings(*old(self), *self),
                self.mode == old(self).mode,
                self.frame_size == old(self).frame_size,
                self.bandwidth == old(self).bandwidth,
                self.stream_channels == old(self).stream_channels,
                self.prev_mode == old(self).prev_mode,
                self.last_packet_duration == old(self).last_packet_duration,
                tiles(jobs@, 0, 0, sample_count as int),
                old(self).prev_mode is None ==> all_silence(jobs@) && *self == *old(self),
                jobs@ + conceal_plan(*old(self), sample_count as int, frame_size as int)
                    == conceal_plan(*old(self), 0, frame_size as int),
                *self == (if sample_count == 0 {
                    *old(self)
                } else {
                    after_loss(*old(self))
                }),
            decreases frame_size - sample_count,
        {
            let ghost before = jobs@;
            proof {
                lemma_multiples(frame_size as int, sample_count as int, u as int);
                lemma_times(1, u as int);
            }
            let ghost st = *self;
            let n = match self.plan_loss(sample_count, frame_size - sample_count, jobs) {
                Ok(n) => n,
                Err(_) => 0,
            };
            proof {
                let lp = loss_plan(*old(self), sample_count as int, frame_size - sample_count);
                assert(loss_plan(st, sample_count as int, frame_size - sample_count) == lp);
                let rest = conceal_plan(*old(self), sample_count + n, frame_size as int);
                assert(conceal_plan(*old(self), sample_count as int, frame_size as int) == lp.1
                    + rest);
                assert(jobs@ + rest =~= before + (lp.1 + rest));
                lemma_tiles_concat(before, jobs@, 0, 0, sample_count as int, sample_count + n);
                lemma_multiples(sample_count as int, n as int, u as int);
                if old(self).prev_mode is None {
                    assert forall|i: int| 0 <= i < jobs@.len() implies jobs@[i] is Silence by {
                        if i < before.len() {
                            assert(jobs@[i] == jobs@.take(before.len() as int)[i]);
                        }
                    }
                }
            }
            sample_count = sample_count + n;
        }
        proof {
            assert(jobs@ + seq![] =~= jobs@);
        }
    }


    /// Decodes a packet, or conceals a lost one (`None`), into room for
    /// `frame_size` samples per channel; with `decode_fec`, decodes instead
    /// the in-band redundancy for the frame before the packet.
    ///
    /// Returns the samples per channel produced and the jobs that produce
    /// them, back to back from the start of the output. A call that fails
    /// leaves the decoder as it was.
    #[verifier::rlimit(80)]
    pub fn decode_native(&mut self, packet: Option<&[u8]>, frame_size: usize, decode_fec: bool) -> (r:
        Result<(usize, Vec<FrameJob>), DecoderError>)
        requires
            old(self).wf(),
        ensures
            final(self).wf(),
            same_settings(*old(self), *final(self)),
            r is Err ==> *final(self) == *old(self),
            frame_size as int % unit(old(self).sampling_rate) != 0 ==> r matches Err(
                DecoderError::BadArguments(_),
            ),
            frame_size as int % unit(old(self).sampling_rate) == 0 ==> match packet {
                None => r matches Ok((n, jobs)) && n == frame_size && tiles(jobs@, 0, 0, n as int)
                    && final(self).last_packet_duration == Some(frame_size) && (old(
                    self,
                ).prev_mode is None ==> all_silence(jobs@) && *final(self) == (Decoder {
                    last_packet_duration: Some(frame_size),
                    ..*old(self)
                })) && jobs@ == conceal_plan(*old(self), 0, frame_size as int) && *final(self)
                    == concealed_call(*old(self), frame_size),
                Some(p) => if p@.len() == 0 {
                    r matches Err(DecoderError::BadArguments(_))
                } else {
                    match parse_framing(p@, false) {
                        None => r == Err::<(usize, Vec<FrameJob>), DecoderError>(
                            DecoderError::InvalidPacket,
                        ),
                        Some(f) => {
                            let pfs = toc_samples_per_frame(
                                p@[0],
                                old(self).sampling_rate.spec_hz(),
                            );
                            let count = f.sizes.len();
                            if !decode_fec {
                                if count * pfs > frame_size {
                                    r == Err::<(usize, Vec<FrameJob>), DecoderError>(
                                        DecoderError::FrameSizeTooSmall,
                                    )
                                } else {
                                    r matches Ok((n, jobs)) && n == count * pfs && tiles(
                                        jobs@,
                                        0,
                                        0,
                                        n as int,
                                    ) && holds_header(*final(self), p@)
                                        && final(self).last_packet_duration == Some(n) && jobs@
                                        == frames_plan(
                                        with_header(*old(self), p@),
                                        f,
                                        0,
                                        0,
                                        frame_size as int,
                                    ).0 && *final(self) == (Decoder {
                                        last_packet_duration: Some(n),
                                        ..frames_plan(
                                            with_header(*old(self), p@),
                                            f,
                                            0,
                                            0,
                                            frame_size as int,
                                        ).1
                                    })
                                }
                            } else {
                                fec_outcome(*old(self), *final(self), p@, frame_size, r)
                            }
                        },
                    }
                },
            },
    {
        let u = self.sampling_rate.hz() / 400;
        if frame_size % u != 0 {
            return Err(
                DecoderError::BadArguments(
                    "frame_size must be a multiple of 2.5 ms of the sampling rate",
                ),
            );
        }
        let mut jobs: Vec<FrameJob> = Vec::new();
        match packet {
            None => {
                self.conceal(frame_size, &mut jobs);
                self.last_packet_duration = Some(frame_size);
                Ok((frame_size, jobs))
            },
            Some(p) => {
                if p.len() == 0 {
                    return Err(DecoderError::BadArguments("packet is empty"));
                }
                let packet_mode = query_packet_codec_mode(p);
                let packet_bandwidth = query_packet_bandwidth(p);
                let packet_frame_size = query_packet_samples_per_frame(p, self.sampling_rate);
                let packet_stream_channels = query_packet_channel_count(p);
                let parsed = match parse_packet(p, false) {
                    Ok(v) => v,
                    Err(e) => return Err(e),
                };
                proof {
                    crate::packet::lemma_framing_fills_packet(p@, false);
                    lemma_packet_frame_size_legal(p@[0], self.sampling_rate);
                    lemma_legal_multiple(packet_frame_size as int, self.sampling_rate);
                }
                let ghost f = parse_framing(p@, false).unwrap();
                if decode_fec {
                    if frame_size < packet_frame_size || packet_mode == CodecMode::Celt || self.mode
                        == Some(CodecMode::Celt) {
                        self.conceal(frame_size, &mut jobs);
                        self.last_packet_duration = Some(frame_size);
                        return Ok((frame_size, jobs));
                    }
                    let lead = frame_size - packet_frame_size;
                    proof {
                        lemma_multiples(frame_size as int, packet_frame_size as int, u as int);
                    }
                    self.conceal(lead, &mut jobs);
                    self.mode = Some(packet_mode);
                    self.bandwidth = Some(packet_bandwidth);
                    self.frame_size = packet_frame_size;
                    self.stream_channels = packet_stream_channels;
                    let ghost before = jobs@;
                    assert(*self == with_header(concealed(*old(self), lead as int), p@));
                    assert(parsed.sizes@[0] == f.sizes[0]);
                    let _ = self.plan_frame(
                        parsed.frames[0],
                        parsed.sizes[0],
                        lead,
                        packet_frame_size,
                        true,
                        &mut jobs,
                    );
                    proof {
                        lemma_tiles_concat(before, jobs@, 0, 0, lead as int, frame_size as int);
                        let d = with_header(concealed(*old(self), lead as int), p@);
                        let fj = frame_jobs(d, f, 0, lead as int, frame_size as int, true);
                        assert(parsed.frames@[0] == f.payload_offset + seq_sum(f.sizes.take(0)));
                        if parsed.sizes@[0] > 1 {
                            assert(jobs@ =~= before + fj);
                        } else {
                            assert(jobs@ == before + fj);
                        }
                        assert(before == conceal_plan(*old(self), 0, lead as int));
                    }
                    self.last_packet_duration = Some(frame_size);
                    Ok((frame_size, jobs))
                } else {
                    let count = parsed.count;
                    assert(count * packet_frame_size <= 63 * 2880) by (nonlinear_arith)
                        requires
                            count <= 63,
                            packet_frame_size <= 2880,
                    ;
                    if count * packet_frame_size > frame_size {
                        return Err(DecoderError::FrameSizeTooSmall);
                    }
                    self.mode = Some(packet_mode);
                    self.bandwidth = Some(packet_bandwidth);
                    self.frame_size = packet_frame_size;
                    self.stream_channels = packet_stream_channels;
                    let ghost committed = *self;
                    assert(committed == with_header(*old(self), p@));
                    let mut sample_count: usize = 0;
                    let mut i: usize = 0;
                    proof {
                        assert(jobs@ + frames_plan(committed, f, 0, 0, frame_size as int).0
                            =~= frames_plan(committed, f, 0, 0, frame_size as int).0);
                    }
                    while i < count
                        invariant
                            i <= count,
                            parsed.describes(f),
                            jobs@ + frames_plan(*self, f, i as int, sample_count as int, frame_size as int).0
                                == frames_plan(committed, f, 0, 0, frame_size as int).0,
                            frames_plan(*self, f, i as int, sample_count as int, frame_size as int).1
                                == frames_plan(committed, f, 0, 0, frame_size as int).1,
                            count == parsed.count,
                            count == parsed.sizes@.len(),
                            count == parsed.frames@.len(),
                            count * packet_frame_size <= frame_size,
                            sample_count == i * packet_frame_size,
                            packet_frame_size as int % u as int == 0,
                            frame_size as int % u as int == 0,
                            u == unit(self.sampling_rate),
                            u > 0,
                            self.wf(),
                            self.mode == Some(packet_mode),
                            self.frame_size == packet_frame_size,
                            self.bandwidth == Some(packet_bandwidth),
                            self.stream_channels == packet_stream_channels,
                            self.last_packet_duration == old(self).last_packet_duration,
                            same_settings(*old(self), *self),
                            tiles(jobs@, 0, 0, sample_count as int),
                        decreases count - i,
                    {
                        assert((i + 1) * packet_frame_size <= count * packet_frame_size)
                            by (nonlinear_arith)
                            requires
                                i < count,
                        ;
                        assert((i + 1) * packet_frame_size == i * packet_frame_size
                            + packet_frame_size) by (nonlinear_arith);
                        assert(sample_count as int % u as int == 0) by {
                            vstd::arithmetic::div_mod::lemma_fundamental_div_mod(
                                packet_frame_size as int,
                                u as int,
                            );
                            let q = packet_frame_size as int / u as int;
                            assert(sample_count == (i * q) * u) by (nonlinear_arith)
                                requires
                                    sample_count == i * packet_frame_size,
                                    packet_frame_size == u * q,
                            ;
                            vstd::arithmetic::div_mod::lemma_mod_multiples_basic(i * q, u as int);
                        }
                        proof {
                            lemma_multiples(frame_size as int, sample_count as int, u as int);
                        }
                        let ghost before = jobs@;
                        let ghost st = *self;
                        let _ = self.plan_frame(
                            parsed.frames[i],
                            parsed.sizes[i],
                            sample_count,
                            frame_size - sample_count,
                            false,
                            &mut jobs,
                        );
                        proof {
                            let js = frame_jobs(st, f, i as int, sample_count as int, frame_size as int, false);
                            let rest = frames_plan(
                                after_frame(st, f.sizes[i as int]),
                                f,
                                i + 1,
                                sample_count + packet_frame_size,
                                frame_size as int,
                            );
                            assert(f.sizes[i as int] == parsed.sizes@[i as int]);
                            assert(frames_plan(st, f, i as int, sample_count as int, frame_size as int)
                                == (js + rest.0, rest.1));
                            if parsed.sizes@[i as int] > 1 {
                                assert(jobs@ =~= before + js);
                            } else {
                                assert(jobs@ == before + js);
                            }
                            assert(jobs@ + rest.0 =~= before + (js + rest.0));
                            lemma_tiles_concat(
                                before,
                                jobs@,
                                0,
                                0,
                                sample_count as int,
                                sample_count + packet_frame_size,
                            );
                        }
                        sample_count = sample_count + packet_frame_size;
                        i = i + 1;
                    }
                    proof {
                        assert(jobs@ + seq![] =~= jobs@);
                    }
                    self.last_packet_duration = Some(sample_count);
                    Ok((sample_count, jobs))
                }
            },
        }
    }

    /// `decode_native`, with room for no more samples than the packet holds.
    ///
    /// A packet of more than 120 ms, or of no samples, is invalid.
    pub fn decode(&mut self, packet: Option<&[u8]>, frame_size: usize, decode_fec: bool) -> (r:
        Result<(usize, Vec<FrameJob>), DecoderError>)
        requires
            old(self).wf(),
        ensures
            final(self).wf(),
            same_settings(*old(self), *final(self)),
            r is Err ==> *final(self) == *old(self),
            frame_size as int % unit(old(self).sampling_rate) != 0 ==> r matches Err(
                DecoderError::BadArguments(_),
            ),
            packet is None && frame_size as int % unit(old(self).sampling_rate) == 0 ==> (r matches Ok(
                (n, jobs),
            ) && n == frame_size && tiles(jobs@, 0, 0, n as int) && (old(self).prev_mode is None
                ==> all_silence(jobs@))),
            r matches Ok((n, jobs)) ==> n <= frame_size && tiles(jobs@, 0, 0, n as int)
                && final(self).last_packet_duration == Some(n),
            frame_size as int % unit(old(self).sampling_rate) == 0 ==> match packet {
                None => r matches Ok((n, jobs)) && jobs@ == conceal_plan(
                    *old(self),
                    0,
                    frame_size as int,
                ) && *final(self) == concealed_call(*old(self), frame_size),
                Some(p) => if p@.len() == 0 {
                    r matches Err(DecoderError::BadArguments(_))
                } else if decode_fec {
                    fec_outcome(*old(self), *final(self), p@, frame_size, r)
                } else {
                    true
                },
            },
            match packet {
                None => true,
                Some(p) => {
                    let rate = old(self).sampling_rate.spec_hz();
                    !decode_fec && frame_size as int % unit(old(self).sampling_rate) == 0
                        && p@.len() > 0 ==> match packet_frame_count(p@) {
                        None => r == Err::<(usize, Vec<FrameJob>), DecoderError>(
                            DecoderError::InvalidPacket,
                        ),
                        Some(c) => {
                            let sc = c * toc_samples_per_frame(p@[0], rate);
                            if sc * 25 > rate * 3 || sc == 0 || parse_framing(p@, false) is None {
                                r == Err::<(usize, Vec<FrameJob>), DecoderError>(
                                    DecoderError::InvalidPacket,
                                )
                            } else if sc > frame_size {
                                r == Err::<(usize, Vec<FrameJob>), DecoderError>(
                                    DecoderError::FrameSizeTooSmall,
                                )
                            } else {
                                r matches Ok((n, jobs)) && n == sc && tiles(jobs@, 0, 0, n as int)
                                    && holds_header(*final(self), p@) && jobs@ == frames_plan(
                                    with_header(*old(self), p@),
                                    parse_framing(p@, false).unwrap(),
                                    0,
                                    0,
                                    sc as int,
                                ).0 && *final(self) == (Decoder {
                                    last_packet_duration: Some(n),
                                    ..frames_plan(
                                        with_header(*old(self), p@),
                                        parse_framing(p@, false).unwrap(),
                                        0,
                                        0,
                                        sc as int,
                                    ).1
                                })
                            }
                        },
                    }
                },
            },
    {
        let u = self.sampling_rate.hz() / 400;
        if frame_size % u != 0 {
            return Err(
                DecoderError::BadArguments(
                    "frame_size must be a multiple of 2.5 ms of the sampling rate",
                ),
            );
        }
        let mut frame_size = frame_size;
        if !decode_fec {
            if let Some(p) = packet {
                if p.len() == 0 {
                    return Err(DecoderError::BadArguments("packet is empty"));
                }
                let sample_count = match query_packet_sample_count(p, self.sampling_rate) {
                    Ok(n) => n,
                    Err(e) => return Err(e),
                };
                if sample_count == 0 {
                    return Err(DecoderError::InvalidPacket);
                }
                proof {
                    crate::packet::lemma_framing_fills_packet(p@, false);
                }
                if sample_count < frame_size {
                    proof {
                        lemma_packet_frame_size_legal(p@[0], self.sampling_rate);
                        let pfs = toc_samples_per_frame(p@[0], self.sampling_rate.spec_hz());
                        lemma_legal_multiple(pfs as int, self.sampling_rate);
                        let c = packet_frame_count(p@).unwrap() as int;
                        vstd::arithmetic::div_mod::lemma_fundamental_div_mod(pfs as int, u as int);
                        let q = pfs as int / u as int;
                        assert(sample_count == (c * q) * u) by (nonlinear_arith)
                            requires
                                sample_count == c * pfs,
                                pfs == u * q,
                        ;
                        vstd::arithmetic::div_mod::lemma_mod_multiples_basic(c * q, u as int);
                    }
                    frame_size = sample_count;
                }
            }
        }
        self.decode_native(packet, frame_size, decode_fec)
    }

    /// Records what the synthesis of a coded frame found: the redundant
    /// frame, the range of its entropy decoder (`None` where it read no coded
    /// data) and that of the redundant frame.
    pub fn complete_frame(
        &mut self,
        redundancy: Redundancy,
        coder_range: Option<u32>,
        redundant_range: u32,
    )
        ensures
            *final(self) == (Decoder {
                prev_redundancy: redundancy.present && !redundancy.celt_to_silk,
                final_range: frame_final_range(coder_range, redundant_range),
                ..*old(self)
            }),
    {
        self.prev_redundancy = redundancy.present && !redundancy.celt_to_silk;
        self.final_range = match coder_range {
            Some(r) => r ^ redundant_range,
            None => 0,
        };
    }
}

} // verus!
