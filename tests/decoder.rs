use opus::{
    celt_start_band, hybrid_fade_needed, silk_failure_zero_fills, silk_transition_needed,
    LostFlag, detect_redundancy, Bandwidth, Channels, CodecMode, Decoder, DecoderConfiguration,
    DecoderError, FrameJob, RangeDecoder, RangeEncoder, Redundancy, SamplingRate,
};

fn fresh() -> Decoder {
    Decoder::new(&DecoderConfiguration::default()).unwrap()
}

fn samples_of(job: &FrameJob) -> (usize, usize) {
    match *job {
        FrameJob::Silence { offset, samples } => (offset, samples),
        FrameJob::Conceal { offset, samples, .. } => (offset, samples),
        FrameJob::Coded { offset, samples, .. } => (offset, samples),
    }
}

fn assert_tiles(jobs: &[FrameJob], total: usize) {
    let mut at = 0;
    for job in jobs {
        let (offset, samples) = samples_of(job);
        assert_eq!(offset, at);
        assert!(samples > 0);
        at += samples;
    }
    assert_eq!(at, total);
}

// A transform-only, narrowband, 2.5 ms packet with one 11-byte frame.
const CELT_PACKET: &[u8] = &[
    0x80, 0xDA, 0x84, 0xE8, 0x87, 0x77, 0x83, 0xD6, 0x48, 0xB3, 0x6B, 0x45,
];

#[test]
fn configuration_defaults() {
    let c = DecoderConfiguration::default();
    assert_eq!(c.sampling_rate, SamplingRate::Hz48000);
    assert_eq!(c.channels, Channels::Stereo);
    assert_eq!(c.gain, 0);
    let d = fresh();
    assert_eq!(d.sampling_rate(), SamplingRate::Hz48000);
    assert_eq!(d.channels(), Channels::Stereo);
    assert_eq!(d.gain(), 0);
    assert_eq!(d.bandwidth(), None);
    assert_eq!(d.last_packet_duration(), None);
    assert_eq!(d.final_range(), 0);
    assert_eq!(d.pitch(7, 9), None);
}

#[test]
fn loss_before_any_packet_is_silence() {
    for frame_size in [120usize, 480, 960, 2880, 5760] {
        let mut d = fresh();
        let (n, jobs) = d.decode(None, frame_size, false).unwrap();
        assert_eq!(n, frame_size);
        assert!(jobs.iter().all(|j| matches!(j, FrameJob::Silence { .. })));
        assert_tiles(&jobs, frame_size);
        assert_eq!(d.last_packet_duration(), Some(frame_size));
        assert_eq!(d.bandwidth(), None);
    }
}

#[test]
fn misaligned_frame_size_is_rejected_without_change() {
    let mut d = fresh();
    d.decode(Some(CELT_PACKET), 960, false).unwrap();
    let before = (d.bandwidth(), d.last_packet_duration(), d.final_range());
    for frame_size in [1usize, 119, 121, 961] {
        for packet in [None, Some(CELT_PACKET)] {
            let r = d.decode(packet, frame_size, false);
            assert!(matches!(r, Err(DecoderError::BadArguments(_))));
            let r = d.decode_native(packet, frame_size, true);
            assert!(matches!(r, Err(DecoderError::BadArguments(_))));
        }
    }
    assert_eq!((d.bandwidth(), d.last_packet_duration(), d.final_range()), before);
}

#[test]
fn coded_packet_commits_header_state() {
    let mut d = fresh();
    let (n, jobs) = d.decode(Some(CELT_PACKET), 960, false).unwrap();
    assert_eq!(n, 120);
    assert_eq!(jobs.len(), 1);
    match jobs[0] {
        FrameJob::Coded { offset, samples, start, len, mode, fec, end_band, .. } => {
            assert_eq!((offset, samples, start, len), (0, 120, 1, 11));
            assert_eq!(mode, CodecMode::Celt);
            assert!(!fec);
            assert_eq!(end_band, 13);
        }
        _ => panic!("expected a coded frame"),
    }
    assert_eq!(d.bandwidth(), Some(Bandwidth::Narrowband));
    assert_eq!(d.last_packet_duration(), Some(120));
    assert_eq!(d.pitch(7, 9), Some(7));
}

#[test]
fn invalid_packets_leave_state_alone() {
    let mut d = fresh();
    assert!(matches!(d.decode(Some(&[]), 960, false), Err(DecoderError::BadArguments(_))));
    assert_eq!(
        d.decode_native(Some(&[0x81, 0xDA]), 960, false).unwrap_err(),
        DecoderError::InvalidPacket
    );
    assert_eq!(d.bandwidth(), None);
    assert_eq!(d.last_packet_duration(), None);
}

#[test]
fn frame_size_too_small_for_packet() {
    let mut d = fresh();
    // Transform-only 20 ms frame: 960 samples at 48 kHz.
    let packet = [0x98, 1, 2, 3];
    assert_eq!(
        d.decode_native(Some(&packet), 480, false).unwrap_err(),
        DecoderError::FrameSizeTooSmall
    );
    assert_eq!(d.bandwidth(), None);
    let (n, _) = d.decode_native(Some(&packet), 960, false).unwrap();
    assert_eq!(n, 960);
}

#[test]
fn concealment_after_a_packet_uses_its_mode_in_chunks() {
    let mut d = fresh();
    // Linear-prediction only, narrowband, 60 ms.
    let packet = [0x18, 5, 6, 7];
    let (n, jobs) = d.decode(Some(&packet), 2880, false).unwrap();
    assert_eq!(n, 2880);
    assert!(matches!(jobs[0], FrameJob::Coded { mode: CodecMode::Silk, silk_rate: SamplingRate::Hz8000, .. }));
    let (n, jobs) = d.decode(None, 2880, false).unwrap();
    assert_eq!(n, 2880);
    assert_eq!(jobs.len(), 3);
    assert!(jobs
        .iter()
        .all(|j| matches!(j, FrameJob::Conceal { samples: 960, mode: CodecMode::Silk, .. })));
    assert_tiles(&jobs, 2880);
}

#[test]
fn concealment_snaps_to_supported_durations() {
    let mut d = fresh();
    // Hybrid, superwideband, 20 ms.
    let packet = [0x68, 5, 6, 7];
    d.decode(Some(&packet), 960, false).unwrap();
    // 7.5 ms: 5 ms, then 2.5 ms.
    let (n, jobs) = d.decode(None, 360, false).unwrap();
    assert_eq!(n, 360);
    assert_eq!(
        jobs,
        vec![
            FrameJob::Conceal { offset: 0, samples: 240, mode: CodecMode::Hybrid },
            FrameJob::Conceal { offset: 240, samples: 120, mode: CodecMode::Hybrid },
        ]
    );
}

#[test]
fn mode_transition_is_flagged() {
    let mut d = fresh();
    d.decode(Some(CELT_PACKET), 960, false).unwrap();
    // Linear-prediction only after transform only.
    let packet = [0x08, 5, 6, 7];
    let (_, jobs) = d.decode(Some(&packet), 960, false).unwrap();
    match jobs[0] {
        FrameJob::Coded { silk_transition, celt_transition, reset_silk, .. } => {
            assert!(silk_transition);
            assert!(!celt_transition);
            assert!(reset_silk);
        }
        _ => panic!("expected a coded frame"),
    }
}

#[test]
fn forward_error_correction_conceals_the_lead() {
    let mut d = fresh();
    // Linear-prediction only, narrowband, 10 ms.
    let packet = [0x00, 5, 6, 7];
    d.decode(Some(&packet), 480, false).unwrap();
    // 10 ms packet, 20 ms requested: 10 ms concealed, then 10 ms of redundancy.
    let (n, jobs) = d.decode_native(Some(&packet), 960, true).unwrap();
    assert_eq!(n, 960);
    assert_tiles(&jobs, 960);
    assert!(matches!(jobs.last().unwrap(), FrameJob::Coded { fec: true, offset: 480, .. }));
    // No redundancy in transform-only packets: all concealed.
    let (n, jobs) = d.decode_native(Some(CELT_PACKET), 960, true).unwrap();
    assert_eq!(n, 960);
    assert!(jobs.iter().all(|j| matches!(j, FrameJob::Conceal { .. })));
}

#[test]
fn complete_frame_records_range_and_redundancy() {
    let mut d = fresh();
    let r = Redundancy { present: true, celt_to_silk: false, bytes: 3, len: 10 };
    d.complete_frame(r, Some(0x1234), 0x00FF);
    assert_eq!(d.final_range(), 0x12CB);
    d.complete_frame(r, None, 0x00FF);
    assert_eq!(d.final_range(), 0);
}

#[test]
fn reset_returns_to_fresh_state() {
    let mut d = fresh();
    d.decode(Some(CELT_PACKET), 960, false).unwrap();
    d.reset().unwrap();
    assert_eq!(d.bandwidth(), None);
    assert_eq!(d.last_packet_duration(), None);
    let (_, jobs) = d.decode(None, 480, false).unwrap();
    assert!(jobs.iter().all(|j| matches!(j, FrameJob::Silence { .. })));
}

#[test]
fn redundancy_needs_enough_bits() {
    let data = [0u8; 2];
    let mut dec = RangeDecoder::new(&data);
    let r = detect_redundancy(&mut dec, false, 2);
    assert_eq!(r, Redundancy { present: false, celt_to_silk: false, bytes: 0, len: 2 });
}

#[test]
fn redundancy_takes_the_rest_outside_hybrid() {
    let mut enc = RangeEncoder::new(vec![0u8; 20]);
    enc.encode_bit_logp(1, 1).unwrap();
    enc.done().unwrap();
    let mut dec = RangeDecoder::new(enc.buffer());
    let r = detect_redundancy(&mut dec, false, 20);
    assert!(r.present);
    assert!(r.celt_to_silk);
    assert_eq!(r.bytes + r.len, 20);
    assert_eq!(r.len, 1);
    assert_eq!(dec.storage, 1);
}

#[test]
fn redundancy_length_is_coded_in_hybrid() {
    let mut enc = RangeEncoder::new(vec![0u8; 40]);
    enc.encode_bit_logp(1, 12).unwrap();
    enc.encode_bit_logp(0, 1).unwrap();
    enc.encode_uint(10, 256).unwrap();
    enc.done().unwrap();
    let mut dec = RangeDecoder::new(enc.buffer());
    let r = detect_redundancy(&mut dec, true, 40);
    assert_eq!(r, Redundancy { present: true, celt_to_silk: false, bytes: 12, len: 28 });
    assert_eq!(dec.storage, 28);
}

#[test]
fn error_messages() {
    assert_eq!(DecoderError::InvalidPacket.message(), "invalid packet");
    assert_eq!(DecoderError::BadArguments("x").message(), "x");
    assert_eq!(opus::EncoderError::BufferToSmall.message(), "output buffer is too small");
    assert_eq!(opus::OpusError::FrameSizeTooSmall.message(), "the frame size is too small for the packet");
}

#[test]
fn decisions_around_redundancy() {
    assert_eq!(celt_start_band(CodecMode::Hybrid), 17);
    assert_eq!(celt_start_band(CodecMode::Silk), 17);
    assert_eq!(celt_start_band(CodecMode::Celt), 0);

    let mut d = fresh();
    // Hybrid, then linear-prediction only.
    d.decode(Some(&[0x68, 5, 6, 7]), 960, false).unwrap();
    let (_, jobs) = d.decode(Some(&[0x08, 5, 6, 7]), 960, false).unwrap();
    let none = Redundancy { present: false, celt_to_silk: false, bytes: 0, len: 3 };
    let into_silk = Redundancy { present: true, celt_to_silk: true, bytes: 2, len: 1 };
    assert!(hybrid_fade_needed(&jobs[0], &none));
    assert!(hybrid_fade_needed(&jobs[0], &into_silk));
    assert!(!silk_transition_needed(&jobs[0], &none));

    let mut d = fresh();
    d.decode(Some(CELT_PACKET), 960, false).unwrap();
    let (_, jobs) = d.decode(Some(&[0x08, 5, 6, 7]), 960, false).unwrap();
    assert!(silk_transition_needed(&jobs[0], &none));
    assert!(!silk_transition_needed(&jobs[0], &into_silk));
    assert!(!hybrid_fade_needed(&jobs[0], &none));
}

#[test]
fn silk_failures_fill_silence_only_in_concealment() {
    assert!(!silk_failure_zero_fills(LostFlag::NoLoss));
    assert!(silk_failure_zero_fills(LostFlag::Loss));
    assert!(silk_failure_zero_fills(LostFlag::DecodeFec));
}

#[test]
fn impossible_fec_equals_concealment() {
    let mut a = fresh();
    a.decode(Some(CELT_PACKET), 960, false).unwrap();
    let mut b = a;
    let ra = a.decode(Some(CELT_PACKET), 960, true).unwrap();
    let rb = b.decode(None, 960, false).unwrap();
    assert_eq!(ra, rb);
    assert_eq!(a.final_range(), 0);
    assert_eq!(a.last_packet_duration(), b.last_packet_duration());
}

#[test]
fn empty_packet_is_a_bad_argument_either_way() {
    let mut d = fresh();
    assert!(matches!(d.decode(Some(&[]), 960, true), Err(DecoderError::BadArguments(_))));
    assert!(matches!(d.decode(Some(&[]), 960, false), Err(DecoderError::BadArguments(_))));
}

#[test]
fn concealment_of_30_ms_snaps_to_10_ms() {
    let mut d = fresh();
    // Linear-prediction only, 40 ms.
    d.decode(Some(&[0x10, 5, 6, 7]), 1920, false).unwrap();
    // 30 ms: a 20 ms chunk, then 10 ms.
    let (n, jobs) = d.decode(None, 1440, false).unwrap();
    assert_eq!(n, 1440);
    assert_eq!(
        jobs,
        vec![
            FrameJob::Conceal { offset: 0, samples: 960, mode: CodecMode::Silk },
            FrameJob::Conceal { offset: 960, samples: 480, mode: CodecMode::Silk },
        ]
    );
    // 15 ms after a 20 ms frame: snapped to 10 ms, then the 5 ms left.
    let mut d = fresh();
    d.decode(Some(&[0x08, 5, 6, 7]), 960, false).unwrap();
    let (_, jobs) = d.decode(None, 720, false).unwrap();
    assert_eq!(
        jobs,
        vec![
            FrameJob::Conceal { offset: 0, samples: 480, mode: CodecMode::Silk },
            FrameJob::Conceal { offset: 480, samples: 240, mode: CodecMode::Silk },
        ]
    );
}

#[test]
fn redundancy_absent_in_hybrid() {
    let mut enc = RangeEncoder::new(vec![0u8; 40]);
    enc.encode_bit_logp(0, 12).unwrap();
    enc.done().unwrap();
    let mut dec = RangeDecoder::new(enc.buffer());
    let r = detect_redundancy(&mut dec, true, 40);
    assert_eq!(r, Redundancy { present: false, celt_to_silk: false, bytes: 0, len: 40 });
    assert_eq!(dec.storage, 40);
}
