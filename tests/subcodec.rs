use opus::{
    bandwidth_of_config, lost_flag, silk_payload_ms, Bandwidth, CeltDecoder, Channels,
    Decoder, DecoderConfiguration, DecoderError, EncoderError, LostFlag, RangeEncoder,
    SamplingRate, SilkDecoder,
};

#[test]
fn celt_settings() {
    let mut c = CeltDecoder::new(SamplingRate::Hz48000, Channels::Mono).unwrap();
    assert_eq!((c.start, c.end, c.final_range()), (0, 21, 0));
    c.set_start_band(17);
    c.set_end_band(13);
    c.set_stream_channels(Channels::Stereo);
    assert_eq!((c.start, c.end, c.stream_channels), (17, 13, Channels::Stereo));
    c.reset().unwrap();
    assert_eq!((c.start, c.end), (0, 21));
    assert_eq!(c.stream_channels, Channels::Stereo);
}

#[test]
fn silk_settings() {
    let mut s = SilkDecoder::new(SamplingRate::Hz16000, Channels::Mono).unwrap();
    s.set_internal_sampling_rate(SamplingRate::Hz8000);
    s.set_internal_channels(Channels::Mono);
    s.set_payload_size_ms(20);
    assert_eq!(s.internal_sampling_rate, SamplingRate::Hz8000);
    assert_eq!(s.internal_channels, Channels::Mono);
    assert_eq!(s.payload_size_ms, 20);
    s.internal_channels(Channels::Stereo);
    assert_eq!(s.internal_channels, Channels::Stereo);
    s.reset().unwrap();
    assert_eq!(s.internal_sampling_rate, SamplingRate::Hz48000);
    assert_eq!(s.payload_size_ms, 0);
    assert_eq!(s.sampling_rate, SamplingRate::Hz16000);
}

#[test]
fn lost_flags() {
    assert_eq!(lost_flag(false, false), LostFlag::Loss);
    assert_eq!(lost_flag(false, true), LostFlag::Loss);
    assert_eq!(lost_flag(true, true), LostFlag::DecodeFec);
    assert_eq!(lost_flag(true, false), LostFlag::NoLoss);
}

#[test]
fn payload_durations() {
    assert_eq!(silk_payload_ms(120, SamplingRate::Hz48000), 10);
    assert_eq!(silk_payload_ms(960, SamplingRate::Hz48000), 20);
    assert_eq!(silk_payload_ms(960, SamplingRate::Hz16000), 60);
}

#[test]
fn bandwidth_table() {
    assert_eq!(bandwidth_of_config(0), Bandwidth::Narrowband);
    assert_eq!(bandwidth_of_config(13), Bandwidth::Superwideband);
    assert_eq!(bandwidth_of_config(15), Bandwidth::Fullband);
    assert_eq!(bandwidth_of_config(21), Bandwidth::Wideband);
    assert_eq!(bandwidth_of_config(31), Bandwidth::Fullband);
}

#[test]
fn patch_before_enough_bits_fails() {
    let mut enc = RangeEncoder::new(vec![0_u8; 8]);
    assert!(matches!(
        enc.patch_initial_bits(1, 2),
        Err(EncoderError::InternalError(_))
    ));
}

#[test]
fn packet_without_samples_is_invalid() {
    let mut d = Decoder::new(&DecoderConfiguration::default()).unwrap();
    // Code 3 with a frame count of zero.
    assert_eq!(
        d.decode(Some(&[0x83, 0x00]), 960, false).unwrap_err(),
        DecoderError::InvalidPacket
    );
    // More than 120 ms.
    assert_eq!(
        d.decode(Some(&[0x9B, 0x07, 0, 0, 0, 0, 0, 0, 0]), 5760, false).unwrap_err(),
        DecoderError::InvalidPacket
    );
}

#[test]
fn lower_rates_use_their_own_units() {
    let config = DecoderConfiguration {
        sampling_rate: SamplingRate::Hz8000,
        channels: Channels::Mono,
        gain: 0,
    };
    let mut d = Decoder::new(&config).unwrap();
    // 2.5 ms at 8 kHz is 20 samples.
    assert!(d.decode(None, 30, false).is_err());
    let (n, _) = d.decode(None, 40, false).unwrap();
    assert_eq!(n, 40);
    // A 20 ms transform-only packet is 160 samples at 8 kHz.
    let (n, _) = d.decode(Some(&[0x98, 1, 2, 3]), 160, false).unwrap();
    assert_eq!(n, 160);
}
