use opus::{
    parse_packet, query_packet_bandwidth, query_packet_channel_count, query_packet_codec_mode,
    query_packet_frame_count, query_packet_sample_count, query_packet_samples_per_frame,
    Bandwidth, Channels, CodecMode, DecoderError, SamplingRate,
};

const TEST_PACKET_SINGLE: &[u8] = &[
    0x80, 0xDA, 0x84, 0xE8, 0x87, 0x77, 0x83, 0xD6, 0x48, 0xB3, 0x6B, 0x45,
];
const TEST_PACKET_CBR: &[u8] = &[
    0x81, 0xDA, 0x84, 0xE8, 0x87, 0x77, 0x83, 0xD6, 0x48, 0xB3, 0x6B,
];
const TEST_PACKET_VBR: &[u8] = &[
    0x82, 0x4, 0xDA, 0x84, 0xE8, 0x87, 0x77, 0x83, 0xD6, 0x48, 0xB3, 0x6B,
];
const TEST_PACKET_INVALID: &[u8] = &[0x81, 0xDA];

#[test]
fn test_query_packet_bandwidth() {
    let bandwidths: Vec<Bandwidth> = (0..32)
        .map(|c: u8| {
            let arr = [c << 3];
            query_packet_bandwidth(&arr)
        })
        .collect();

    assert_eq!(bandwidths.len(), 32);
    assert_eq!(bandwidths[0], Bandwidth::Narrowband);
    assert_eq!(bandwidths[1], Bandwidth::Narrowband);
    assert_eq!(bandwidths[2], Bandwidth::Narrowband);
    assert_eq!(bandwidths[3], Bandwidth::Narrowband);
    assert_eq!(bandwidths[4], Bandwidth::Mediumband);
    assert_eq!(bandwidths[5], Bandwidth::Mediumband);
    assert_eq!(bandwidths[6], Bandwidth::Mediumband);
    assert_eq!(bandwidths[7], Bandwidth::Mediumband);
    assert_eq!(bandwidths[8], Bandwidth::Wideband);
    assert_eq!(bandwidths[9], Bandwidth::Wideband);
    assert_eq!(bandwidths[10], Bandwidth::Wideband);
    assert_eq!(bandwidths[11], Bandwidth::Wideband);
    assert_eq!(bandwidths[12], Bandwidth::Superwideband);
    assert_eq!(bandwidths[13], Bandwidth::Superwideband);
    assert_eq!(bandwidths[14], Bandwidth::Fullband);
    assert_eq!(bandwidths[15], Bandwidth::Fullband);
    assert_eq!(bandwidths[16], Bandwidth::Narrowband);
    assert_eq!(bandwidths[17], Bandwidth::Narrowband);
    assert_eq!(bandwidths[18], Bandwidth::Narrowband);
    assert_eq!(bandwidths[19], Bandwidth::Narrowband);
    assert_eq!(bandwidths[20], Bandwidth::Wideband);
    assert_eq!(bandwidths[21], Bandwidth::Wideband);
    assert_eq!(bandwidths[22], Bandwidth::Wideband);
    assert_eq!(bandwidths[23], Bandwidth::Wideband);
    assert_eq!(bandwidths[24], Bandwidth::Superwideband);
    assert_eq!(bandwidths[25], Bandwidth::Superwideband);
    assert_eq!(bandwidths[26], Bandwidth::Superwideband);
    assert_eq!(bandwidths[27], Bandwidth::Superwideband);
    assert_eq!(bandwidths[28], Bandwidth::Fullband);
    assert_eq!(bandwidths[29], Bandwidth::Fullband);
    assert_eq!(bandwidths[30], Bandwidth::Fullband);
    assert_eq!(bandwidths[31], Bandwidth::Fullband);
}

#[test]
fn test_query_packet_channel_count() {
    assert_eq!(query_packet_channel_count(&[0]), Channels::Mono);
    assert_eq!(query_packet_channel_count(&[0x4]), Channels::Stereo);
}

#[test]
fn test_query_packet_frame_count() {
    assert_eq!(query_packet_frame_count(&[0]).unwrap(), 1);
    assert_eq!(query_packet_frame_count(&[1]).unwrap(), 2);
    assert_eq!(query_packet_frame_count(&[2]).unwrap(), 2);
    assert!(query_packet_frame_count(&[3]).is_err());
    assert_eq!(query_packet_frame_count(&[3, 5]).unwrap(), 5);
}

#[test]
fn test_query_packet_samples_per_frame() {
    let frame_sizes: Vec<usize> = (0..32)
        .map(|c: u8| {
            let arr = [c << 3];
            query_packet_samples_per_frame(&arr, SamplingRate::Hz48000)
        })
        .collect();

    assert_eq!(frame_sizes.len(), 32);
    assert_eq!(frame_sizes[0], 480);
    assert_eq!(frame_sizes[1], 960);
    assert_eq!(frame_sizes[2], 1920);
    assert_eq!(frame_sizes[3], 2880);
    assert_eq!(frame_sizes[4], 480);
    assert_eq!(frame_sizes[5], 960);
    assert_eq!(frame_sizes[6], 1920);
    assert_eq!(frame_sizes[7], 2880);
    assert_eq!(frame_sizes[8], 480);
    assert_eq!(frame_sizes[9], 960);
    assert_eq!(frame_sizes[10], 1920);
    assert_eq!(frame_sizes[11], 2880);
    assert_eq!(frame_sizes[12], 480);
    assert_eq!(frame_sizes[13], 960);
    assert_eq!(frame_sizes[14], 480);
    assert_eq!(frame_sizes[15], 960);
    assert_eq!(frame_sizes[16], 120);
    assert_eq!(frame_sizes[17], 240);
    assert_eq!(frame_sizes[18], 480);
    assert_eq!(frame_sizes[19], 960);
    assert_eq!(frame_sizes[20], 120);
    assert_eq!(frame_sizes[21], 240);
    assert_eq!(frame_sizes[22], 480);
    assert_eq!(frame_sizes[23], 960);
    assert_eq!(frame_sizes[24], 120);
    assert_eq!(frame_sizes[25], 240);
    assert_eq!(frame_sizes[26], 480);
    assert_eq!(frame_sizes[27], 960);
    assert_eq!(frame_sizes[28], 120);
    assert_eq!(frame_sizes[29], 240);
    assert_eq!(frame_sizes[30], 480);
    assert_eq!(frame_sizes[31], 960);
}

#[test]
fn test_query_packet_sample_count() {
    assert_eq!(
        query_packet_sample_count(&[70], SamplingRate::Hz48000).unwrap(),
        960
    );
    assert!(query_packet_sample_count(&[3], SamplingRate::Hz48000).is_err());
    assert_eq!(
        query_packet_sample_count(&[255, 5], SamplingRate::Hz48000).unwrap(),
        4800
    );
}

#[test]
fn test_parse_packet_with_single_frame() {
    let parsed = parse_packet(TEST_PACKET_SINGLE, false).unwrap();

    assert_eq!(parsed.count, 1);
    assert_eq!(parsed.frames[0], 1);
    assert_eq!(parsed.sizes[0], 11);
    assert_eq!(parsed.payload_offset, 1);
    assert_eq!(parsed.packet_offset, 12);
}

#[test]
fn test_parse_packet_with_two_cbr_frames() {
    let parsed = parse_packet(TEST_PACKET_CBR, false).unwrap();

    assert_eq!(parsed.count, 2);
    assert_eq!(parsed.frames[0], 1);
    assert_eq!(parsed.sizes[0], 5);
    assert_eq!(parsed.frames[1], 6);
    assert_eq!(parsed.sizes[1], 5);
    assert_eq!(parsed.payload_offset, 1);
    assert_eq!(parsed.packet_offset, 11);
}

#[test]
fn test_parse_packet_with_two_vbr_frames() {
    let parsed = parse_packet(TEST_PACKET_VBR, false).unwrap();

    assert_eq!(parsed.count, 2);
    assert_eq!(parsed.frames[0], 2);
    assert_eq!(parsed.sizes[0], 4);
    assert_eq!(parsed.frames[1], 6);
    assert_eq!(parsed.sizes[1], 6);
    assert_eq!(parsed.payload_offset, 2);
    assert_eq!(parsed.packet_offset, 12);
}

#[test]
fn test_parse_packet_invalid_frame() {
    assert!(parse_packet(TEST_PACKET_INVALID, false).is_err())
}

#[test]
fn query_packet_codec_mode_by_configuration() {
    assert_eq!(query_packet_codec_mode(&[0x00]), CodecMode::Silk);
    assert_eq!(query_packet_codec_mode(&[0x60]), CodecMode::Hybrid);
    assert_eq!(query_packet_codec_mode(&[0x80]), CodecMode::Celt);
}

#[test]
fn parse_packet_rejects_empty_and_zero_count() {
    assert_eq!(parse_packet(&[], false).unwrap_err(), DecoderError::InvalidPacket);
    assert_eq!(parse_packet(&[0x83, 0x00], false).unwrap_err(), DecoderError::InvalidPacket);
}

#[test]
fn parse_packet_code3_cbr_and_padding() {
    // Three 2-byte frames, two bytes of padding (count byte: padding flag, CBR).
    let packet = [0x83, 0x43, 0x02, 1, 2, 3, 4, 5, 6, 0, 0];
    let parsed = parse_packet(&packet, false).unwrap();
    assert_eq!(parsed.count, 3);
    assert_eq!(parsed.sizes, vec![2, 2, 2]);
    assert_eq!(parsed.frames, vec![3, 5, 7]);
    assert_eq!(parsed.payload_offset, 3);
    assert_eq!(parsed.packet_offset, 11);
}

#[test]
fn parse_packet_code3_vbr() {
    // Two frames, VBR: first of 1 byte, last gets the remaining 3.
    let packet = [0x83, 0x82, 0x01, 9, 8, 7, 6];
    let parsed = parse_packet(&packet, false).unwrap();
    assert_eq!(parsed.sizes, vec![1, 3]);
    assert_eq!(parsed.frames, vec![3, 4]);
    assert_eq!(parsed.packet_offset, 7);
}

#[test]
fn parse_packet_two_byte_size_field() {
    // A VBR size field of 252 or more takes two bytes: 4 * 1 + 252 = 256.
    let mut packet = vec![0x82, 252, 1];
    packet.extend(std::iter::repeat(7u8).take(256 + 5));
    let parsed = parse_packet(&packet, false).unwrap();
    assert_eq!(parsed.sizes, vec![256, 5]);
    assert_eq!(parsed.payload_offset, 3);
    // Truncated size field.
    assert!(parse_packet(&[0x82, 253], false).is_err());
}

#[test]
fn parse_packet_self_delimited() {
    // One frame whose size, 3, is given explicitly; one byte follows.
    let packet = [0x80, 3, 1, 2, 3, 99];
    let parsed = parse_packet(&packet, true).unwrap();
    assert_eq!(parsed.sizes, vec![3]);
    assert_eq!(parsed.payload_offset, 2);
    assert_eq!(parsed.packet_offset, 5);
    // Two CBR frames of the explicit size.
    let packet = [0x81, 2, 1, 2, 3, 4];
    let parsed = parse_packet(&packet, true).unwrap();
    assert_eq!(parsed.sizes, vec![2, 2]);
    assert_eq!(parsed.frames, vec![2, 4]);
}

#[test]
fn parse_packet_rejects_oversized_last_frame() {
    let mut packet = vec![0x80];
    packet.extend(std::iter::repeat(0u8).take(1276));
    assert!(parse_packet(&packet, false).is_err());
    packet.pop();
    assert_eq!(parse_packet(&packet, false).unwrap().sizes, vec![1275]);
}

#[test]
fn parse_packet_rejects_over_120_ms() {
    // 20 ms frames: 7 of them exceed 120 ms.
    let packet = [0x9B, 0x07, 0, 0, 0, 0, 0, 0, 0];
    assert!(parse_packet(&packet, false).is_err());
    let packet = [0x9B, 0x06, 0, 0, 0, 0, 0, 0];
    assert_eq!(parse_packet(&packet, false).unwrap().count, 6);
}

#[test]
fn parsed_packets_account_for_every_byte() {
    let packets: Vec<Vec<u8>> = vec![
        TEST_PACKET_SINGLE.to_vec(),
        TEST_PACKET_CBR.to_vec(),
        TEST_PACKET_VBR.to_vec(),
        vec![0x83, 0x43, 0x02, 1, 2, 3, 4, 5, 6, 0, 0],
        vec![0x83, 0xC2, 0x01, 0x02, 9, 8, 7, 6, 0],
    ];
    for packet in packets {
        let parsed = parse_packet(&packet, false).unwrap();
        let total: usize = parsed.sizes.iter().sum();
        let padding = parsed.packet_offset - parsed.payload_offset - total;
        assert_eq!(parsed.payload_offset + total + padding, packet.len());
        assert_eq!(parsed.packet_offset, packet.len());
    }
}
