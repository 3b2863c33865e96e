//! A decoder for the Opus audio codec: the range decoder shared by both
//! sub-codecs, the packet framing parser, and the decode orchestration state
//! machine, with their behaviour stated as contracts and proved.
mod math;

pub use math::{bitexact_cos, bitexact_log2tan, frac_mul16, ilog};
mod error;

pub use error::{DecoderError, EncoderError, OpusError};
mod packet;

pub use packet::{
    bandwidth_of_config, query_packet_bandwidth, query_packet_channel_count,
    query_packet_codec_mode, query_packet_frame_count, query_packet_sample_count,
    query_packet_samples_per_frame, Bandwidth, Channels, CodecMode, SamplingRate,
};
pub use packet::{lemma_framing_fills_packet, parse_packet, ParsedPacket};
mod range_coder;

pub use range_coder::{get_lapace_freq, tell, tell_frac};
mod range_decoder;

pub use range_decoder::RangeDecoder;
mod range_encoder;

pub use range_encoder::{
    lemma_coders_agree, lemma_coders_start_alike, lemma_raw_bits_agree, lemma_uint_agree,
    RangeEncoder,
};
mod decoder;

pub use decoder::{
    celt_start_band, detect_redundancy, hybrid_fade_needed, silk_transition_needed, Decoder,
    DecoderConfiguration, FrameJob, Redundancy,
};
mod subcodec;

pub use subcodec::{lost_flag, silk_failure_zero_fills, silk_payload_ms, CeltDecoder, LostFlag, SilkDecoder};
