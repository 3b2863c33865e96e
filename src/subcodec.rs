//! The settings that the decode orchestrator hands to the two sub-codecs.
//! Their synthesis is not part of this library.
use vstd::prelude::*;
use crate::error::{DecoderError, OpusError};
use crate::packet::{Channels, SamplingRate};

verus! {

/// How a frame reaches the linear-prediction sub-codec.
#[derive(Clone, Copy, Debug, PartialEq, Eq, Structural)]
pub enum LostFlag {
    /// The frame arrived.
    NoLoss,
    /// The frame was lost: conceal it.
    Loss,
    /// Decode the frame from the next packet's redundancy.
    DecodeFec,
}

/// The flag for a frame: lost where there is no packet, redundancy where
/// it was asked for, else a frame that arrived.
pub fn lost_flag(has_packet: bool, decode_fec: bool) -> (r: LostFlag)
    ensures
        r == (if !has_packet {
            LostFlag::Loss
        } else if decode_fec {
            LostFlag::DecodeFec
        } else {
            LostFlag::NoLoss
        }),
{
    if !has_packet {
        LostFlag::Loss
    } else if decode_fec {
        LostFlag::DecodeFec
    } else {
        LostFlag::NoLoss
    }
}

/// Whether a failure of the linear-prediction sub-codec is replaced by
/// silence: in concealment and redundancy decoding it is, since they must not
/// abort a stream; a frame that arrived reports the failure.
pub fn silk_failure_zero_fills(flag: LostFlag) -> (r: bool)
    ensures
        r == (flag != LostFlag::NoLoss),
{
    flag != LostFlag::NoLoss
}

/// The payload duration, in ms, given to the linear-prediction sub-codec for
/// `samples` samples at `rate`: at least 10 ms, below which it cannot conceal.
pub fn silk_payload_ms(samples: usize, rate: SamplingRate) -> (r: usize)
    requires
        samples <= 0x10_0000,
    ensures
        r == (if (1000 * samples as int) / (rate.spec_hz() as int) < 10 {
            10
        } else {
            (1000 * samples as int) / (rate.spec_hz() as int)
        }),
{
    let ms = 1000 * samples / rate.hz();
    if ms < 10 {
        10
    } else {
        ms
    }
}

/// The settings of the transform sub-codec.
#[derive(Clone, Copy, Debug)]
pub struct CeltDecoder {
    /// The first band decoded.
    pub start: u32,
    /// The last band decoded.
    pub end: u32,
    /// The channels of the stream.
    pub stream_channels: Channels,
    /// The final range of the last frame.
    pub rng: u32,
}

impl CeltDecoder {
    /// Creates the settings for a decoder with the given output channels:
    /// all bands, no frame yet.
    pub fn new(sampling_rate: SamplingRate, channels: Channels) -> (r: Result<Self, OpusError>)
        ensures
            r == Ok::<CeltDecoder, OpusError>(
                CeltDecoder { start: 0, end: 21, stream_channels: channels, rng: 0 },
            ),
    {
        Ok(CeltDecoder { start: 0, end: 21, stream_channels: channels, rng: 0 })
    }

    /// Returns to all bands and no frame.
    pub fn reset(&mut self) -> (r: Result<(), OpusError>)
        ensures
            r is Ok,
            *final(self) == (CeltDecoder { start: 0, end: 21, rng: 0, ..*old(self) }),
    {
        self.start = 0;
        self.end = 21;
        self.rng = 0;
        Ok(())
    }

    /// Returns the final range of the last frame.
    pub fn final_range(&self) -> (r: u32)
        ensures
            r == self.rng,
    {
        self.rng
    }

    /// Sets the last band decoded.
    pub fn set_end_band(&mut self, end_band: u32)
        ensures
            *final(self) == (CeltDecoder { end: end_band, ..*old(self) }),
    {
        self.end = end_band;
    }

    /// Sets the first band decoded.
    pub fn set_start_band(&mut self, start_band: u32)
        ensures
            *final(self) == (CeltDecoder { start: start_band, ..*old(self) }),
    {
        self.start = start_band;
    }

    /// Sets the channels of the stream.
    pub fn set_stream_channels(&mut self, channels: Channels)
        ensures
            *final(self) == (CeltDecoder { stream_channels: channels, ..*old(self) }),
    {
        self.stream_channels = channels;
    }
}

/// The settings of the linear-prediction sub-codec.
#[derive(Clone, Copy, Debug)]
pub struct SilkDecoder {
    /// The output rate.
    pub sampling_rate: SamplingRate,
    /// The output channels.
    pub channels: Channels,
    /// The rate the stream was coded at.
    pub internal_sampling_rate: SamplingRate,
    /// The channels the stream was coded with.
    pub internal_channels: Channels,
    /// The payload duration in ms.
    pub payload_size_ms: usize,
}

impl SilkDecoder {
    /// Creates the settings for the given output rate and channels.
    pub fn new(sampling_rate: SamplingRate, channels: Channels) -> (r: Result<Self, DecoderError>)
        ensures
            r == Ok::<SilkDecoder, DecoderError>(
                SilkDecoder {
                    sampling_rate,
                    channels,
                    internal_sampling_rate: SamplingRate::Hz48000,
                    internal_channels: Channels::Stereo,
                    payload_size_ms: 0,
                },
            ),
    {
        Ok(
            SilkDecoder {
                sampling_rate,
                channels,
                internal_sampling_rate: SamplingRate::Hz48000,
                internal_channels: Channels::Stereo,
                payload_size_ms: 0,
            },
        )
    }

    /// Returns the settings to those of a new decoder.
    pub fn reset(&mut self) -> (r: Result<(), DecoderError>)
        ensures
            r is Ok,
            *final(self) == (SilkDecoder {
                internal_sampling_rate: SamplingRate::Hz48000,
                internal_channels: Channels::Stereo,
                payload_size_ms: 0,
                ..*old(self)
            }),
    {
        self.internal_sampling_rate = SamplingRate::Hz48000;
        self.internal_channels = Channels::Stereo;
        self.payload_size_ms = 0;
        Ok(())
    }

    /// Sets the channels the stream was coded with.
    pub fn internal_channels(&mut self, internal_channels: Channels)
        ensures
            *final(self) == (SilkDecoder { internal_channels, ..*old(self) }),
    {
        self.internal_channels = internal_channels;
    }

    /// Sets the channels the stream was coded with.
    pub fn set_internal_channels(&mut self, internal_channels: Channels)
        ensures
            *final(self) == (SilkDecoder { internal_channels, ..*old(self) }),
    {
        self.internal_channels = internal_channels;
    }

    /// Sets the rate the stream was coded at.
    pub fn set_internal_sampling_rate(&mut self, sampling_rate: SamplingRate)
        ensures
            *final(self) == (SilkDecoder { internal_sampling_rate: sampling_rate, ..*old(self) }),
    {
        self.internal_sampling_rate = sampling_rate;
    }

    /// Sets the payload duration in ms.
    pub fn set_payload_size_ms(&mut self, payload_size_ms: usize)
        ensures
            *final(self) == (SilkDecoder { payload_size_ms, ..*old(self) }),
    {
        self.payload_size_ms = payload_size_ms;
    }
}

} // verus!
