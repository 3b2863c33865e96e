//! Error types of the decoder, the encoder, and the codec as a whole.
use vstd::prelude::*;

verus! {

/// Errors returned by the decoder.
#[derive(Debug, Clone, Copy, PartialEq, Eq)]
pub enum DecoderError {
    /// The caller's arguments break the decoder's contract.
    BadArguments(&'static str),
    /// The packet's header or size fields are malformed.
    InvalidPacket,
    /// The requested frame size cannot hold the packet's audio.
    FrameSizeTooSmall,
    /// The sample buffer is too small.
    BufferToSmall,
    /// An internal consistency check failed.
    InternalError(&'static str),
}

/// Errors returned by the range encoder.
#[derive(Debug, Clone, Copy, PartialEq, Eq)]
pub enum EncoderError {
    /// The output buffer is too small.
    BufferToSmall,
    /// An internal consistency check failed.
    InternalError(&'static str),
}

/// Errors of the codec as a whole.
#[derive(Debug, Clone, Copy, PartialEq, Eq)]
pub enum OpusError {
    /// The caller's arguments break a contract.
    BadArguments(&'static str),
    /// The packet's header or size fields are malformed.
    InvalidPacket,
    /// The requested frame size cannot hold the packet's audio.
    FrameSizeTooSmall,
    /// A buffer is too small.
    BufferToSmall,
    /// An internal consistency check failed.
    InternalError(&'static str),
}

impl DecoderError {
    /// A human-readable description of the error.
    pub fn message(&self) -> (r: &'static str) {
        match self {
            DecoderError::BadArguments(message) => message,
            DecoderError::InternalError(message) => message,
            DecoderError::BufferToSmall => "Sample buffer is too small",
            DecoderError::FrameSizeTooSmall => "the frame size is too small for the packet",
            DecoderError::InvalidPacket => "invalid packet",
        }
    }
}

impl EncoderError {
    /// A human-readable description of the error.
    pub fn message(&self) -> (r: &'static str) {
        match self {
            EncoderError::BufferToSmall => "output buffer is too small",
            EncoderError::InternalError(message) => message,
        }
    }
}

impl OpusError {
    /// A human-readable description of the error.
    pub fn message(&self) -> (r: &'static str) {
        match self {
            OpusError::BadArguments(message) => message,
            OpusError::InternalError(message) => message,
            OpusError::BufferToSmall => "buffer is too small",
            OpusError::FrameSizeTooSmall => "the frame size is too small for the packet",
            OpusError::InvalidPacket => "invalid packet",
        }
    }
}

} // verus!
