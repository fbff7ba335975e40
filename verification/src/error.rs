//! The ways in which encoding or decoding a payload fails.

use vstd::prelude::*;

verus! {

/// Why a payload could not be encoded or decoded.
#[derive(Debug, Clone, Copy, PartialEq, Eq, Structural)]
pub enum PipelineError {
    /// Compression failed, or the bytes to decompress are no whole compressed
    /// stream: the stored payload is corrupt.
    Codec,
    /// The text is no Base64 encoding, or the bytes are too many to encode.
    Transcoding,
}

impl PipelineError {
    /// A sentence that names the failure.
    pub fn message(&self) -> (text: String)
        ensures
            text@ == match self {
                PipelineError::Codec => "compression codec failed: corrupt payload"@,
                PipelineError::Transcoding => "malformed text encoding"@,
            },
    {
        match self {
            PipelineError::Codec => "compression codec failed: corrupt payload".to_owned(),
            PipelineError::Transcoding => "malformed text encoding".to_owned(),
        }
    }
}

} // verus!
