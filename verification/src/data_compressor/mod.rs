//! The encoding side: from a payload to the TXT records that hold it, and
//! from the text that the records held back to the payload.
//!
//! A payload is compressed with Zstandard, the compressed frame is written in
//! Base64, and the Base64 text is cut into chunks, each of which makes one
//! record.

pub mod base64;
pub mod records;

use crate::data_compressor::base64::{base64_bytes, base64_text, decode_base64, encode_base64};
use crate::data_compressor::records::{frame_records, zone_text};
use crate::error::PipelineError;
use crate::round_trip::{lemma_frame_records_decode, records_decode_to};
use vstd::prelude::*;

verus! {

/// The level at which payloads are compressed.
pub const COMPRESSION_LEVEL: i32 = 22;

/// The Zstandard frame that compressing `payload` at `level` gives.
pub uninterp spec fn zstd_frame(payload: Seq<u8>, level: int) -> Seq<u8>;

/// The bytes that decompressing `frame` gives, where `frame` is made of whole
/// Zstandard frames.
pub uninterp spec fn zstd_payload(frame: Seq<u8>) -> Option<Seq<u8>>;

/// The error of `std::io`, which `zstd` reports its failures with.
#[verifier::external_type_specification]
#[verifier::external_body]
pub struct ExIoError(std::io::Error);

/// Calls `zstd::stream::encode_all`, which compresses all of its input into
/// one Zstandard frame. Where it succeeds, the frame is the one that belongs
/// to the input and the level, and decompressing it gives the input back.
#[verifier::external_body]
fn zstd_encode_all(payload: &[u8], level: i32) -> (res: Result<Vec<u8>, std::io::Error>)
    ensures
        res matches Ok(frame) ==> frame@ == zstd_frame(payload@, level as int) && zstd_payload(
            frame@,
        ) == Some(payload@),
{
    zstd::stream::encode_all(payload, level)
}

/// Calls `zstd::stream::decode_all`, which decompresses its input to the end
/// and fails where the input is not made of whole Zstandard frames.
#[verifier::external_body]
fn zstd_decode_all(frame: &[u8]) -> (res: Result<Vec<u8>, std::io::Error>)
    ensures
        match res {
            Ok(payload) => zstd_payload(frame@) == Some(payload@),
            Err(_) => zstd_payload(frame@) is None,
        },
{
    zstd::stream::decode_all(frame)
}

/// The record lines that hold the compressed frame `frame`.
pub open spec fn frame_zone(frame: Seq<u8>, domain: Seq<char>, ttl: nat, size: nat) -> Seq<char> {
    zone_text(base64_text(frame), domain, ttl, size)
}

/// What the stored text `text` decodes to: the payload of the frame that it
/// is the Base64 encoding of.
pub open spec fn stored_payload(text: Seq<char>) -> Result<Seq<u8>, PipelineError> {
    match base64_bytes(text) {
        None => Err(PipelineError::Transcoding),
        Some(frame) => match zstd_payload(frame) {
            None => Err(PipelineError::Codec),
            Some(payload) => Ok(payload),
        },
    }
}

/// Decompresses `input`. Bytes that are no whole compressed stream are
/// refused.
pub fn decompress_bytes_zstd(input: &[u8]) -> (res: Result<Vec<u8>, PipelineError>)
    ensures
        match res {
            Ok(payload) => zstd_payload(input@) == Some(payload@),
            Err(e) => e == PipelineError::Codec && zstd_payload(input@) is None,
        },
{
    match zstd_decode_all(input) {
        Ok(payload) => Ok(payload),
        Err(_) => Err(PipelineError::Codec),
    }
}

/// Compresses `input` at [`COMPRESSION_LEVEL`]. Decompressing the frame that
/// comes out gives `input` back.
pub fn compress_bytes_zstd(input: &[u8]) -> (res: Result<Vec<u8>, PipelineError>)
    ensures
        match res {
            Ok(frame) => frame@ == zstd_frame(input@, COMPRESSION_LEVEL as int) && zstd_payload(
                frame@,
            ) == Some(input@),
            Err(e) => e == PipelineError::Codec,
        },
{
    match zstd_encode_all(input, COMPRESSION_LEVEL) {
        Ok(frame) => Ok(frame),
        Err(_) => Err(PipelineError::Codec),
    }
}

/// Writes the compressed frame `frame` as TXT record lines of `domain`: its
/// Base64 text in chunks of at most `chunk_size` characters, one line each.
/// The one failure is a frame too long for its Base64 text to be counted.
pub fn frame_to_dns(frame: &[u8], domain: &str, ttl: u32, chunk_size: usize) -> (res: Result<
    String,
    PipelineError,
>)
    requires
        chunk_size > 0,
    ensures
        res is Ok <==> frame@.len() * 4 <= usize::MAX,
        match res {
            Ok(zone) => zone@ == frame_zone(frame@, domain@, ttl as nat, chunk_size as nat),
            Err(e) => e == PipelineError::Transcoding,
        },
{
    match encode_base64(frame) {
        Ok(encoded) => Ok(frame_records(encoded.as_str(), domain, ttl, chunk_size)),
        Err(e) => Err(e),
    }
}

/// Writes `input` as TXT record lines of `domain`: compressed, then as
/// [`frame_to_dns`] writes the compressed frame.
///
/// The records that come out, given back each once and in whatever order,
/// decode to `input`.
pub fn bytes_to_dns(input: &[u8], domain: &str, ttl: u32, chunk_size: usize) -> (res: Result<
    String,
    PipelineError,
>)
    requires
        chunk_size > 0,
    ensures
        match res {
            Ok(zone) => {
                let frame = zstd_frame(input@, COMPRESSION_LEVEL as int);
                &&& zstd_payload(frame) == Some(input@)
                &&& zone@ == frame_zone(frame, domain@, ttl as nat, chunk_size as nat)
                &&& records_decode_to(base64_text(frame), chunk_size as nat, input@)
            },
            Err(e) => e == PipelineError::Codec || (e == PipelineError::Transcoding && zstd_frame(
                input@,
                COMPRESSION_LEVEL as int,
            ).len() * 4 > usize::MAX),
        },
{
    match compress_bytes_zstd(input) {
        Ok(compressed) => {
            let res = frame_to_dns(compressed.as_slice(), domain, ttl, chunk_size);
            proof {
                if res is Ok {
                    lemma_frame_records_decode(input@, compressed@, chunk_size as nat);
                }
            }
            res
        },
        Err(e) => Err(e),
    }
}

/// Decodes the stored text `input`: reads it as Base64 and decompresses what
/// it encodes.
pub fn base64_to_bytes(input: &str) -> (res: Result<Vec<u8>, PipelineError>)
    ensures
        match res {
            Ok(payload) => stored_payload(input@) == Ok::<Seq<u8>, PipelineError>(payload@),
            Err(e) => stored_payload(input@) == Err::<Seq<u8>, PipelineError>(e),
        },
{
    match decode_base64(input) {
        Ok(bytes) => decompress_bytes_zstd(bytes.as_slice()),
        Err(e) => Err(e),
    }
}

} // verus!
