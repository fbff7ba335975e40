//! Storage of byte payloads in DNS TXT records.
//!
//! A payload is compressed with Zstandard and written in Base64. The Base64
//! text is cut into chunks, and each chunk becomes the data of one TXT
//! record: in double quotes, the number of the chunk, a colon, and the chunk.
//! Chunks are numbered from zero, in decimal notation.
//!
//! A resolver gives the records back in any order, among answers that may
//! have nothing to do with the payload. Reading goes by the numbers: answers
//! that are no record of this shape are passed over, the chunks of the others
//! are put together by ascending number, and the text is decoded and
//! decompressed. A number may have up to 64 bits, so every chunk that can be
//! written can be read.
//!
//! - [`data_compressor`] writes a payload as record lines and decodes the
//!   text that the records held.
//! - [`dns_resolver`] puts that text together from the answers of a resolver.
//! - [`round_trip`] proves that the two fit: what was written is read back.
//! - [`decimal`] and [`text`] hold what both sides need of numbers and strings.
//! - [`error`] names the failures.

pub mod data_compressor;
pub mod decimal;
pub mod dns_resolver;
pub mod error;
pub mod round_trip;
pub mod text;
