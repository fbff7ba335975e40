//! The decoding side: from the answers of a resolver back to the stored text.

pub mod doh;
pub mod fragment;
pub mod ordering;
pub mod reassembler;
