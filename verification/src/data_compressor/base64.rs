//! Base64 with the standard alphabet and `=` padding, as RFC 4648 defines it.
//!
//! Three bytes make four characters of six bits each; a last group of one or
//! two bytes is filled up with zero bits and closed with `=`. Encoding and
//! decoding are done by `base64ct`; what they compute is stated here, and
//! that no two byte sequences share an encoding is proved from it.

use crate::error::PipelineError;
use base64ct::{Base64, Encoding};
use vstd::prelude::*;

verus! {

/// The character that stands for the six bits `v`.
pub open spec fn sextet_char(v: nat) -> char {
    if v < 26 {
        (65 + v) as char
    } else if v < 52 {
        (71 + v) as char
    } else if v < 62 {
        (v - 4) as char
    } else if v == 62 {
        '+'
    } else {
        '/'
    }
}

/// The four characters that stand for up to three bytes: for `b0`, `b1` and
/// `b2` where `given` is 3, with `=` in place of the last where it is 2 and
/// of the last two where it is 1. The bytes that are not given are zero.
pub open spec fn quad(b0: u8, b1: u8, b2: u8, given: nat) -> Seq<char> {
    seq![
        sextet_char(b0 as nat / 4),
        sextet_char(b0 as nat % 4 * 16 + b1 as nat / 16),
        if given >= 2 { sextet_char(b1 as nat % 16 * 4 + b2 as nat / 64) } else { '=' },
        if given >= 3 { sextet_char(b2 as nat % 64) } else { '=' },
    ]
}

/// The Base64 encoding of `bytes`.
pub open spec fn base64_text(bytes: Seq<u8>) -> Seq<char>
    decreases bytes.len(),
{
    if bytes.len() == 0 {
        Seq::empty()
    } else if bytes.len() == 1 {
        quad(bytes[0], 0, 0, 1)
    } else if bytes.len() == 2 {
        quad(bytes[0], bytes[1], 0, 2)
    } else {
        quad(bytes[0], bytes[1], bytes[2], 3) + base64_text(bytes.skip(3))
    }
}

/// Whether `text` is the Base64 encoding of some bytes.
pub open spec fn is_base64(text: Seq<char>) -> bool {
    exists|bytes: Seq<u8>| #[trigger] base64_text(bytes) == text
}

/// The bytes that `text` is the Base64 encoding of.
pub open spec fn base64_bytes(text: Seq<char>) -> Option<Seq<u8>> {
    if is_base64(text) {
        Some(choose|bytes: Seq<u8>| #[trigger] base64_text(bytes) == text)
    } else {
        None
    }
}

/// The character of six bits tells the six bits, and is never the padding.
pub proof fn lemma_sextet_char(v: nat, w: nat)
    requires
        v < 64,
        w < 64,
    ensures
        sextet_char(v) != '=',
        sextet_char(v) == sextet_char(w) ==> v == w,
{
}

/// The encoding has four characters for every three bytes begun.
pub proof fn lemma_base64_len(bytes: Seq<u8>)
    ensures
        base64_text(bytes).len() == (bytes.len() + 2) / 3 * 4,
    decreases bytes.len(),
{
    if bytes.len() >= 3 {
        lemma_base64_len(bytes.skip(3));
    }
}

/// Four characters tell the bytes they stand for, and how many were given.
pub proof fn lemma_quad_injective(
    a0: u8,
    a1: u8,
    a2: u8,
    given_a: nat,
    b0: u8,
    b1: u8,
    b2: u8,
    given_b: nat,
)
    requires
        1 <= given_a <= 3,
        1 <= given_b <= 3,
        quad(a0, a1, a2, given_a) == quad(b0, b1, b2, given_b),
        given_a < 3 ==> a2 == 0,
        given_a < 2 ==> a1 == 0,
        given_b < 3 ==> b2 == 0,
        given_b < 2 ==> b1 == 0,
    ensures
        given_a == given_b,
        a0 == b0,
        a1 == b1,
        a2 == b2,
{
    let qa = quad(a0, a1, a2, given_a);
    let qb = quad(b0, b1, b2, given_b);
    assert(qa[0] == qb[0] && qa[1] == qb[1] && qa[2] == qb[2] && qa[3] == qb[3]);
    lemma_sextet_char(a0 as nat / 4, b0 as nat / 4);
    lemma_sextet_char(a0 as nat % 4 * 16 + a1 as nat / 16, b0 as nat % 4 * 16 + b1 as nat / 16);
    lemma_sextet_char(a1 as nat % 16 * 4 + a2 as nat / 64, b1 as nat % 16 * 4 + b2 as nat / 64);
    lemma_sextet_char(a2 as nat % 64, b2 as nat % 64);
}

/// Different bytes have different encodings.
pub proof fn lemma_base64_injective(a: Seq<u8>, b: Seq<u8>)
    requires
        base64_text(a) == base64_text(b),
    ensures
        a == b,
    decreases a.len(),
{
    lemma_base64_len(a);
    lemma_base64_len(b);
    if a.len() == 0 || b.len() == 0 {
        assert(a =~= b);
    } else {
        let given_a: nat = if a.len() >= 3 { 3 } else { a.len() };
        let given_b: nat = if b.len() >= 3 { 3 } else { b.len() };
        let a1 = if a.len() >= 2 { a[1] } else { 0u8 };
        let a2 = if a.len() >= 3 { a[2] } else { 0u8 };
        let b1 = if b.len() >= 2 { b[1] } else { 0u8 };
        let b2 = if b.len() >= 3 { b[2] } else { 0u8 };
        let qa = quad(a[0], a1, a2, given_a);
        let qb = quad(b[0], b1, b2, given_b);
        assert(base64_text(a).take(4) == qa);
        assert(base64_text(b).take(4) == qb);
        lemma_quad_injective(a[0], a1, a2, given_a, b[0], b1, b2, given_b);
        if a.len() >= 3 {
            assert(base64_text(a).skip(4) == base64_text(a.skip(3)));
            assert(base64_text(b).skip(4) == base64_text(b.skip(3)));
            lemma_base64_injective(a.skip(3), b.skip(3));
            assert(a =~= a.take(3) + a.skip(3));
            assert(b =~= b.take(3) + b.skip(3));
            assert(a.take(3) =~= b.take(3));
        } else {
            assert(a =~= b);
        }
    }
}

/// Decoding gives back what was encoded.
pub proof fn lemma_base64_round_trip(bytes: Seq<u8>)
    ensures
        base64_bytes(base64_text(bytes)) == Some(bytes),
{
    let text = base64_text(bytes);
    assert(is_base64(text));
    lemma_base64_injective(choose|b: Seq<u8>| #[trigger] base64_text(b) == text, bytes);
}

/// The error of `base64ct`.
#[verifier::external_type_specification]
#[verifier::external_body]
pub struct ExBase64Error(base64ct::Error);

/// Calls `Base64::encode_string` of `base64ct`, which panics where four times
/// the length of the input is more than a `usize` holds. It returns the
/// standard padded Base64 encoding of the input.
#[verifier::external_body]
fn base64ct_encode_string(bytes: &[u8]) -> (text: String)
    requires
        bytes@.len() * 4 <= usize::MAX,
    ensures
        text@ == base64_text(bytes@),
{
    Base64::encode_string(bytes)
}

/// Calls `Base64::decode_vec` of `base64ct`. It accepts exactly the standard
/// padded encodings, with no character besides, and gives the bytes whose
/// encoding the input is; every other input is an error.
#[verifier::external_body]
fn base64ct_decode_vec(text: &str) -> (res: Result<Vec<u8>, base64ct::Error>)
    ensures
        match res {
            Ok(bytes) => base64_text(bytes@) == text@,
            Err(_) => !is_base64(text@),
        },
{
    Base64::decode_vec(text)
}

/// Encodes `bytes` as Base64. The one failure is an input so long that the
/// length of its encoding cannot be counted.
pub fn encode_base64(bytes: &[u8]) -> (res: Result<String, PipelineError>)
    ensures
        res is Ok <==> bytes@.len() * 4 <= usize::MAX,
        match res {
            Ok(text) => text@ == base64_text(bytes@),
            Err(e) => e == PipelineError::Transcoding,
        },
{
    if bytes.len() > usize::MAX / 4 {
        Err(PipelineError::Transcoding)
    } else {
        Ok(base64ct_encode_string(bytes))
    }
}

/// Decodes the Base64 text `text`. Text that is no encoding of any bytes is
/// refused.
pub fn decode_base64(text: &str) -> (res: Result<Vec<u8>, PipelineError>)
    ensures
        match res {
            Ok(bytes) => base64_bytes(text@) == Some(bytes@),
            Err(e) => e == PipelineError::Transcoding && base64_bytes(text@) is None,
        },
{
    match base64ct_decode_vec(text) {
        Ok(bytes) => {
            proof {
                lemma_base64_round_trip(bytes@);
            }
            Ok(bytes)
        },
        Err(_) => Err(PipelineError::Transcoding),
    }
}

} // verus!
