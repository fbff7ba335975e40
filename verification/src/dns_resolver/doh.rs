//! Answers of a DNS-over-HTTPS resolver, and the text they hold.

use crate::data_compressor::{base64_to_bytes, stored_payload};
use crate::dns_resolver::fragment::{
    fragment_of, fragments, lemma_fragments_add, marker_limit, parse_answer,
};
use crate::dns_resolver::ordering::{
    has_repeated_marker, lemma_repeated_marker, lemma_text_below_agrees, marked, reassembled,
};
use crate::dns_resolver::reassembler::Reassembler;
use crate::error::PipelineError;
use vstd::prelude::*;

verus! {

/// One answer of a resolver's response.
#[derive(Debug, Clone, PartialEq, Eq)]
pub struct Answer {
    /// The record data, as the resolver wrote it: for a TXT record, the text
    /// in double quotes.
    pub data: String,
}

/// The response of a resolver to one query.
#[derive(Debug, Clone, PartialEq, Eq)]
pub struct DNSResponse {
    /// The answers, in the order in which the resolver gave them.
    pub answer: Vec<Answer>,
}

impl View for Answer {
    type V = Seq<char>;

    open spec fn view(&self) -> Seq<char> {
        self.data@
    }
}

impl View for DNSResponse {
    type V = Seq<Seq<char>>;

    open spec fn view(&self) -> Seq<Seq<char>> {
        self.answer@.map_values(|a: Answer| a@)
    }
}

/// The text that the answers `answers` hold: what their fragments make up.
pub open spec fn resolved_text(answers: Seq<Seq<char>>) -> Seq<char> {
    reassembled(fragments(answers))
}

/// An answer that carries no fragment changes nothing, wherever among the
/// answers it stands: the text is the one that the other answers hold.
pub proof fn lemma_noise_ignored(answers: Seq<Seq<char>>, noise: Seq<char>, at: int)
    requires
        0 <= at <= answers.len(),
        fragment_of(noise) is None,
    ensures
        resolved_text(answers.insert(at, noise)) == resolved_text(answers),
{
    let head = answers.take(at);
    let tail = answers.skip(at);
    assert(answers.insert(at, noise) == head.push(noise) + tail);
    assert(answers == head + tail);
    assert(head.push(noise).drop_last() == head);
    lemma_fragments_add(head.push(noise), tail);
    lemma_fragments_add(head, tail);
}

/// Receives the fragments that the answers of `response` carry, in the order
/// of the answers. Answers that carry no fragment are passed over.
pub fn collect_fragments(response: &DNSResponse) -> (received: Reassembler)
    ensures
        forall|m: nat| #[trigger] marked(received@, m) == marked(fragments(response@), m),
{
    let mut received = Reassembler::new();
    let mut i: usize = 0;
    while i < response.answer.len()
        invariant
            i <= response.answer.len(),
            forall|m: nat| #[trigger]
                marked(received@, m) == marked(fragments(response@.take(i as int)), m),
        decreases response.answer.len() - i,
    {
        let ghost earlier = fragments(response@.take(i as int));
        proof {
            let seen = response@.take(i + 1);
            assert(seen.drop_last() == response@.take(i as int));
            assert(seen.last() == response.answer[i as int].data@);
        }
        match parse_answer(response.answer[i].data.as_str()) {
            Some(fragment) => {
                let ghost kept = received@;
                let ghost added = fragment@;
                received.accept(fragment);
                assert forall|m: nat| #[trigger]
                    marked(received@, m) == marked(earlier.push(added), m) by {
                    assert(marked(received@, m) == marked(kept.push(added), m));
                    assert(kept.push(added).drop_last() == kept);
                    assert(earlier.push(added).drop_last() == earlier);
                    assert(marked(kept, m) == marked(earlier, m));
                }
            },
            None => {},
        }
        i += 1;
    }
    assert(response@.take(response.answer.len() as int) == response@);
    received
}

/// Puts the text together that the answers of `response` hold.
///
/// Answers that carry no fragment are passed over. The others give their
/// payloads by ascending marker, and in the order of the answers where a
/// marker comes more than once. Nothing is made of a marker that is missing:
/// the payloads on either side of the gap stand next to each other.
pub fn resolve(response: &DNSResponse) -> (text: String)
    ensures
        text@ == resolved_text(response@),
{
    let received = collect_fragments(response);
    proof {
        lemma_text_below_agrees(received@, fragments(response@), marker_limit());
    }
    received.text()
}

/// Whether two answers of `response` carry fragments with the same marker.
///
/// This is no failure: a resolver may give an answer twice. The text then
/// holds each of the payloads, and what it decodes to is hardly the payload
/// that was stored, so a caller may want to know.
pub fn has_duplicate_markers(response: &DNSResponse) -> (found: bool)
    ensures
        found == has_repeated_marker(fragments(response@)),
{
    let received = collect_fragments(response);
    proof {
        let kept = received@;
        let frags = fragments(response@);
        lemma_repeated_marker(kept);
        lemma_repeated_marker(frags);
        if has_repeated_marker(frags) {
            let m = choose|m: nat| (#[trigger] marked(frags, m)).len() >= 2;
            assert(marked(kept, m) == marked(frags, m));
        }
        if has_repeated_marker(kept) {
            let m = choose|m: nat| (#[trigger] marked(kept, m)).len() >= 2;
            assert(marked(kept, m) == marked(frags, m));
        }
    }
    received.has_duplicate_markers()
}

/// Decodes the payload that the answers of `response` hold: puts their text
/// together as [`resolve`] does, reads it as Base64 and decompresses it.
///
/// Answers that carry no fragment never make the decoding fail. It fails
/// where the text of the others is no Base64, and where what the text
/// encodes is no whole compressed stream.
pub fn dns_to_bytes(response: &DNSResponse) -> (res: Result<Vec<u8>, PipelineError>)
    ensures
        match res {
            Ok(payload) => stored_payload(resolved_text(response@)) == Ok::<
                Seq<u8>,
                PipelineError,
            >(payload@),
            Err(e) => stored_payload(resolved_text(response@)) == Err::<Seq<u8>, PipelineError>(e),
        },
{
    let text = resolve(response);
    base64_to_bytes(text.as_str())
}

} // verus!
