//! What is written can be read: the records of a payload, in whatever order a
//! resolver gives them back, hold the payload.

use crate::data_compressor::base64::{base64_text, lemma_base64_len, lemma_base64_round_trip};
use crate::data_compressor::records::{chunk, chunk_count, chunk_start, lemma_chunk_count, rdata};
use crate::data_compressor::{stored_payload, zstd_payload};
use crate::decimal::{decimal_text, lemma_decimal_text_value};
use crate::error::PipelineError;
use crate::dns_resolver::doh::resolved_text;
use crate::dns_resolver::fragment::{
    fragment_of, fragments, lemma_first_index, marker_limit, FragmentView,
};
use crate::dns_resolver::ordering::{
    joined, lemma_marked_add, lemma_marked_none, lemma_text_below_rest, marked, text_below,
};
use vstd::prelude::*;

verus! {

/// Whether `order` names each of the first `n` numbers once.
pub open spec fn is_arrangement(order: Seq<nat>, n: nat) -> bool {
    &&& order.len() == n
    &&& order.no_duplicates()
    &&& forall|j: int| 0 <= j < order.len() ==> #[trigger] order[j] < n
}

/// The answers that give back the records of `text`, that of chunk number
/// `order[0]` first, then that of chunk number `order[1]`, and so on.
pub open spec fn answers_in_order(text: Seq<char>, size: nat, order: Seq<nat>) -> Seq<Seq<char>> {
    Seq::new(order.len(), |j: int| rdata(order[j], chunk(text, size, order[j] as int)))
}

/// The fragments that carry the chunks of `text` in the order `order`.
pub open spec fn fragments_in_order(text: Seq<char>, size: nat, order: Seq<nat>) -> Seq<
    FragmentView,
> {
    Seq::new(
        order.len(),
        |j: int| FragmentView { marker: order[j], payload: chunk(text, size, order[j] as int) },
    )
}

/// Whether the records of `text`, given back each once and in whatever
/// order, decode to `payload`.
pub open spec fn records_decode_to(text: Seq<char>, size: nat, payload: Seq<u8>) -> bool {
    forall|order: Seq<nat>|
        is_arrangement(order, chunk_count(text.len(), size)) ==> stored_payload(
            resolved_text(#[trigger] answers_in_order(text, size, order)),
        ) == Ok::<Seq<u8>, PipelineError>(payload)
}

/// The record data that the encoder writes for a chunk is read back as that
/// chunk under its number.
pub proof fn lemma_rdata_fragment(index: nat, payload: Seq<char>)
    requires
        index < marker_limit(),
    ensures
        fragment_of(rdata(index, payload)) == Some(FragmentView { marker: index, payload }),
{
    let digits = decimal_text(index);
    let answer = rdata(index, payload);
    let content = answer.subrange(1, answer.len() - 1);
    lemma_decimal_text_value(index);
    assert(content == digits + seq![':'] + payload);
    assert forall|j: int| 0 <= j < digits.len() implies content[j] != ':' by {
        assert(content[j] == digits[j]);
    }
    lemma_first_index(content, ':', digits.len() as int);
    assert(content.take(digits.len() as int) == digits);
    assert(content.skip(digits.len() as int + 1) == payload);
}

/// The answers that give back the records of a text carry its chunks.
pub proof fn lemma_fragments_in_order(text: Seq<char>, size: nat, order: Seq<nat>)
    requires
        forall|j: int| 0 <= j < order.len() ==> #[trigger] order[j] < marker_limit(),
    ensures
        fragments(answers_in_order(text, size, order)) == fragments_in_order(text, size, order),
    decreases order.len(),
{
    let answers = answers_in_order(text, size, order);
    if order.len() > 0 {
        let before = order.drop_last();
        let last = order.last();
        lemma_fragments_in_order(text, size, before);
        lemma_rdata_fragment(last, chunk(text, size, last as int));
        assert(answers.drop_last() == answers_in_order(text, size, before));
        assert(fragments_in_order(text, size, order) == fragments_in_order(
            text,
            size,
            before,
        ).push(FragmentView { marker: last, payload: chunk(text, size, last as int) }));
    } else {
        assert(fragments_in_order(text, size, order) == Seq::<FragmentView>::empty());
    }
}

/// An arrangement of the first `n` numbers holds each of them.
pub proof fn lemma_arrangement_holds(order: Seq<nat>, n: nat, i: nat)
    requires
        is_arrangement(order, n),
        i < n,
    ensures
        order.contains(i),
{
    let held = order.to_set();
    let below = Set::new(|v: nat| v < n);
    let range = vstd::set_lib::set_int_range(0, n as int);
    vstd::set_lib::lemma_int_range(0, n as int);
    order.unique_seq_to_set();
    // The numbers below `n` are as many as the whole numbers from 0 to `n`.
    let as_int = |v: nat| v as int;
    assert(below.map(as_int) =~= range) by {
        assert forall|k: int| range.contains(k) implies below.map(as_int).contains(k) by {
            assert(below.contains(k as nat) && as_int(k as nat) == k);
        }
    }
    assert(below.finite() && below.len() == n) by {
        assert forall|k: int| #[trigger] range.contains(k) implies below.contains(k as nat) by {}
        let back = |k: int| k as nat;
        assert(range.map(back) =~= below) by {
            assert forall|v: nat| below.contains(v) implies range.map(back).contains(v) by {
                assert(range.contains(v as int) && back(v as int) == v);
            }
        }
        vstd::set_lib::lemma_map_size(range, below, back);
    }
    assert(held.subset_of(below));
    vstd::set_lib::lemma_len_subset(held, below);
    vstd::set_lib::lemma_subset_equality(held, below);
    assert(below.contains(i));
}

/// Where every marker comes once, a marker picks the one fragment that carries it.
pub proof fn lemma_marked_single(frags: Seq<FragmentView>, j: int)
    requires
        0 <= j < frags.len(),
        forall|a: int, b: int|
            0 <= a < frags.len() && 0 <= b < frags.len() && a != b ==> (#[trigger] frags[a]).marker
                != (#[trigger] frags[b]).marker,
    ensures
        marked(frags, frags[j].marker) == seq![frags[j]],
{
    let marker = frags[j].marker;
    let head = frags.take(j);
    let tail = frags.skip(j + 1);
    assert(frags == head.push(frags[j]) + tail);
    lemma_marked_add(head.push(frags[j]), tail, marker);
    assert(head.push(frags[j]).drop_last() == head);
    assert forall|a: int| 0 <= a < head.len() implies (#[trigger] head[a]).marker != marker by {
        assert(head[a] == frags[a]);
    }
    assert forall|a: int| 0 <= a < tail.len() implies (#[trigger] tail[a]).marker != marker by {
        assert(tail[a] == frags[a + j + 1]);
    }
    lemma_marked_none(head, marker);
    lemma_marked_none(tail, marker);
}

/// The fragments of a text, in whatever order, make up its beginning below
/// each marker.
pub proof fn lemma_text_below_in_order(text: Seq<char>, size: nat, order: Seq<nat>, bound: nat)
    requires
        size > 0,
        is_arrangement(order, chunk_count(text.len(), size)),
        bound <= chunk_count(text.len(), size),
    ensures
        text_below(fragments_in_order(text, size, order), bound) == text.take(
            chunk_start(text.len(), size, bound),
        ),
    decreases bound,
{
    let frags = fragments_in_order(text, size, order);
    let count = chunk_count(text.len(), size);
    if bound == 0 {
        assert(0 * size == 0);
        assert(text.take(0) == Seq::<char>::empty());
    } else {
        let m = (bound - 1) as nat;
        lemma_text_below_in_order(text, size, order, m);
        lemma_arrangement_holds(order, count, m);
        let j = choose|j: int| 0 <= j < order.len() && order[j] == m;
        lemma_marked_single(frags, j);
        assert(frags[j].payload == chunk(text, size, m as int));
        assert(seq![frags[j]].drop_last() == Seq::<FragmentView>::empty());
        assert(joined(seq![frags[j]]) == frags[j].payload) by {
            assert(joined(seq![frags[j]].drop_last()) == Seq::<char>::empty());
        }
        lemma_chunk_count(text.len(), size, m);
        assert((m + 1) * size == m * size + size) by (nonlinear_arith);
        assert(text.take(chunk_start(text.len(), size, m)) + chunk(text, size, m as int)
            == text.take(chunk_start(text.len(), size, bound)));
    }
}

/// The answers that give back the records of a text, in whatever order, hold
/// the text.
pub proof fn lemma_records_hold_text(text: Seq<char>, size: nat, order: Seq<nat>)
    requires
        size > 0,
        chunk_count(text.len(), size) <= marker_limit(),
        is_arrangement(order, chunk_count(text.len(), size)),
    ensures
        resolved_text(answers_in_order(text, size, order)) == text,
{
    let count = chunk_count(text.len(), size);
    let frags = fragments_in_order(text, size, order);
    lemma_fragments_in_order(text, size, order);
    lemma_text_below_in_order(text, size, order, count);
    lemma_chunk_count(text.len(), size, count);
    assert(text.take(text.len() as int) == text);
    lemma_text_below_rest(frags, count, marker_limit());
}

/// Decoding what encoding wrote gives the payload back.
///
/// Let `frame` be a compressed frame of `payload`, and let a resolver give
/// back the records of the frame's Base64 text, each once, in the order
/// `order`. Then the answers decode to `payload`.
pub proof fn lemma_round_trip(payload: Seq<u8>, frame: Seq<u8>, size: nat, order: Seq<nat>)
    requires
        zstd_payload(frame) == Some(payload),
        size > 0,
        chunk_count(base64_text(frame).len(), size) <= marker_limit(),
        is_arrangement(order, chunk_count(base64_text(frame).len(), size)),
    ensures
        stored_payload(resolved_text(answers_in_order(base64_text(frame), size, order))) == Ok::<
            Seq<u8>,
            PipelineError,
        >(payload),
{
    lemma_records_hold_text(base64_text(frame), size, order);
    lemma_base64_round_trip(frame);
}

/// The records of a compressed frame decode to its payload, where the frame
/// is short enough for its Base64 text to be counted in 64 bits.
pub proof fn lemma_frame_records_decode(payload: Seq<u8>, frame: Seq<u8>, size: nat)
    requires
        zstd_payload(frame) == Some(payload),
        size > 0,
        frame.len() * 4 <= u64::MAX,
    ensures
        records_decode_to(base64_text(frame), size, payload),
{
    let text = base64_text(frame);
    lemma_base64_len(frame);
    lemma_chunk_count(text.len(), size, text.len());
    assert(text.len() * size >= text.len()) by (nonlinear_arith)
        requires
            size > 0,
    ;
    assert forall|order: Seq<nat>|
        is_arrangement(order, chunk_count(text.len(), size)) implies stored_payload(
        resolved_text(#[trigger] answers_in_order(text, size, order)),
    ) == Ok::<Seq<u8>, PipelineError>(payload) by {
        lemma_round_trip(payload, frame, size, order);
    }
}

} // verus!
