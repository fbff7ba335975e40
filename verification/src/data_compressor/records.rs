//! Cutting a text into chunks and writing each as a TXT record line.

use crate::decimal::{decimal_text, push_decimal};
use crate::text::to_chars;
use vstd::prelude::*;
use vstd::string::StringExecFns;

verus! {

/// How many chunks of at most `size` characters a text of `len` characters
/// gives: `len / size`, rounded up.
pub open spec fn chunk_count(len: nat, size: nat) -> nat {
    ((len + size - 1) / (size as int)) as nat
}

/// Chunk number `i` of `text`: the characters from place `i * size` up to
/// place `(i + 1) * size`, or to the end of the text where that comes first.
pub open spec fn chunk(text: Seq<char>, size: nat, i: int) -> Seq<char> {
    let end = if (i + 1) * size <= text.len() {
        (i + 1) * size
    } else {
        text.len() as int
    };
    text.subrange(i * size, end)
}

/// The chunks of `text`, in the order of the text.
pub open spec fn chunks(text: Seq<char>, size: nat) -> Seq<Seq<char>> {
    Seq::new(chunk_count(text.len(), size), |i: int| chunk(text, size, i))
}

/// The record data of chunk number `index`: in double quotes, the number in
/// decimal notation, a colon, and the chunk.
pub open spec fn rdata(index: nat, payload: Seq<char>) -> Seq<char> {
    seq!['"'] + decimal_text(index) + seq![':'] + payload + seq!['"']
}

/// The fields of a record line that name its class and type.
pub open spec fn class_and_type() -> Seq<char> {
    seq!['\t', 'I', 'N', '\t', 'T', 'X', 'T', '\t']
}

/// The record line of chunk number `index`: the domain with its final dot,
/// the time to live, class and type, and the record data, set apart by tabs.
pub open spec fn record_line(domain: Seq<char>, ttl: nat, index: nat, payload: Seq<char>) -> Seq<
    char,
> {
    domain + seq!['.', '\t'] + decimal_text(ttl) + class_and_type() + rdata(index, payload)
}

/// The record lines of `payloads`, numbered from zero, with a line feed
/// between one line and the next.
pub open spec fn zone_lines(domain: Seq<char>, ttl: nat, payloads: Seq<Seq<char>>) -> Seq<char>
    decreases payloads.len(),
{
    if payloads.len() == 0 {
        Seq::empty()
    } else {
        let line = record_line(domain, ttl, (payloads.len() - 1) as nat, payloads.last());
        if payloads.len() == 1 {
            line
        } else {
            zone_lines(domain, ttl, payloads.drop_last()) + seq!['\n'] + line
        }
    }
}

/// The record lines that hold `text` in chunks of at most `size` characters.
pub open spec fn zone_text(text: Seq<char>, domain: Seq<char>, ttl: nat, size: nat) -> Seq<char> {
    zone_lines(domain, ttl, chunks(text, size))
}

/// `k` chunks cover a text of `len` characters exactly when `k` is at least
/// the number of its chunks.
pub proof fn lemma_chunk_count(len: nat, size: nat, k: nat)
    requires
        size > 0,
    ensures
        k * size >= len <==> k >= chunk_count(len, size),
{
    let count = chunk_count(len, size);
    assert(count * size <= len + size - 1 < count * size + size) by (nonlinear_arith)
        requires
            size > 0,
            count == (len + size - 1) / (size as int),
    ;
    if k >= count {
        assert(k * size >= count * size) by (nonlinear_arith)
            requires
                k >= count,
                size > 0,
        ;
    } else {
        assert(k * size <= count * size - size) by (nonlinear_arith)
            requires
                k + 1 <= count,
                size > 0,
        ;
    }
}

/// The place in a text of `len` characters before which the first `k` chunks lie.
pub open spec fn chunk_start(len: nat, size: nat, k: nat) -> int {
    if k * size <= len {
        (k * size) as int
    } else {
        len as int
    }
}

/// The first `k` chunks of a text, one after the other, are its beginning.
pub proof fn lemma_chunks_prefix(text: Seq<char>, size: nat, k: nat)
    requires
        size > 0,
        k <= chunk_count(text.len(), size),
    ensures
        chunks(text, size).take(k as int).flatten() == text.take(
            chunk_start(text.len(), size, k),
        ),
    decreases k,
{
    let all = chunks(text, size);
    if k == 0 {
        assert(all.take(0) == Seq::<Seq<char>>::empty());
        assert(text.take(0) == Seq::<char>::empty());
        assert(0 * size == 0);
    } else {
        let j = (k - 1) as nat;
        lemma_chunks_prefix(text, size, j);
        lemma_chunk_count(text.len(), size, j);
        assert((j + 1) * size == j * size + size) by (nonlinear_arith);
        assert(all.take(k as int) == all.take(j as int).push(all[j as int]));
        all.take(j as int).lemma_flatten_push(all[j as int]);
        assert(all[j as int] == chunk(text, size, j as int));
        assert(text.take(chunk_start(text.len(), size, j)) + chunk(text, size, j as int)
            == text.take(chunk_start(text.len(), size, k)));
    }
}

/// The chunks of a text divide it: there are as many as the length of the
/// text divided by the chunk size, rounded up, so none for an empty text;
/// each holds at least one character and at most `size`; and one after the
/// other, in their order, they are the text.
pub proof fn lemma_chunks_partition(text: Seq<char>, size: nat)
    requires
        size > 0,
    ensures
        chunks(text, size).len() == chunk_count(text.len(), size),
        text.len() == 0 <==> chunks(text, size).len() == 0,
        forall|i: int|
            0 <= i < chunks(text, size).len() ==> 1 <= (#[trigger] chunks(text, size)[i]).len()
                <= size,
        chunks(text, size).flatten() == text,
{
    let all = chunks(text, size);
    let count = chunk_count(text.len(), size);
    lemma_chunk_count(text.len(), size, 0);
    assert(0 * size == 0);
    assert forall|i: int| 0 <= i < all.len() implies 1 <= (#[trigger] all[i]).len() <= size by {
        lemma_chunk_count(text.len(), size, i as nat);
        assert((i + 1) * size == i * size + size) by (nonlinear_arith);
    }
    lemma_chunks_prefix(text, size, count);
    lemma_chunk_count(text.len(), size, count);
    assert(all.take(count as int) == all);
    assert(text.take(text.len() as int) == text);
}

/// Writes `text` as TXT record lines of `domain`, one for each chunk of at
/// most `chunk_size` characters. An empty text gives no line.
///
/// A chunk is counted in characters, so no character is ever cut in two; in
/// Base64 text a character is a byte.
pub fn frame_records(text: &str, domain: &str, ttl: u32, chunk_size: usize) -> (zone: String)
    requires
        chunk_size > 0,
    ensures
        zone@ == zone_text(text@, domain@, ttl as nat, chunk_size as nat),
{
    let chars = to_chars(text);
    let len = chars.len();
    let ghost size = chunk_size as nat;
    let ghost all = chunks(text@, size);
    let mut zone = String::new();
    let mut start: usize = 0;
    let mut index: usize = 0;
    while start < len
        invariant
            chunk_size > 0,
            size == chunk_size,
            len == chars.len(),
            chars@ == text@,
            all == chunks(text@, size),
            start <= len,
            index <= start,
            index <= all.len(),
            start == if index * size <= len { index * size } else { len as int },
            zone@ == zone_lines(domain@, ttl as nat, all.take(index as int)),
        decreases len - start,
    {
        proof {
            lemma_chunk_count(len as nat, size, index as nat);
            assert((index + 1) * size == index * size + size) by (nonlinear_arith);
        }
        let end = if chunk_size >= len - start {
            len
        } else {
            start + chunk_size
        };
        let ghost done = all.take(index as int);
        let ghost next = all.take(index + 1);
        proof {
            assert(next.drop_last() == done);
            assert(next.last() == chunk(text@, size, index as int));
            assert(next.last() == chars@.subrange(start as int, end as int));
        }
        if index > 0 {
            zone.push('\n');
        }
        let ghost lead = zone@;
        zone.append(domain);
        zone.push('.');
        zone.push('\t');
        push_decimal(&mut zone, ttl as u64);
        zone.append("\tIN\tTXT\t");
        proof {
            reveal_strlit("\tIN\tTXT\t");
            assert("\tIN\tTXT\t"@ == class_and_type());
        }
        zone.push('"');
        push_decimal(&mut zone, index as u64);
        zone.push(':');
        let ghost head = zone@;
        let mut at: usize = start;
        while at < end
            invariant
                start <= at <= end <= chars.len(),
                zone@ == head + chars@.subrange(start as int, at as int),
            decreases end - at,
        {
            zone.push(chars[at]);
            at += 1;
        }
        zone.push('"');
        proof {
            assert(zone@ == lead + record_line(
                domain@,
                ttl as nat,
                index as nat,
                chars@.subrange(start as int, end as int),
            ));
        }
        start = end;
        index += 1;
    }
    proof {
        lemma_chunk_count(len as nat, size, index as nat);
        assert(all.take(index as int) == all);
    }
    zone
}

} // verus!
