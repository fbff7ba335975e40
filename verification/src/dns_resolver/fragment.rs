//! Fragments: the numbered pieces of text that single TXT answers carry.

use crate::decimal::{decimal_number, parse_digits};
use crate::text::to_chars;
use vstd::prelude::*;

verus! {

/// One piece of the stored text, as an answer carries it.
#[derive(Debug, Clone, PartialEq, Eq)]
pub struct Fragment {
    /// Position of the piece among the pieces of the text.
    pub marker: u64,
    /// The piece itself.
    pub payload: String,
}

/// The mathematical content of a [`Fragment`].
pub struct FragmentView {
    pub marker: nat,
    pub payload: Seq<char>,
}

impl View for Fragment {
    type V = FragmentView;

    open spec fn view(&self) -> FragmentView {
        FragmentView { marker: self.marker as nat, payload: self.payload@ }
    }
}

/// One more than the largest marker.
pub open spec fn marker_limit() -> nat {
    0x1_0000_0000_0000_0000
}

/// The place of the first `c` in `s`, or the length of `s` where it holds none.
pub open spec fn first_index(s: Seq<char>, c: char) -> int
    decreases s.len(),
{
    if s.len() == 0 || s[0] == c {
        0
    } else {
        1 + first_index(s.drop_first(), c)
    }
}

/// The fragment that an answer carries.
///
/// An answer carries one where it is enclosed in double quotes and what is
/// enclosed holds a colon, the text before the first colon being a run of
/// decimal digits whose number fits in 64 bits. That number is the marker;
/// the payload is all that follows the first colon.
pub open spec fn fragment_of(answer: Seq<char>) -> Option<FragmentView> {
    if answer.len() >= 2 && answer.first() == '"' && answer.last() == '"' {
        let content = answer.subrange(1, answer.len() - 1);
        let colon = first_index(content, ':');
        if colon < content.len() {
            match decimal_number(content.take(colon)) {
                Some(marker) => Some(
                    FragmentView { marker: marker as nat, payload: content.skip(colon + 1) },
                ),
                None => None,
            }
        } else {
            None
        }
    } else {
        None
    }
}

/// The fragments that `answers` carry, in the order of the answers. An answer
/// that carries none is passed over.
pub open spec fn fragments(answers: Seq<Seq<char>>) -> Seq<FragmentView>
    decreases answers.len(),
{
    if answers.len() == 0 {
        Seq::empty()
    } else {
        match fragment_of(answers.last()) {
            Some(fragment) => fragments(answers.drop_last()).push(fragment),
            None => fragments(answers.drop_last()),
        }
    }
}

/// `first_index` is the one place before which no `c` stands and at which one
/// stands, or the sequence ends.
pub proof fn lemma_first_index(s: Seq<char>, c: char, i: int)
    requires
        0 <= i <= s.len(),
        forall|j: int| 0 <= j < i ==> s[j] != c,
        i < s.len() ==> s[i] == c,
    ensures
        first_index(s, c) == i,
    decreases s.len(),
{
    if i > 0 {
        lemma_first_index(s.drop_first(), c, i - 1);
    }
}

/// The fragments of two runs of answers, one after the other, are those of
/// the first run followed by those of the second.
pub proof fn lemma_fragments_add(a: Seq<Seq<char>>, b: Seq<Seq<char>>)
    ensures
        fragments(a + b) == fragments(a) + fragments(b),
    decreases b.len(),
{
    if b.len() == 0 {
        assert(a + b == a);
    } else {
        lemma_fragments_add(a, b.drop_last());
        assert((a + b).drop_last() == a + b.drop_last());
    }
}

/// The string made of `chars[from..to]`.
fn string_of(chars: &Vec<char>, from: usize, to: usize) -> (s: String)
    requires
        from <= to <= chars.len(),
    ensures
        s@ == chars@.subrange(from as int, to as int),
{
    let mut s = String::new();
    let mut i: usize = from;
    while i < to
        invariant
            from <= i <= to <= chars.len(),
            s@ == chars@.subrange(from as int, i as int),
        decreases to - i,
    {
        s.push(chars[i]);
        i += 1;
    }
    s
}

/// Reads the fragment that `answer` carries, if it carries one.
pub fn parse_answer(answer: &str) -> (fragment: Option<Fragment>)
    ensures
        match fragment {
            Some(f) => fragment_of(answer@) == Some(f@),
            None => fragment_of(answer@) is None,
        },
{
    let chars = to_chars(answer);
    let n = chars.len();
    if n < 2 || chars[0] != '"' || chars[n - 1] != '"' {
        return None;
    }
    let ghost content = chars@.subrange(1, n - 1);
    let mut colon: usize = 1;
    while colon < n - 1 && chars[colon] != ':'
        invariant
            1 <= colon <= n - 1,
            n == chars.len(),
            content == chars@.subrange(1, n - 1),
            forall|j: int| 0 <= j < colon - 1 ==> content[j] != ':',
        decreases n - colon,
    {
        colon += 1;
    }
    proof {
        lemma_first_index(content, ':', colon - 1);
    }
    if colon == n - 1 {
        return None;
    }
    proof {
        assert(content.take(colon - 1) == chars@.subrange(1, colon as int));
        assert(content.skip(colon as int) == chars@.subrange(colon + 1, n - 1));
    }
    match parse_digits(&chars, 1, colon) {
        None => None,
        Some(marker) => Some(Fragment { marker, payload: string_of(&chars, colon + 1, n - 1) }),
    }
}

} // verus!
