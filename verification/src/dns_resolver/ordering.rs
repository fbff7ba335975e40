//! The order in which fragments make up the text again.
//!
//! Answers come in any order, so the text is put together by marker: first
//! what the fragments with marker 0 carry, then what those with marker 1
//! carry, and so on. Fragments that share a marker keep the order in which
//! they came. A marker that no fragment carries adds nothing.

use crate::dns_resolver::fragment::{marker_limit, Fragment, FragmentView};
use vstd::prelude::*;

verus! {

/// The fragments among `frags` that carry `marker`, in the order they have there.
pub open spec fn marked(frags: Seq<FragmentView>, marker: nat) -> Seq<FragmentView>
    decreases frags.len(),
{
    if frags.len() == 0 {
        Seq::empty()
    } else if frags.last().marker == marker {
        marked(frags.drop_last(), marker).push(frags.last())
    } else {
        marked(frags.drop_last(), marker)
    }
}

/// The payloads of `frags` one after the other.
pub open spec fn joined(frags: Seq<FragmentView>) -> Seq<char>
    decreases frags.len(),
{
    if frags.len() == 0 {
        Seq::empty()
    } else {
        joined(frags.drop_last()) + frags.last().payload
    }
}

/// What the fragments with a marker below `bound` carry, by ascending marker.
pub open spec fn text_below(frags: Seq<FragmentView>, bound: nat) -> Seq<char>
    decreases bound,
{
    if bound == 0 {
        Seq::empty()
    } else {
        text_below(frags, (bound - 1) as nat) + joined(marked(frags, (bound - 1) as nat))
    }
}

/// The text that `frags` make up.
pub open spec fn reassembled(frags: Seq<FragmentView>) -> Seq<char> {
    text_below(frags, marker_limit())
}

/// Whether no fragment of `frags` is followed by one with a smaller marker.
pub open spec fn ascending(frags: Seq<FragmentView>) -> bool {
    forall|i: int, j: int|
        0 <= i <= j < frags.len() ==> (#[trigger] frags[i]).marker <= (#[trigger] frags[j]).marker
}

/// The contents of the fragments of `frags`.
pub open spec fn views(frags: Seq<Fragment>) -> Seq<FragmentView> {
    frags.map_values(|f: Fragment| f@)
}

/// Picking by marker goes through a concatenation.
pub proof fn lemma_marked_add(a: Seq<FragmentView>, b: Seq<FragmentView>, marker: nat)
    ensures
        marked(a + b, marker) == marked(a, marker) + marked(b, marker),
    decreases b.len(),
{
    if b.len() == 0 {
        assert(a + b == a);
    } else {
        lemma_marked_add(a, b.drop_last(), marker);
        assert((a + b).drop_last() == a + b.drop_last());
    }
}

/// Where no fragment carries `marker`, none is picked.
pub proof fn lemma_marked_none(frags: Seq<FragmentView>, marker: nat)
    requires
        forall|i: int| 0 <= i < frags.len() ==> (#[trigger] frags[i]).marker != marker,
    ensures
        marked(frags, marker) == Seq::<FragmentView>::empty(),
    decreases frags.len(),
{
    if frags.len() > 0 {
        lemma_marked_none(frags.drop_last(), marker);
    }
}

/// Two sequences that agree on every marker below `bound` give the same text
/// below it.
pub proof fn lemma_text_below_agrees(a: Seq<FragmentView>, b: Seq<FragmentView>, bound: nat)
    requires
        forall|m: nat| m < bound ==> #[trigger] marked(a, m) == marked(b, m),
    ensures
        text_below(a, bound) == text_below(b, bound),
    decreases bound,
{
    if bound > 0 {
        lemma_text_below_agrees(a, b, (bound - 1) as nat);
    }
}

/// Markers that no fragment carries add nothing to the text.
pub proof fn lemma_text_below_rest(frags: Seq<FragmentView>, from: nat, to: nat)
    requires
        from <= to,
        forall|i: int| 0 <= i < frags.len() ==> !(from <= (#[trigger] frags[i]).marker < to),
    ensures
        text_below(frags, to) == text_below(frags, from),
    decreases to,
{
    if from < to {
        lemma_text_below_rest(frags, from, (to - 1) as nat);
        lemma_marked_none(frags, (to - 1) as nat);
    }
}

/// Fragments that stand by ascending marker make up the text as they stand.
pub proof fn lemma_ascending_text(frags: Seq<FragmentView>, bound: nat)
    requires
        ascending(frags),
        forall|i: int| 0 <= i < frags.len() ==> (#[trigger] frags[i]).marker < bound,
    ensures
        joined(frags) == text_below(frags, bound),
    decreases frags.len(),
{
    if frags.len() == 0 {
        lemma_text_below_rest(frags, 0, bound);
    } else {
        let rest = frags.drop_last();
        let last = frags.last();
        let top = last.marker;
        lemma_ascending_text(rest, top + 1);
        // Below the last marker the last fragment adds nothing.
        assert forall|m: nat| m < top implies marked(frags, m) == marked(rest, m) by {}
        lemma_text_below_agrees(frags, rest, top);
        // At the last marker it comes after all the others.
        assert(marked(frags, top) == marked(rest, top).push(last));
        assert(marked(rest, top).push(last).drop_last() == marked(rest, top));
        assert(text_below(frags, top + 1) == text_below(rest, top + 1) + last.payload);
        // Above it there is nothing.
        lemma_text_below_rest(frags, top + 1, bound);
    }
}

/// Sorting by marker, fragments with the same marker left in their order,
/// gives the text: where `sorted` stands by ascending marker and holds under
/// every marker the fragments that `frags` holds under it, in the same order,
/// the payloads of `sorted` one after the other are the text of `frags`.
pub proof fn lemma_sorted_text(frags: Seq<FragmentView>, sorted: Seq<FragmentView>)
    requires
        ascending(sorted),
        forall|i: int| 0 <= i < sorted.len() ==> (#[trigger] sorted[i]).marker < marker_limit(),
        forall|m: nat| #[trigger] marked(sorted, m) == marked(frags, m),
    ensures
        joined(sorted) == reassembled(frags),
{
    lemma_ascending_text(sorted, marker_limit());
    lemma_text_below_agrees(sorted, frags, marker_limit());
}

/// Whether two fragments of `frags` carry the same marker.
pub open spec fn has_repeated_marker(frags: Seq<FragmentView>) -> bool {
    exists|i: int, j: int|
        0 <= i < j < frags.len() && (#[trigger] frags[i]).marker == (#[trigger] frags[j]).marker
}

/// A marker under which a fragment stands picks at least that fragment.
pub proof fn lemma_marked_some(frags: Seq<FragmentView>, i: int)
    requires
        0 <= i < frags.len(),
    ensures
        marked(frags, frags[i].marker).len() >= 1,
        i < frags.len() - 1 && frags.last().marker == frags[i].marker ==> marked(
            frags,
            frags[i].marker,
        ).len() >= 2,
    decreases frags.len(),
{
    if i < frags.len() - 1 {
        lemma_marked_some(frags.drop_last(), i);
    }
}

/// A marker comes more than once exactly where it picks two fragments or more.
pub proof fn lemma_repeated_marker(frags: Seq<FragmentView>)
    ensures
        has_repeated_marker(frags) <==> exists|m: nat| (#[trigger] marked(frags, m)).len() >= 2,
    decreases frags.len(),
{
    if frags.len() > 0 {
        let rest = frags.drop_last();
        let last = frags.last();
        lemma_repeated_marker(rest);
        if has_repeated_marker(frags) {
            let (i, j) = choose|i: int, j: int|
                0 <= i < j < frags.len() && (#[trigger] frags[i]).marker == (
                #[trigger] frags[j]).marker;
            if j == frags.len() - 1 {
                lemma_marked_some(frags, i);
                assert(marked(frags, last.marker).len() >= 2);
            } else {
                assert(rest[i].marker == rest[j].marker);
                assert(has_repeated_marker(rest));
                let m = choose|m: nat| (#[trigger] marked(rest, m)).len() >= 2;
                assert(marked(frags, m).len() >= 2);
            }
        }
        if exists|m: nat| (#[trigger] marked(frags, m)).len() >= 2 {
            let m = choose|m: nat| (#[trigger] marked(frags, m)).len() >= 2;
            if marked(rest, m).len() >= 2 {
                let (i, j) = choose|i: int, j: int|
                    0 <= i < j < rest.len() && (#[trigger] rest[i]).marker == (
                    #[trigger] rest[j]).marker;
                assert(frags[i].marker == frags[j].marker);
            } else {
                // The last fragment is one of the two; another stands before it.
                assert(last.marker == m && marked(rest, m).len() >= 1);
                if forall|i: int| 0 <= i < rest.len() ==> (#[trigger] rest[i]).marker != m {
                    lemma_marked_none(rest, m);
                }
                let i = choose|i: int| 0 <= i < rest.len() && (#[trigger] rest[i]).marker == m;
                assert(frags[i].marker == frags[frags.len() - 1].marker);
            }
        }
    }
}

} // verus!
