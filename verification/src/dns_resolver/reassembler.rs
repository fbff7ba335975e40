//! Collecting fragments as they come, and putting their text together.

use crate::dns_resolver::fragment::{marker_limit, Fragment, FragmentView};
use crate::dns_resolver::ordering::{
    ascending, has_repeated_marker, joined, lemma_ascending_text, lemma_marked_add,
    lemma_marked_none, marked, reassembled, views,
};
use vstd::prelude::*;
use vstd::string::StringExecFns;

verus! {

/// The fragments received so far, kept by ascending marker; those with the
/// same marker in the order in which they came.
pub struct Reassembler {
    records: Vec<Fragment>,
}

impl View for Reassembler {
    type V = Seq<FragmentView>;

    /// The fragments as they are kept.
    closed spec fn view(&self) -> Seq<FragmentView> {
        views(self.records@)
    }
}

/// The place in `sorted` behind every fragment whose marker is `marker` or less.
fn insertion_point(sorted: &Vec<Fragment>, marker: u64) -> (place: usize)
    requires
        ascending(views(sorted@)),
    ensures
        place <= sorted.len(),
        forall|i: int| 0 <= i < place ==> (#[trigger] sorted[i]).marker <= marker,
        forall|i: int| place <= i < sorted.len() ==> (#[trigger] sorted[i]).marker > marker,
{
    let mut low: usize = 0;
    let mut high: usize = sorted.len();
    while low < high
        invariant
            low <= high <= sorted.len(),
            ascending(views(sorted@)),
            forall|i: int| 0 <= i < low ==> (#[trigger] sorted[i]).marker <= marker,
            forall|i: int| high <= i < sorted.len() ==> (#[trigger] sorted[i]).marker > marker,
        decreases high - low,
    {
        let middle = low + (high - low) / 2;
        if sorted[middle].marker <= marker {
            assert forall|i: int| 0 <= i < middle + 1 implies (#[trigger] sorted[i]).marker
                <= marker by {
                assert(views(sorted@)[i].marker <= views(sorted@)[middle as int].marker);
            }
            low = middle + 1;
        } else {
            assert forall|i: int| middle <= i < sorted.len() implies (#[trigger] sorted[i]).marker
                > marker by {
                assert(views(sorted@)[middle as int].marker <= views(sorted@)[i].marker);
            }
            high = middle;
        }
    }
    low
}

impl Reassembler {
    #[verifier::type_invariant]
    spec fn sorted(&self) -> bool {
        ascending(views(self.records@))
    }

    /// A reassembler that has received nothing.
    pub fn new() -> (fresh: Self)
        ensures
            fresh@ == Seq::<FragmentView>::empty(),
    {
        Reassembler { records: Vec::new() }
    }

    /// Receives `fragment`: it comes behind the fragments with the same
    /// marker, and before those with a greater one.
    ///
    /// Under every marker the fragments are those that were there, with
    /// `fragment` as the last under its own.
    pub fn accept(&mut self, fragment: Fragment)
        ensures
            final(self)@.len() == old(self)@.len() + 1,
            forall|m: nat| #[trigger]
                marked(final(self)@, m) == marked(old(self)@.push(fragment@), m),
    {
        proof {
            use_type_invariant(&*self);
        }
        let place = insertion_point(&self.records, fragment.marker);
        let ghost before = views(self.records@);
        let ghost added = fragment@;
        // The vector is taken out while it changes, and put back sorted.
        let mut records: Vec<Fragment> = Vec::new();
        std::mem::swap(&mut self.records, &mut records);
        records.insert(place, fragment);
        proof {
            let after = views(records@);
            let head = before.take(place as int);
            let tail = before.skip(place as int);
            assert(after == head.push(added) + tail);
            assert(before.push(added) == head + tail.push(added));
            assert forall|m: nat| #[trigger] marked(after, m) == marked(before.push(added), m) by {
                lemma_marked_add(head.push(added), tail, m);
                lemma_marked_add(head, tail.push(added), m);
                assert(head.push(added).drop_last() == head);
                assert(tail.push(added).drop_last() == tail);
                if m == added.marker {
                    lemma_marked_none(tail, m);
                }
            }
            assert forall|i: int, j: int| 0 <= i <= j < after.len() implies (
            #[trigger] after[i]).marker <= (#[trigger] after[j]).marker by {
                let oi = if i < place { i } else { i - 1 };
                let oj = if j < place { j } else { j - 1 };
                if i != place && j != place {
                    assert(before[oi].marker <= before[oj].marker);
                }
            }
        }
        std::mem::swap(&mut self.records, &mut records);
    }

    /// The text that the fragments received make up: their payloads by
    /// ascending marker.
    pub fn text(&self) -> (text: String)
        ensures
            text@ == reassembled(self@),
    {
        let mut text = String::new();
        let mut i: usize = 0;
        while i < self.records.len()
            invariant
                i <= self.records.len(),
                text@ == joined(views(self.records@).take(i as int)),
            decreases self.records.len() - i,
        {
            proof {
                let next = views(self.records@).take(i + 1);
                assert(next.drop_last() == views(self.records@).take(i as int));
                assert(next.last() == self.records[i as int]@);
            }
            text.append(self.records[i].payload.as_str());
            i += 1;
        }
        proof {
            use_type_invariant(self);
            assert(views(self.records@).take(self.records.len() as int) == views(self.records@));
            lemma_ascending_text(views(self.records@), marker_limit());
        }
        text
    }

    /// Whether two of the fragments received carry the same marker.
    pub fn has_duplicate_markers(&self) -> (found: bool)
        ensures
            found == has_repeated_marker(self@),
    {
        proof {
            use_type_invariant(self);
        }
        let ghost frags = views(self.records@);
        let mut i: usize = 1;
        while i < self.records.len()
            invariant
                1 <= i,
                frags == views(self.records@),
                ascending(frags),
                forall|k: int| 1 <= k < i && k < frags.len() ==> (#[trigger] frags[k - 1]).marker
                    < frags[k].marker,
            decreases self.records.len() - i,
        {
            if self.records[i - 1].marker == self.records[i].marker {
                assert(frags[i - 1].marker == frags[i as int].marker);
                return true;
            }
            assert(frags[i - 1].marker <= frags[i as int].marker);
            i += 1;
        }
        proof {
            // Neighbours differ, so the markers ascend strictly.
            assert forall|a: int, b: int| 0 <= a < b < frags.len() implies (
            #[trigger] frags[a]).marker != (#[trigger] frags[b]).marker by {
                assert(frags[a].marker <= frags[b - 1].marker);
                assert(frags[b - 1].marker < frags[b].marker);
            }
        }
        false
    }

    /// The fragments received, by ascending marker.
    pub fn into_fragments(self) -> (records: Vec<Fragment>)
        ensures
            views(records@) == self@,
            ascending(views(records@)),
    {
        proof {
            use_type_invariant(&self);
        }
        self.records
    }
}

} // verus!
