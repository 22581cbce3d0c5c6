//! The segment: one directed leg between two opaque endpoints.

use vstd::prelude::*;

verus! {

/// Mathematical model of a segment: its two endpoints as character sequences.
pub ghost struct SegmentView {
    pub origin: Seq<char>,
    pub destination: Seq<char>,
}

/// One directed leg from `origin` to `destination`.
///
/// The endpoints are fixed when the segment is made; there is no way to change
/// them afterwards.
#[derive(Debug)]
pub struct Segment {
    origin: String,
    destination: String,
}

impl View for Segment {
    type V = SegmentView;

    closed spec fn view(&self) -> SegmentView {
        SegmentView { origin: self.origin@, destination: self.destination@ }
    }
}

impl DeepView for Segment {
    type V = SegmentView;

    open spec fn deep_view(&self) -> SegmentView {
        self@
    }
}

impl Segment {
    /// Makes the segment that leads from `origin` to `destination`.
    pub fn new(origin: String, destination: String) -> (segment: Segment)
        ensures
            segment@ == (SegmentView { origin: origin@, destination: destination@ }),
    {
        Segment { origin, destination }
    }

    /// Where the segment starts.
    pub fn origin(&self) -> (origin: &String)
        ensures
            origin@ == self@.origin,
    {
        &self.origin
    }

    /// Where the segment ends.
    pub fn destination(&self) -> (destination: &String)
        ensures
            destination@ == self@.destination,
    {
        &self.destination
    }
}

impl Clone for Segment {
    fn clone(&self) -> (copy: Segment)
        ensures
            copy@ == self@,
    {
        Segment { origin: self.origin.clone(), destination: self.destination.clone() }
    }
}

impl PartialEq for Segment {
    fn eq(&self, other: &Segment) -> (equal: bool) {
        self.origin == other.origin && self.destination == other.destination
    }
}

impl Eq for Segment {

}

impl vstd::std_specs::cmp::PartialEqSpecImpl for Segment {
    open spec fn obeys_eq_spec() -> bool {
        true
    }

    open spec fn eq_spec(&self, other: &Segment) -> bool {
        self@ == other@
    }
}

} // verus!
