use vstd::prelude::*;
use crate::address::VirtualPageNumber;
use crate::entry::Flags;

verus! {

/// How the pages of a segment get their frames.
#[derive(Clone, Copy, PartialEq, Eq, Structural, Debug)]
pub enum MapType {
    /// Each virtual page maps to the physical page with the same number.
    Linear,
    /// Each virtual page gets a freshly allocated frame.
    Framed,
}

/// The virtual pages `start, start + 1, ..., end - 1`.
#[derive(Clone, Copy, PartialEq, Eq, Structural, Debug)]
pub struct Range {
    pub start: VirtualPageNumber,
    pub end: VirtualPageNumber,
}

impl Range {
    /// The number of pages covered.
    pub open spec fn spec_len(self) -> nat {
        if self.start.0 <= self.end.0 { (self.end.0 - self.start.0) as nat } else { 0 }
    }

    /// Whether `vpn` lies in the range.
    pub open spec fn covers(self, vpn: nat) -> bool {
        self.start.0 <= vpn < self.end.0
    }
}

/// A range of virtual pages, how to back them, and their permissions.
#[derive(Clone, Copy, PartialEq, Eq, Structural, Debug)]
pub struct Segment {
    pub map_type: MapType,
    pub page_range: Range,
    pub flags: Flags,
}

} // verus!
