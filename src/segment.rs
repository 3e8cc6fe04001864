use vstd::prelude::*;

use crate::sequence::BcSegSeq;
use crate::whitelist::SquareBinRowOrColumnIndex;

verus! {

/// Where a barcode segment stands in its check against a whitelist.
#[derive(Clone, Copy, Debug, PartialEq, Eq, Structural)]
pub enum BarcodeSegmentState {
    NotChecked,
    ValidBeforeCorrection,
    ValidAfterCorrection,
    Invalid,
}

impl BarcodeSegmentState {
    /// The state after a check with outcome `valid`: a miss makes the
    /// segment invalid; a hit makes an unchecked segment valid before
    /// correction, an invalid one valid after correction, and leaves a
    /// valid one as it is.
    pub open spec fn spec_changed(self, valid: bool) -> BarcodeSegmentState {
        if !valid {
            BarcodeSegmentState::Invalid
        } else {
            match self {
                BarcodeSegmentState::NotChecked => BarcodeSegmentState::ValidBeforeCorrection,
                BarcodeSegmentState::Invalid => BarcodeSegmentState::ValidAfterCorrection,
                other => other,
            }
        }
    }

    pub fn change(&mut self, valid: bool)
        ensures
            *final(self) == old(self).spec_changed(valid),
    {
        *self = if !valid {
            BarcodeSegmentState::Invalid
        } else {
            match *self {
                BarcodeSegmentState::NotChecked => BarcodeSegmentState::ValidBeforeCorrection,
                BarcodeSegmentState::Invalid => BarcodeSegmentState::ValidAfterCorrection,
                other => other,
            }
        };
    }
}

/// What a barcode segment holds: its sequence, or after a spatial lookup its
/// sequence together with its spatial index.
#[derive(Debug)]
pub enum BarcodeSegmentContent {
    Sequence(BcSegSeq),
    SpatialIndex(BcSegSeq, SquareBinRowOrColumnIndex),
}

/// One barcode segment of a read, with the state of its whitelist check.
#[derive(Debug)]
pub struct BarcodeSegment {
    pub state: BarcodeSegmentState,
    pub content: BarcodeSegmentContent,
}

impl BarcodeSegment {
    /// The segment's sequence.
    pub open spec fn spec_sequence(&self) -> Seq<u8> {
        match self.content {
            BarcodeSegmentContent::Sequence(s) => s@,
            BarcodeSegmentContent::SpatialIndex(s, _) => s@,
        }
    }

    /// The segment's content as its sequence and its spatial index, if any.
    pub open spec fn content_view(&self) -> (Seq<u8>, Option<SquareBinRowOrColumnIndex>) {
        match self.content {
            BarcodeSegmentContent::Sequence(s) => (s@, None),
            BarcodeSegmentContent::SpatialIndex(s, i) => (s@, Some(i)),
        }
    }

    /// A segment not yet checked against a whitelist.
    pub fn new(seq: BcSegSeq) -> (r: BarcodeSegment)
        ensures
            r.state == BarcodeSegmentState::NotChecked,
            r.content_view() == (seq@, None::<SquareBinRowOrColumnIndex>),
    {
        BarcodeSegment { state: BarcodeSegmentState::NotChecked, content: BarcodeSegmentContent::Sequence(seq) }
    }

    pub fn sequence(&self) -> (r: &BcSegSeq)
        ensures
            r@ == self.spec_sequence(),
    {
        match &self.content {
            BarcodeSegmentContent::Sequence(s) => s,
            BarcodeSegmentContent::SpatialIndex(s, _) => s,
        }
    }
}

} // verus!
