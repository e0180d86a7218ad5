use crate::journey_bitmap::WORLD_PIXELS;
use vstd::prelude::*;

verus! {

/// One recorded position, as a world pixel of the bitmap grid.
#[derive(Debug, PartialEq, Eq, Structural, Clone, Copy)]
pub struct TrackPoint {
    pub x: u32,
    pub y: u32,
}

impl TrackPoint {
    pub open spec fn wf(&self) -> bool {
        self.x < WORLD_PIXELS && self.y < WORLD_PIXELS
    }
}

/// One uninterrupted run of recorded positions.
pub struct TrackSegment {
    pub track_points: Vec<TrackPoint>,
}

impl TrackSegment {
    pub open spec fn wf(&self) -> bool {
        forall|i: int| 0 <= i < self.track_points@.len() ==> (#[trigger] self.track_points@[i]).wf()
    }
}

/// A polyline journey: an ordered list of track segments.
pub struct JourneyVector {
    pub track_segments: Vec<TrackSegment>,
}

impl JourneyVector {
    pub open spec fn wf(&self) -> bool {
        forall|i: int|
            0 <= i < self.track_segments@.len() ==> (#[trigger] self.track_segments@[i]).wf()
    }
}

} // verus!
