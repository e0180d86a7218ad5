use vstd::prelude::*;

verus! {

/// What kind of journey a stored artifact records.
#[derive(Debug, PartialEq, Eq, Structural, Clone, Copy)]
pub enum JourneyKind {
    DefaultKind,
    Flight,
}

/// What the aggregator reads of a stored journey: its kind and its day,
/// counted as days from an arbitrary epoch.
#[derive(Debug, PartialEq, Eq, Structural, Clone, Copy)]
pub struct JourneyHeader {
    pub journey_kind: JourneyKind,
    pub journey_date: i64,
}

} // verus!
