use vstd::prelude::*;
use crate::link::Strat;

verus! {

/// Shine-spark data attached to a node.
pub struct Sparking {
    pub runways: Option<Vec<Runway>>,
    pub can_leave_charged: Option<Vec<CanLeaveCharged>>,
}

/// A runway usable to build up speed at a node.
pub struct Runway {
    pub length: i64,
    pub strats: Option<Vec<Strat>>,
    pub usable_coming_in: Option<bool>,
    pub open_end: i64,
}

/// A way of leaving a room while holding a shine charge.
pub struct CanLeaveCharged {
    pub used_tiles: i64,
    pub frames_remaining: i64,
    pub strats: Option<Vec<Strat>>,
    pub open_end: i64,
}

/// Payload of the shine-charge requirement.
#[derive(Clone, Debug, PartialEq, Eq, Structural)]
pub struct CanShineCharge {
    pub used_tiles: i64,
}

/// Payload of the "come in charged" requirement.
#[derive(Clone, Debug, PartialEq, Eq, Structural)]
pub struct CanComeInCharged {
    pub from_node: i64,
    pub frames_remaining: i64,
}

/// Payload of the adjacent-runway requirement.
#[derive(Clone, Debug, PartialEq, Eq, Structural)]
pub struct AdjacentRunway {
    pub from_node: i64,
    pub used_tiles: i64,
}

} // verus!
