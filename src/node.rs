use vstd::prelude::*;
use crate::sparking::{Sparking, Runway};
use crate::requirement::Requirement;
use crate::region::Note;
use crate::link::Strat;

verus! {

/// A point of interest inside a region.
pub struct Node {
    pub id: i64,
    pub name: String,
    pub node_type: Option<NodeType>,
    pub node_sub_type: Option<NodeSubType>,
    pub node_item: Option<String>,
    pub node_address: Option<String>,
    pub interaction_requires: Option<Requirement>,
    pub runways: Option<Vec<Runway>>,
    pub sparking: Option<Sparking>,
    pub spawn_at: Option<i64>,
    pub locks: Option<Vec<Lock>>,
    pub utility: Option<Vec<Utility>>,
    pub view: Option<Requirement>,
    pub yields: Option<Vec<String>>,
    pub note: Option<Note>,
}

/// A gate on a node: a hard lock, or strats that open or bypass it.
pub struct Lock {
    pub name: Option<String>,
    pub lock: Option<Requirement>,
    pub unlock_strats: Option<Vec<Strat>>,
    pub bypass_strats: Option<Vec<Strat>>,
    pub note: Option<Note>,
}

/// Payload of the can-visit-node requirement.
#[derive(Clone, Debug)]
pub struct CanVisitNode {
    pub number: i64,
    pub scope: String,
}

/// What kind of place a node is.
#[derive(Clone, Copy, Debug, PartialEq, Eq, Structural)]
pub enum NodeType {
    Door,
    Entrance,
    Exit,
    Event,
    Item,
    Junction,
}

/// A finer classification of a node.
#[derive(Clone, Copy, Debug, PartialEq, Eq, Structural)]
pub enum NodeSubType {
    Boss,
    Chozo,
    Flag,
    Hidden,
    Visible,
    Blue,
    Doorway,
    Elevator,
    Eye,
    Gray,
    Grey,
    Green,
    OneWay,
    Passage,
    Red,
    Sandpit,
    Vertical,
    Yellow,
    Junction,
    Chest,
    Dash,
    Dig,
    Standing,
    Tablet,
    ClosedWall,
}

/// A service a node offers.
#[derive(Clone, Copy, Debug, PartialEq, Eq, Structural)]
pub enum Utility {
    Save,
    Missile,
    Super,
    PowerBomb,
    Energy,
    Reserve,
    AreaMap,
}

} // verus!
