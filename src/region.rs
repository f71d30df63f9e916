use vstd::prelude::*;
use crate::node::Node;
use crate::link::{Link, Obstacle};

verus! {

/// A room: its nodes, the links between them, and its obstacles.
pub struct Region {
    pub id: i64,
    pub name: String,
    pub area: String,
    pub subarea: String,
    pub room_address: Option<String>,
    pub note: Option<Note>,
    pub nodes: Vec<Node>,
    pub links: Vec<Link>,
    pub obstacles: Option<Vec<Obstacle>>,
}

/// A free-text note: one line or several.
#[derive(Clone, Debug)]
pub enum Note {
    Note(String),
    Notes(Vec<String>),
}

/// The contents of one region definition file.
pub struct RegionFile {
    pub schema: String,
    pub rooms: Option<Vec<Region>>,
}

} // verus!
