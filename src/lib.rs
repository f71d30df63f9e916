//! Reachability logic for a game world: which item locations can be reached,
//! and returned from, with a given set of abilities.
//!
//! `world` holds the world and resolves helper and tech flags; `requirement`
//! evaluates requirement expressions; `location` runs the search: a
//! depth-first pass repeated until no new event is gained, with a nested
//! search from each item that confirms a way back to the origin.

pub mod node;
pub mod region;
pub mod requirement;
pub mod sparking;
pub mod link;
pub mod connection;
pub mod world;
pub mod location;
pub mod weapon;
pub mod enemy;
pub mod helper;
pub mod tech;
