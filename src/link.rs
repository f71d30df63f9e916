use vstd::prelude::*;
use crate::requirement::Requirement;
use crate::region::Note;

verus! {

/// All in-room edges that leave one node.
pub struct Link {
    pub from: i64,
    pub to: Vec<LinkTo>,
}

/// One destination of a link, with the strats that can be used to reach it.
pub struct LinkTo {
    pub id: i64,
    pub strats: Option<Vec<Strat>>,
    pub requires: Option<Requirement>,
    pub unlock: Option<Requirement>,
    pub yields: Option<Vec<String>>,
    pub note: Option<Note>,
}

/// A named way of traversing an edge or opening a lock.
pub struct Strat {
    pub name: String,
    pub notable: bool,
    pub requires: Option<Requirement>,
    pub obstacles: Option<Vec<Obstacle>>,
    pub note: Option<Note>,
}

/// A room-local gate; once cleared it stays cleared for the rest of a search branch.
pub struct Obstacle {
    pub id: Option<String>,
    pub requires: Option<Requirement>,
    pub bypass: Option<Requirement>,
}

/// Payload of the enemy-damage requirement.
#[derive(Clone, Debug)]
pub struct EnemyDamage {
    pub enemy: String,
    pub damage_type: String,
    pub hits: i64,
}

/// Payload of the reset-room requirement.
#[derive(Clone, Debug)]
pub struct ResetRoom {
    pub nodes: Vec<i64>,
    pub must_stay_put: Option<bool>,
    pub nodes_to_avoid: Option<Vec<i64>>,
}

/// Payload of the ammo requirement.
#[derive(Clone, Debug)]
pub struct Ammo {
    pub ammo_type: String,
    pub count: i64,
}

/// Payload of the ammo-drain requirement.
#[derive(Clone, Debug)]
pub struct AmmoDrain {
    pub ammo_type: String,
    pub count: i64,
}

/// Payload of the enemy-kill requirement: groups of enemy names, and weapons
/// that are enough on their own when usable.
#[derive(Clone, Debug)]
pub struct EnemyKill {
    pub enemies: Vec<Vec<String>>,
    pub explicit_weapons: Option<Vec<String>>,
}

} // verus!
