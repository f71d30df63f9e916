use vstd::prelude::*;
use crate::requirement::Requirement;

verus! {

/// A weapon, the requirement to use it, and its damage categories.
pub struct Weapon {
    pub id: i64,
    pub name: String,
    pub situational: bool,
    pub use_requires: Requirement,
    pub categories: Vec<String>,
}

/// The contents of the weapon definition file.
pub struct WeaponFile {
    pub schema: String,
    pub weapons: Option<Vec<Weapon>>,
}

} // verus!
