use vstd::prelude::*;

verus! {

/// An enemy and the weapon names or damage categories it is immune to.
pub struct Enemy {
    pub id: i64,
    pub name: String,
    pub invul: Option<Vec<String>>,
}

/// The contents of the enemy definition file.
pub struct EnemyFile {
    pub schema: String,
    pub enemies: Option<Vec<Enemy>>,
}

} // verus!
