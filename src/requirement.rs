use vstd::prelude::*;
use crate::sparking::{CanComeInCharged, CanShineCharge, AdjacentRunway};
use crate::node::CanVisitNode;
use crate::link::{EnemyDamage, ResetRoom, Ammo, EnemyKill, AmmoDrain};
use crate::location::State;
use crate::world::World;
use crate::enemy::Enemy;
use crate::weapon::Weapon;

verus! {

/// A boolean expression gating access, traversal or unlocking.
pub enum Requirement {
    Or { or: Vec<Requirement> },
    ExplicitAnd { and: Vec<Requirement> },
    Not { not: Vec<Requirement> },
    AdjacentRunway { adjacent_runway: AdjacentRunway },
    CanShineCharge { can_shine_charge: CanShineCharge },
    CanComeInCharged { can_come_in_charged: CanComeInCharged },
    CanVisitNode { can_visit_node: CanVisitNode },
    EnemyDamage { enemy_damage: EnemyDamage },
    ResetRoom { reset_room: ResetRoom },
    Ammo { ammo: Ammo },
    PreviousNode { previous_node: i64 },
    SpikeHits { spike_hits: i64 },
    EnemyKill { enemy_kill: EnemyKill },
    HeatFrames { heat_frames: i64 },
    AcidFrames { acid_frames: i64 },
    LavaFrames { lava_frames: i64 },
    DraygonElectricityFrames { draygon_electricity_frames: i64 },
    HibashiHits { hibashi_hits: i64 },
    EnergyAtMost { energy_at_most: i64 },
    PreviousStratProperty { previous_strat_property: String },
    AmmoDrain { ammo_drain: AmmoDrain },
    And(Vec<Requirement>),
    Req(String),
    Empty,
}

/// `x` is the text of one of the strings in `v`.
pub open spec fn in_strs(v: Seq<String>, x: Seq<char>) -> bool {
    exists|i: int| 0 <= i < v.len() && (#[trigger] v[i])@ == x
}

/// The name of the ability that makes a shine charge possible.
pub open spec fn speed_booster() -> Seq<char> {
    seq!['S', 'p', 'e', 'e', 'd', 'B', 'o', 'o', 's', 't', 'e', 'r']
}

/// The immunities of an enemy.
pub open spec fn invul_of(e: Enemy) -> Seq<String> {
    match e.invul {
        Some(v) => v@,
        None => Seq::empty(),
    }
}

/// `j` is the first enemy of the world named `name`.
pub open spec fn first_enemy(w: World, name: Seq<char>, j: int) -> bool {
    &&& 0 <= j < w.enemies@.len()
    &&& w.enemies@[j].name@ == name
    &&& forall|k: int| 0 <= k < j ==> (#[trigger] w.enemies@[k]).name@ != name
}

/// `x` (a weapon name or a damage category) is an immunity of one of the
/// enemies that a kill requirement names.
pub open spec fn kill_invuln(e: EnemyKill, w: World, x: Seq<char>) -> bool {
    exists|i: int, k: int, j: int|
        0 <= i < e.enemies@.len() && 0 <= k < e.enemies@[i]@.len()
            && #[trigger] first_enemy(w, e.enemies@[i]@[k]@, j)
            && in_strs(invul_of(w.enemies@[j]), x)
}

/// None of the enemies that a kill requirement names has any immunity.
pub open spec fn kill_no_invulns(e: EnemyKill, w: World) -> bool {
    forall|i: int, k: int, j: int|
        0 <= i < e.enemies@.len() && 0 <= k < e.enemies@[i]@.len()
            && #[trigger] first_enemy(w, e.enemies@[i]@[k]@, j)
            ==> invul_of(w.enemies@[j]).len() == 0
}

/// A weapon is stopped by the immunities of a kill requirement's enemies,
/// by its name or by one of its damage categories.
pub open spec fn kill_blocks(e: EnemyKill, w: World, wp: Weapon) -> bool {
    kill_invuln(e, w, wp.name@)
        || exists|c: int| 0 <= c < wp.categories@.len() && kill_invuln(e, w, (#[trigger] wp.categories@[c])@)
}

/// One of the weapons that `e` names is usable.
pub open spec fn kill_explicit(e: EnemyKill, w: World, items: Seq<String>, events: Seq<String>) -> bool {
    exists|i: int, j: int|
        0 <= i < e.explicit_weapons->Some_0@.len() && 0 <= j < w.weapons@.len()
        && e.explicit_weapons is Some
        && #[trigger] w.weapons@[j].name@ == #[trigger] e.explicit_weapons->Some_0@[i]@
        && !w.weapons@[j].situational
        && w.weapons@[j].use_requires.holds_at(true, items, w, events)
}

/// Some usable, non-situational weapon is not stopped by the enemies' immunities.
pub open spec fn kill_any_weapon(e: EnemyKill, w: World, items: Seq<String>, events: Seq<String>) -> bool {
    exists|j: int|
        0 <= j < w.weapons@.len()
        && !(#[trigger] w.weapons@[j]).situational
        && w.weapons@[j].use_requires.holds_at(true, items, w, events)
        && !kill_blocks(e, w, w.weapons@[j])
}

impl Requirement {
    /// Whether the requirement holds for the abilities `items` and the events
    /// gathered so far.
    pub open spec fn holds(self, items: Seq<String>, w: World, events: Seq<String>) -> bool {
        self.holds_at(false, items, w, events)
    }

    /// Evaluation, where `nested` marks the use requirement of a weapon being
    /// weighed for an enemy kill: there, a further enemy kill does not hold,
    /// which keeps the evaluation finite.
    pub open spec fn holds_at(self, nested: bool, items: Seq<String>, w: World, events: Seq<String>) -> bool
        decreases (if nested { 0int } else { 1int }), self, 1int,
    {
        match self {
            Requirement::Or { or } => exists|i: int|
                0 <= i < or@.len() && (#[trigger] or@[i]).holds_at(nested, items, w, events),
            Requirement::ExplicitAnd { and } => forall|i: int|
                0 <= i < and@.len() ==> (#[trigger] and@[i]).holds_at(nested, items, w, events),
            Requirement::Not { not } => !exists|i: int|
                0 <= i < not@.len() && (#[trigger] not@[i]).holds_at(nested, items, w, events),
            Requirement::CanShineCharge { .. } => in_strs(items, speed_booster()),
            Requirement::EnemyKill { enemy_kill } => {
                !nested && (
                    (exists|i: int, j: int|
                        0 <= i < enemy_kill.explicit_weapons->Some_0@.len() && 0 <= j < w.weapons@.len()
                        && enemy_kill.explicit_weapons is Some
                        && #[trigger] w.weapons@[j].name@ == #[trigger] enemy_kill.explicit_weapons->Some_0@[i]@
                        && !w.weapons@[j].situational
                        && w.weapons@[j].use_requires.holds_at(true, items, w, events))
                    || kill_no_invulns(enemy_kill, w)
                    || (exists|j: int|
                        0 <= j < w.weapons@.len()
                        && !(#[trigger] w.weapons@[j]).situational
                        && w.weapons@[j].use_requires.holds_at(true, items, w, events)
                        && !kill_blocks(enemy_kill, w, w.weapons@[j])))
            },
            Requirement::And(v) => forall|i: int|
                0 <= i < v@.len() ==> (#[trigger] v@[i]).holds_at(nested, items, w, events),
            Requirement::Req(r) => in_strs(items, r@) || in_strs(events, r@),
            _ => true,
        }
    }
}

/// Every text of `a` is a text of `b`.
pub open spec fn within(a: Seq<String>, b: Seq<String>) -> bool {
    forall|x: Seq<char>| #[trigger] in_strs(a, x) ==> in_strs(b, x)
}

/// The requirement has no negation anywhere in it.
pub open spec fn positive(r: Requirement) -> bool
    decreases r,
{
    match r {
        Requirement::Or { or } => forall|i: int| 0 <= i < or@.len() ==> positive(#[trigger] or@[i]),
        Requirement::ExplicitAnd { and } => forall|i: int| 0 <= i < and@.len() ==> positive(#[trigger] and@[i]),
        Requirement::Not { .. } => false,
        Requirement::And(v) => forall|i: int| 0 <= i < v@.len() ==> positive(#[trigger] v@[i]),
        _ => true,
    }
}

/// No weapon's use requirement has a negation in it.
pub open spec fn weapons_positive(w: World) -> bool {
    forall|j: int| 0 <= j < w.weapons@.len() ==> positive(#[trigger] w.weapons@[j].use_requires)
}

/// An enemy kill reads only the world's weapons and enemies.
proof fn lemma_kill_same_enemies(e: EnemyKill, w: World, w2: World)
    requires
        w2.weapons == w.weapons,
        w2.enemies == w.enemies,
    ensures
        kill_no_invulns(e, w2) == kill_no_invulns(e, w),
        forall|x: Seq<char>| kill_invuln(e, w2, x) == kill_invuln(e, w, x),
        forall|wp: Weapon| kill_blocks(e, w2, wp) == kill_blocks(e, w, wp),
{
    assert forall|n: Seq<char>, j: int| first_enemy(w2, n, j) == first_enemy(w, n, j) by {}
}

/// A requirement without negation that holds keeps holding with more
/// abilities and more events, in any world with the same weapons and enemies.
pub proof fn lemma_holds_monotone(
    r: Requirement,
    nested: bool,
    items1: Seq<String>,
    items2: Seq<String>,
    w: World,
    w2: World,
    events1: Seq<String>,
    events2: Seq<String>,
)
    requires
        positive(r),
        weapons_positive(w),
        w2.weapons == w.weapons,
        w2.enemies == w.enemies,
        within(items1, items2),
        within(events1, events2),
        r.holds_at(nested, items1, w, events1),
    ensures
        r.holds_at(nested, items2, w2, events2),
    decreases (if nested { 0int } else { 1int }), r,
{
    match r {
        Requirement::Or { or } => {
            let i = choose|i: int| 0 <= i < or@.len() && (#[trigger] or@[i]).holds_at(nested, items1, w, events1);
            lemma_holds_monotone(or@[i], nested, items1, items2, w, w2, events1, events2);
        },
        Requirement::ExplicitAnd { and } => {
            assert forall|i: int| 0 <= i < and@.len() implies (#[trigger] and@[i]).holds_at(nested, items2, w2, events2) by {
                lemma_holds_monotone(and@[i], nested, items1, items2, w, w2, events1, events2);
            }
        },
        Requirement::And(v) => {
            assert forall|i: int| 0 <= i < v@.len() implies (#[trigger] v@[i]).holds_at(nested, items2, w2, events2) by {
                lemma_holds_monotone(v@[i], nested, items1, items2, w, w2, events1, events2);
            }
        },
        Requirement::CanShineCharge { .. } => {
            assert(in_strs(items1, speed_booster()));
        },
        Requirement::Req(x) => {
            if in_strs(items1, x@) {
                assert(in_strs(items2, x@));
            } else {
                assert(in_strs(events1, x@));
                assert(in_strs(events2, x@));
            }
        },
        Requirement::EnemyKill { enemy_kill: e } => {
            lemma_kill_same_enemies(e, w, w2);
            if kill_explicit(e, w, items1, events1) {
                let (i, j) = choose|i: int, j: int|
                    0 <= i < e.explicit_weapons->Some_0@.len() && 0 <= j < w.weapons@.len()
                    && e.explicit_weapons is Some
                    && #[trigger] w.weapons@[j].name@ == #[trigger] e.explicit_weapons->Some_0@[i]@
                    && !w.weapons@[j].situational
                    && w.weapons@[j].use_requires.holds_at(true, items1, w, events1);
                lemma_holds_monotone(w.weapons@[j].use_requires, true, items1, items2, w, w2, events1, events2);
                assert(w2.weapons@[j] == w.weapons@[j]);
                assert(kill_explicit(e, w2, items2, events2));
            } else if kill_any_weapon(e, w, items1, events1) {
                let j = choose|j: int|
                    0 <= j < w.weapons@.len()
                    && !(#[trigger] w.weapons@[j]).situational
                    && w.weapons@[j].use_requires.holds_at(true, items1, w, events1)
                    && !kill_blocks(e, w, w.weapons@[j]);
                lemma_holds_monotone(w.weapons@[j].use_requires, true, items1, items2, w, w2, events1, events2);
                assert(w2.weapons@[j] == w.weapons@[j]);
                assert(kill_blocks(e, w2, w2.weapons@[j]) == kill_blocks(e, w, w.weapons@[j])) by {
                    lemma_kill_same_enemies(e, w, w2);
                }
                assert(kill_any_weapon(e, w2, items2, events2));
            }
        },
        _ => {},
    }
}

/// A requirement reads the abilities only through their texts, and the world
/// only through its weapons and enemies.
pub proof fn lemma_holds_same_texts(
    r: Requirement,
    nested: bool,
    items1: Seq<String>,
    items2: Seq<String>,
    w: World,
    w2: World,
    events: Seq<String>,
)
    requires
        within(items1, items2),
        within(items2, items1),
        w2.weapons == w.weapons,
        w2.enemies == w.enemies,
    ensures
        r.holds_at(nested, items1, w, events) == r.holds_at(nested, items2, w2, events),
    decreases (if nested { 0int } else { 1int }), r,
{
    match r {
        Requirement::Or { or } => {
            assert forall|i: int| 0 <= i < or@.len() implies (#[trigger] or@[i]).holds_at(nested, items1, w, events)
                == or@[i].holds_at(nested, items2, w2, events) by {
                lemma_holds_same_texts(or@[i], nested, items1, items2, w, w2, events);
            }
        },
        Requirement::ExplicitAnd { and } => {
            assert forall|i: int| 0 <= i < and@.len() implies (#[trigger] and@[i]).holds_at(nested, items1, w, events)
                == and@[i].holds_at(nested, items2, w2, events) by {
                lemma_holds_same_texts(and@[i], nested, items1, items2, w, w2, events);
            }
        },
        Requirement::Not { not } => {
            assert forall|i: int| 0 <= i < not@.len() implies (#[trigger] not@[i]).holds_at(nested, items1, w, events)
                == not@[i].holds_at(nested, items2, w2, events) by {
                lemma_holds_same_texts(not@[i], nested, items1, items2, w, w2, events);
            }
        },
        Requirement::And(v) => {
            assert forall|i: int| 0 <= i < v@.len() implies (#[trigger] v@[i]).holds_at(nested, items1, w, events)
                == v@[i].holds_at(nested, items2, w2, events) by {
                lemma_holds_same_texts(v@[i], nested, items1, items2, w, w2, events);
            }
        },
        Requirement::CanShineCharge { .. } => {
            assert(in_strs(items1, speed_booster()) ==> in_strs(items2, speed_booster()));
            assert(in_strs(items2, speed_booster()) ==> in_strs(items1, speed_booster()));
        },
        Requirement::Req(x) => {
            assert(in_strs(items1, x@) ==> in_strs(items2, x@));
            assert(in_strs(items2, x@) ==> in_strs(items1, x@));
        },
        Requirement::EnemyKill { enemy_kill: e } => {
            lemma_kill_same_enemies(e, w, w2);
            if !nested {
                assert forall|j: int| 0 <= j < w.weapons@.len() implies (#[trigger] w.weapons@[j]).use_requires.holds_at(true, items1, w, events)
                    == w2.weapons@[j].use_requires.holds_at(true, items2, w2, events) by {
                    lemma_holds_same_texts(w.weapons@[j].use_requires, true, items1, items2, w, w2, events);
                }
                assert(kill_explicit(e, w, items1, events) == kill_explicit(e, w2, items2, events)) by {
                    if kill_explicit(e, w, items1, events) {
                        let (i, j) = choose|i: int, j: int|
                            0 <= i < e.explicit_weapons->Some_0@.len() && 0 <= j < w.weapons@.len()
                            && e.explicit_weapons is Some
                            && #[trigger] w.weapons@[j].name@ == #[trigger] e.explicit_weapons->Some_0@[i]@
                            && !w.weapons@[j].situational
                            && w.weapons@[j].use_requires.holds_at(true, items1, w, events);
                        assert(w2.weapons@[j] == w.weapons@[j]);
                    }
                    if kill_explicit(e, w2, items2, events) {
                        let (i, j) = choose|i: int, j: int|
                            0 <= i < e.explicit_weapons->Some_0@.len() && 0 <= j < w2.weapons@.len()
                            && e.explicit_weapons is Some
                            && #[trigger] w2.weapons@[j].name@ == #[trigger] e.explicit_weapons->Some_0@[i]@
                            && !w2.weapons@[j].situational
                            && w2.weapons@[j].use_requires.holds_at(true, items2, w2, events);
                        assert(w2.weapons@[j] == w.weapons@[j]);
                        assert(w.weapons@[j].use_requires.holds_at(true, items1, w, events));
                    }
                }
                assert(kill_any_weapon(e, w, items1, events) == kill_any_weapon(e, w2, items2, events)) by {
                    if kill_any_weapon(e, w, items1, events) {
                        let j = choose|j: int|
                            0 <= j < w.weapons@.len()
                            && !(#[trigger] w.weapons@[j]).situational
                            && w.weapons@[j].use_requires.holds_at(true, items1, w, events)
                            && !kill_blocks(e, w, w.weapons@[j]);
                        assert(w2.weapons@[j] == w.weapons@[j]);
                    }
                    if kill_any_weapon(e, w2, items2, events) {
                        let j = choose|j: int|
                            0 <= j < w2.weapons@.len()
                            && !(#[trigger] w2.weapons@[j]).situational
                            && w2.weapons@[j].use_requires.holds_at(true, items2, w2, events)
                            && !kill_blocks(e, w2, w2.weapons@[j]);
                        assert(w2.weapons@[j] == w.weapons@[j]);
                        assert(w.weapons@[j].use_requires.holds_at(true, items1, w, events));
                    }
                }
            }
        },
        _ => {},
    }
}

/// Whether the text of `x` is one of `v`.
pub fn contains_str(v: &Vec<String>, x: &String) -> (r: bool)
    ensures
        r == in_strs(v@, x@),
{
    let mut i: usize = 0;
    while i < v.len()
        invariant
            0 <= i <= v.len(),
            forall|k: int| 0 <= k < i ==> (#[trigger] v@[k])@ != x@,
        decreases v.len() - i,
    {
        if v[i] == *x {
            assert(v@[i as int]@ == x@);
            return true;
        }
        i += 1;
    }
    false
}

proof fn lemma_first_enemy_unique(w: World, name: Seq<char>, j1: int, j2: int)
    requires
        first_enemy(w, name, j1),
        first_enemy(w, name, j2),
    ensures
        j1 == j2,
{
    if j1 < j2 {
        assert(w.enemies@[j1].name@ != name);
    } else if j2 < j1 {
        assert(w.enemies@[j2].name@ != name);
    }
}

/// The index of the first enemy of the world named `name`.
fn find_enemy(world: &World, name: &String) -> (r: Option<usize>)
    ensures
        match r {
            Some(j) => first_enemy(*world, name@, j as int),
            None => forall|j: int| 0 <= j < world.enemies@.len() ==> (#[trigger] world.enemies@[j]).name@ != name@,
        },
{
    let mut j: usize = 0;
    while j < world.enemies.len()
        invariant
            0 <= j <= world.enemies.len(),
            forall|k: int| 0 <= k < j ==> (#[trigger] world.enemies@[k]).name@ != name@,
        decreases world.enemies.len() - j,
    {
        if world.enemies[j].name == *name {
            return Some(j);
        }
        j += 1;
    }
    None
}

/// Whether `x` is an immunity of one of the enemies that `e` names.
fn invuln_named(e: &EnemyKill, world: &World, x: &String) -> (r: bool)
    ensures
        r == kill_invuln(*e, *world, x@),
{
    let mut i: usize = 0;
    while i < e.enemies.len()
        invariant
            0 <= i <= e.enemies.len(),
            forall|i2: int, k: int, j: int|
                0 <= i2 < i && 0 <= k < e.enemies@[i2]@.len()
                    && #[trigger] first_enemy(*world, e.enemies@[i2]@[k]@, j)
                    ==> !in_strs(invul_of(world.enemies@[j]), x@),
        decreases e.enemies.len() - i,
    {
        let group = &e.enemies[i];
        let mut k: usize = 0;
        while k < group.len()
            invariant
                0 <= i < e.enemies.len(),
                group == e.enemies@[i as int],
                0 <= k <= group.len(),
                forall|i2: int, k2: int, j: int|
                    0 <= i2 < i && 0 <= k2 < e.enemies@[i2]@.len()
                        && #[trigger] first_enemy(*world, e.enemies@[i2]@[k2]@, j)
                        ==> !in_strs(invul_of(world.enemies@[j]), x@),
                forall|k2: int, j: int|
                    0 <= k2 < k && #[trigger] first_enemy(*world, group@[k2]@, j)
                        ==> !in_strs(invul_of(world.enemies@[j]), x@),
            decreases group.len() - k,
        {
            match find_enemy(world, &group[k]) {
                Some(j) => {
                    let found = match &world.enemies[j].invul {
                        Some(v) => contains_str(v, x),
                        None => false,
                    };
                    if found {
                        assert(first_enemy(*world, e.enemies@[i as int]@[k as int]@, j as int));
                        return true;
                    }
                    assert forall|j2: int| #[trigger] first_enemy(*world, group@[k as int]@, j2)
                        implies !in_strs(invul_of(world.enemies@[j2]), x@) by {
                        lemma_first_enemy_unique(*world, group@[k as int]@, j as int, j2);
                    }
                },
                None => {},
            }
            k += 1;
        }
        i += 1;
    }
    false
}

/// Whether no enemy that `e` names has any immunity.
fn no_invulns(e: &EnemyKill, world: &World) -> (r: bool)
    ensures
        r == kill_no_invulns(*e, *world),
{
    let mut i: usize = 0;
    while i < e.enemies.len()
        invariant
            0 <= i <= e.enemies.len(),
            forall|i2: int, k: int, j: int|
                0 <= i2 < i && 0 <= k < e.enemies@[i2]@.len()
                    && #[trigger] first_enemy(*world, e.enemies@[i2]@[k]@, j)
                    ==> invul_of(world.enemies@[j]).len() == 0,
        decreases e.enemies.len() - i,
    {
        let group = &e.enemies[i];
        let mut k: usize = 0;
        while k < group.len()
            invariant
                0 <= i < e.enemies.len(),
                group == e.enemies@[i as int],
                0 <= k <= group.len(),
                forall|i2: int, k2: int, j: int|
                    0 <= i2 < i && 0 <= k2 < e.enemies@[i2]@.len()
                        && #[trigger] first_enemy(*world, e.enemies@[i2]@[k2]@, j)
                        ==> invul_of(world.enemies@[j]).len() == 0,
                forall|k2: int, j: int|
                    0 <= k2 < k && #[trigger] first_enemy(*world, group@[k2]@, j)
                        ==> invul_of(world.enemies@[j]).len() == 0,
            decreases group.len() - k,
        {
            match find_enemy(world, &group[k]) {
                Some(j) => {
                    let empty = match &world.enemies[j].invul {
                        Some(v) => v.len() == 0,
                        None => true,
                    };
                    if !empty {
                        assert(first_enemy(*world, e.enemies@[i as int]@[k as int]@, j as int));
                        return false;
                    }
                    assert forall|j2: int| #[trigger] first_enemy(*world, group@[k as int]@, j2)
                        implies invul_of(world.enemies@[j2]).len() == 0 by {
                        lemma_first_enemy_unique(*world, group@[k as int]@, j as int, j2);
                    }
                },
                None => {},
            }
            k += 1;
        }
        i += 1;
    }
    true
}

/// Whether a weapon is stopped by the immunities of `e`'s enemies.
fn blocked(e: &EnemyKill, world: &World, wp: &Weapon) -> (r: bool)
    ensures
        r == kill_blocks(*e, *world, *wp),
{
    if invuln_named(e, world, &wp.name) {
        return true;
    }
    let mut c: usize = 0;
    while c < wp.categories.len()
        invariant
            0 <= c <= wp.categories.len(),
            forall|c2: int| 0 <= c2 < c ==> !kill_invuln(*e, *world, (#[trigger] wp.categories@[c2])@),
        decreases wp.categories.len() - c,
    {
        if invuln_named(e, world, &wp.categories[c]) {
            return true;
        }
        c += 1;
    }
    false
}

impl Requirement {
    /// Evaluates the requirement for the abilities `items`, the world's
    /// tables and the events gathered in `state`.
    pub fn check(&self, items: &Vec<String>, world: &World, state: &State) -> (r: bool)
        ensures
            r == self.holds(items@, *world, state.events@),
    {
        self.check_at(false, items, world, &state.events)
    }

    fn check_at(&self, nested: bool, items: &Vec<String>, world: &World, events: &Vec<String>) -> (r: bool)
        ensures
            r == self.holds_at(nested, items@, *world, events@),
        decreases (if nested { 0int } else { 1int }), self, 1int,
    {
        match self {
            Requirement::Or { or } => check_each(or, nested, items, world, events).0,
            Requirement::ExplicitAnd { and } => check_each(and, nested, items, world, events).1,
            Requirement::Not { not } => !check_each(not, nested, items, world, events).0,
            Requirement::CanShineCharge { .. } => {
                let name = "SpeedBooster".to_owned();
                proof {
                    reveal_strlit("SpeedBooster");
                }
                assert(name@ =~= speed_booster());
                contains_str(items, &name)
            },
            Requirement::EnemyKill { enemy_kill } => {
                if nested {
                    false
                } else {
                    check_kill(Ghost(*self), enemy_kill, items, world, events)
                }
            },
            Requirement::And(v) => check_each(v, nested, items, world, events).1,
            Requirement::Req(r) => contains_str(items, r) || contains_str(events, r),
            _ => true,
        }
    }
}

/// Evaluates every requirement of a list, in order; returns whether any and
/// whether all of them hold.
fn check_each(reqs: &Vec<Requirement>, nested: bool, items: &Vec<String>, world: &World, events: &Vec<String>) -> (r: (bool, bool))
    ensures
        r.0 == exists|i: int| 0 <= i < reqs@.len() && (#[trigger] reqs@[i]).holds_at(nested, items@, *world, events@),
        r.1 == forall|i: int| 0 <= i < reqs@.len() ==> (#[trigger] reqs@[i]).holds_at(nested, items@, *world, events@),
    decreases (if nested { 0int } else { 1int }), reqs, 1int,
{
    let mut any = false;
    let mut all = true;
    let mut i: usize = 0;
    while i < reqs.len()
        invariant
            0 <= i <= reqs.len(),
            any == exists|k: int| 0 <= k < i && (#[trigger] reqs@[k]).holds_at(nested, items@, *world, events@),
            all == forall|k: int| 0 <= k < i ==> (#[trigger] reqs@[k]).holds_at(nested, items@, *world, events@),
        decreases reqs.len() - i,
    {
        let b = reqs[i].check_at(nested, items, world, events);
        any = any || b;
        all = all && b;
        i += 1;
    }
    (any, all)
}

/// Evaluates an enemy-kill requirement outside of any weapon's own use
/// requirement.
fn check_kill(Ghost(req): Ghost<Requirement>, e: &EnemyKill, items: &Vec<String>, world: &World, events: &Vec<String>) -> (r: bool)
    requires
        req == (Requirement::EnemyKill { enemy_kill: *e }),
    ensures
        r == (kill_explicit(*e, *world, items@, events@) || kill_no_invulns(*e, *world)
            || kill_any_weapon(*e, *world, items@, events@)),
    decreases 1int, req, 0int,
{
    let mut usable: Vec<bool> = Vec::new();
    let mut j: usize = 0;
    while j < world.weapons.len()
        invariant
            0 <= j <= world.weapons.len(),
            usable@.len() == j,
            forall|k: int| 0 <= k < j ==> #[trigger] usable@[k] == (!world.weapons@[k].situational
                && world.weapons@[k].use_requires.holds_at(true, items@, *world, events@)),
        decreases world.weapons.len() - j,
    {
        let wp = &world.weapons[j];
        let u = !wp.situational && wp.use_requires.check_at(true, items, world, events);
        usable.push(u);
        j += 1;
    }
    match &e.explicit_weapons {
        Some(ew) => {
            let mut i: usize = 0;
            while i < ew.len()
                invariant
                    0 <= i <= ew.len(),
                    e.explicit_weapons == Some(*ew),
                    usable@.len() == world.weapons@.len(),
                    forall|k: int| 0 <= k < usable@.len() ==> #[trigger] usable@[k] == (!world.weapons@[k].situational
                        && world.weapons@[k].use_requires.holds_at(true, items@, *world, events@)),
                    forall|i2: int, j2: int| 0 <= i2 < i && 0 <= j2 < world.weapons@.len()
                        ==> !(#[trigger] world.weapons@[j2].name@ == #[trigger] ew@[i2]@ && usable@[j2]),
                decreases ew.len() - i,
            {
                let mut k: usize = 0;
                while k < world.weapons.len()
                    invariant
                        0 <= i < ew.len(),
                        0 <= k <= world.weapons.len(),
                        e.explicit_weapons == Some(*ew),
                        usable@.len() == world.weapons@.len(),
                        forall|k2: int| 0 <= k2 < usable@.len() ==> #[trigger] usable@[k2] == (!world.weapons@[k2].situational
                            && world.weapons@[k2].use_requires.holds_at(true, items@, *world, events@)),
                        forall|i2: int, j2: int| 0 <= i2 < i && 0 <= j2 < world.weapons@.len()
                            ==> !(#[trigger] world.weapons@[j2].name@ == #[trigger] ew@[i2]@ && usable@[j2]),
                        forall|j2: int| 0 <= j2 < k
                            ==> !(#[trigger] world.weapons@[j2].name@ == ew@[i as int]@ && usable@[j2]),
                    decreases world.weapons.len() - k,
                {
                    if usable[k] && world.weapons[k].name == ew[i] {
                        assert(usable@[k as int]);
                        assert(world.weapons@[k as int].name@ == e.explicit_weapons->Some_0@[i as int]@);
                        assert(0 <= i < e.explicit_weapons->Some_0@.len() && 0 <= k < world.weapons@.len()
                            && e.explicit_weapons is Some
                            && world.weapons@[k as int].name@ == e.explicit_weapons->Some_0@[i as int]@
                            && !world.weapons@[k as int].situational
                            && world.weapons@[k as int].use_requires.holds_at(true, items@, *world, events@));
                        assert(kill_explicit(*e, *world, items@, events@));
                        return true;
                    }
                    k += 1;
                }
                i += 1;
            }
            assert(!kill_explicit(*e, *world, items@, events@));
        },
        None => {},
    }
    if no_invulns(e, world) {
        assert(kill_no_invulns(*e, *world));
        return true;
    }
    let mut j: usize = 0;
    while j < world.weapons.len()
        invariant
            0 <= j <= world.weapons.len(),
            !kill_explicit(*e, *world, items@, events@),
            !kill_no_invulns(*e, *world),
            usable@.len() == world.weapons@.len(),
            forall|k: int| 0 <= k < usable@.len() ==> #[trigger] usable@[k] == (!world.weapons@[k].situational
                && world.weapons@[k].use_requires.holds_at(true, items@, *world, events@)),
            forall|k: int| 0 <= k < j ==> !(usable@[k] && !kill_blocks(*e, *world, #[trigger] world.weapons@[k])),
        decreases world.weapons.len() - j,
    {
        if usable[j] && !blocked(e, world, &world.weapons[j]) {
            return true;
        }
        j += 1;
    }
    false
}

} // verus!
