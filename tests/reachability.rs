use randolib::connection::{Connection, ConnectionNode};
use randolib::enemy::Enemy;
use randolib::helper::Helper;
use randolib::link::{EnemyKill, Link, LinkTo, Obstacle, Strat};
use randolib::location::{Location, State};
use randolib::node::{Lock, Node, NodeType};
use randolib::region::Region;
use randolib::requirement::Requirement;
use randolib::sparking::{CanComeInCharged, CanShineCharge};
use randolib::weapon::Weapon;
use randolib::world::World;

fn s(x: &str) -> String {
    x.to_string()
}

fn strs(xs: &[&str]) -> Vec<String> {
    xs.iter().map(|x| x.to_string()).collect()
}

fn req(x: &str) -> Requirement {
    Requirement::Req(s(x))
}

fn node(id: i64, name: &str, node_type: NodeType) -> Node {
    Node {
        id,
        name: s(name),
        node_type: Some(node_type),
        node_sub_type: None,
        node_item: None,
        node_address: None,
        interaction_requires: None,
        runways: None,
        sparking: None,
        spawn_at: None,
        locks: None,
        utility: None,
        view: None,
        yields: None,
        note: None,
    }
}

fn strat(name: &str, requires: Option<Requirement>, obstacles: Option<Vec<Obstacle>>) -> Strat {
    Strat { name: s(name), notable: false, requires, obstacles, note: None }
}

fn to(id: i64, strats: Option<Vec<Strat>>) -> LinkTo {
    LinkTo { id, strats, requires: None, unlock: None, yields: None, note: None }
}

fn free(id: i64) -> LinkTo {
    to(id, None)
}

fn link(from: i64, tos: Vec<LinkTo>) -> Link {
    Link { from, to: tos }
}

fn region(id: i64, name: &str, nodes: Vec<Node>, links: Vec<Link>) -> Region {
    Region {
        id,
        name: s(name),
        area: s("area"),
        subarea: s("subarea"),
        room_address: None,
        note: None,
        nodes,
        links,
        obstacles: None,
    }
}

fn endpoint(roomid: i64, nodeid: i64) -> ConnectionNode {
    ConnectionNode { area: s("area"), subarea: s("subarea"), roomid, nodeid, position: s("left") }
}

fn door(a: (i64, i64), b: (i64, i64)) -> Connection {
    Connection {
        connection_type: s("Bidirectional"),
        description: None,
        nodes: vec![endpoint(a.0, a.1), endpoint(b.0, b.1)],
    }
}

fn helper(name: &str, requires: Option<Requirement>) -> Helper {
    Helper { name: s(name), requires, note: None }
}

fn world(regions: Vec<Region>, connections: Vec<Connection>) -> World {
    World {
        name: s("test"),
        regions,
        connections,
        enemies: Vec::new(),
        weapons: Vec::new(),
        helpers: Vec::new(),
        techs: Vec::new(),
    }
}

fn weapon(id: i64, name: &str, situational: bool, use_requires: Requirement, categories: &[&str]) -> Weapon {
    Weapon { id, name: s(name), situational, use_requires, categories: strs(categories) }
}

fn enemy(id: i64, name: &str, invul: Option<&[&str]>) -> Enemy {
    Enemy { id, name: s(name), invul: invul.map(strs) }
}

fn kill(enemies: &[&str], explicit: Option<&[&str]>) -> Requirement {
    Requirement::EnemyKill {
        enemy_kill: EnemyKill { enemies: vec![strs(enemies)], explicit_weapons: explicit.map(strs) },
    }
}

fn names(locations: &[Location]) -> Vec<(String, i64, i64)> {
    let mut v: Vec<(String, i64, i64)> = locations.iter().map(|l| (l.name.clone(), l.region, l.node)).collect();
    v.sort();
    v
}

/// Region 1: origin junction 1, item "EnergyTank" 2 yielding "GotEnergyTank",
/// door 3. Region 2: door 1, item "Missile" 2 that needs "GotEnergyTank".
/// The origin's links try the door before the item.
fn energy_tank_world() -> World {
    let mut tank = node(2, "EnergyTank", NodeType::Item);
    tank.yields = Some(strs(&["GotEnergyTank"]));
    let mut missile = node(2, "Missile", NodeType::Item);
    missile.interaction_requires = Some(req("GotEnergyTank"));
    let a = region(
        1,
        "A",
        vec![node(1, "Origin", NodeType::Junction), tank, node(3, "Door A", NodeType::Door)],
        vec![link(1, vec![free(3), free(2)]), link(2, vec![free(1)]), link(3, vec![free(1)])],
    );
    let b = region(
        2,
        "B",
        vec![node(1, "Door B", NodeType::Door), missile],
        vec![link(1, vec![free(2)]), link(2, vec![free(1)])],
    );
    world(vec![a, b], vec![door((1, 3), (2, 1))])
}

#[test]
fn end_to_end_two_regions() {
    let w = energy_tank_world();
    let found = Location::available(&Vec::new(), &w, 1, 1).unwrap();
    assert_eq!(names(&found), vec![(s("EnergyTank"), 1, 2), (s("Missile"), 2, 2)]);
}

#[test]
fn first_pass_misses_the_gated_item() {
    let w = energy_tank_world();
    let mut state = State::new(1, 1);
    let first = Location::available_with_state(&Vec::new(), &w, 1, 1, &mut state).unwrap();
    assert_eq!(names(&first), vec![(s("EnergyTank"), 1, 2)]);
    assert_eq!(state.events, strs(&["GotEnergyTank"]));
    let mut next = State::new(1, 1);
    next.events = state.events.clone();
    let second = Location::available_with_state(&Vec::new(), &w, 1, 1, &mut next).unwrap();
    assert_eq!(names(&second), vec![(s("EnergyTank"), 1, 2), (s("Missile"), 2, 2)]);
    assert_eq!(next.events, strs(&["GotEnergyTank"]));
}

#[test]
fn a_pass_keeps_the_visited_nodes() {
    let w = energy_tank_world();
    let mut state = State::new(1, 1);
    state.nodes.push((7, 7));
    Location::available_with_state(&Vec::new(), &w, 1, 1, &mut state).unwrap();
    assert_eq!(state.nodes[0], (7, 7));
    assert!(state.nodes.contains(&(1, 1)));
}

#[test]
fn a_visited_origin_is_not_walked_again() {
    let w = energy_tank_world();
    let mut state = State::new(1, 1);
    state.nodes.push((1, 1));
    let found = Location::available_with_state(&Vec::new(), &w, 1, 1, &mut state).unwrap();
    assert!(found.is_empty());
    assert_eq!(state.nodes, vec![(1, 1)]);
    assert!(state.events.is_empty());
}

#[test]
fn lock_without_strats_never_opens() {
    let mut item = node(2, "Stuck Item", NodeType::Item);
    item.locks = Some(vec![Lock { name: None, lock: None, unlock_strats: None, bypass_strats: None, note: None }]);
    let a = region(
        1,
        "A",
        vec![node(1, "Origin", NodeType::Junction), item],
        vec![link(1, vec![free(2)]), link(2, vec![free(1)])],
    );
    let w = world(vec![a], Vec::new());
    assert!(Location::available(&strs(&["Morph"]), &w, 1, 1).unwrap().is_empty());
}

#[test]
fn lock_with_only_bypass_strats() {
    let mut item = node(2, "Bypassed Item", NodeType::Item);
    item.locks = Some(vec![Lock {
        name: None,
        lock: None,
        unlock_strats: None,
        bypass_strats: Some(vec![strat("Sneak", Some(req("Morph")), None)]),
        note: None,
    }]);
    let a = region(
        1,
        "A",
        vec![node(1, "Origin", NodeType::Junction), item],
        vec![link(1, vec![free(2)]), link(2, vec![free(1)])],
    );
    let w = world(vec![a], Vec::new());
    assert!(Location::available(&Vec::new(), &w, 1, 1).unwrap().is_empty());
    assert_eq!(Location::available(&strs(&["Morph"]), &w, 1, 1).unwrap().len(), 1);
}

#[test]
fn repeated_queries_agree() {
    let w = energy_tank_world();
    let a = Location::available(&strs(&["Morph"]), &w, 1, 1).unwrap();
    let b = Location::available(&strs(&["Morph"]), &w, 1, 1).unwrap();
    assert_eq!(names(&a), names(&b));
}

#[test]
fn results_are_item_nodes() {
    let w = energy_tank_world();
    let found = Location::available(&Vec::new(), &w, 1, 1).unwrap();
    for l in &found {
        let r = w.regions.iter().find(|r| r.id == l.region).unwrap();
        let n = r.nodes.iter().find(|n| n.id == l.node).unwrap();
        assert_eq!(n.node_type, Some(NodeType::Item));
        assert_eq!(n.name, l.name);
    }
}

#[test]
fn unknown_origin_is_none() {
    let w = energy_tank_world();
    assert!(Location::available(&Vec::new(), &w, 9, 1).is_none());
    assert!(Location::available(&Vec::new(), &w, 1, 9).is_none());
    let mut state = State::new(9, 1);
    assert!(Location::available_with_state(&Vec::new(), &w, 9, 1, &mut state).is_none());
}

/// An item reachable forward whose only way back needs "Grapple".
fn one_way_world() -> World {
    let back = to(1, Some(vec![strat("Grapple back", Some(req("Grapple")), None)]));
    let a = region(
        1,
        "A",
        vec![node(1, "Origin", NodeType::Junction), node(2, "Ledge Item", NodeType::Item)],
        vec![link(1, vec![free(2)]), link(2, vec![back])],
    );
    world(vec![a], Vec::new())
}

#[test]
fn item_without_way_back_is_excluded() {
    let w = one_way_world();
    let found = Location::available(&Vec::new(), &w, 1, 1).unwrap();
    assert!(found.is_empty());
}

#[test]
fn item_with_way_back_is_included() {
    let w = one_way_world();
    let found = Location::available(&strs(&["Grapple"]), &w, 1, 1).unwrap();
    assert_eq!(names(&found), vec![(s("Ledge Item"), 1, 2)]);
}

/// Two strats in one region share obstacle "A": the first clears it with
/// "Bombs", the second could never clear it itself.
fn obstacle_world() -> World {
    let clear = Obstacle { id: Some(s("A")), requires: Some(req("Bombs")), bypass: None };
    let never = Obstacle { id: Some(s("A")), requires: Some(req("Nothing")), bypass: None };
    let first = to(2, Some(vec![strat("Bomb the wall", None, Some(vec![clear]))]));
    let second = to(3, Some(vec![strat("Walk through", None, Some(vec![never]))]));
    let a = region(
        1,
        "A",
        vec![
            node(1, "Origin", NodeType::Junction),
            node(2, "Middle", NodeType::Junction),
            node(3, "Far Item", NodeType::Item),
        ],
        vec![link(1, vec![first]), link(2, vec![second, free(1)]), link(3, vec![free(2)])],
    );
    world(vec![a], Vec::new())
}

#[test]
fn cleared_obstacle_is_reused() {
    let w = obstacle_world();
    let mut state = State::new(1, 1);
    let found = Location::available_with_state(&strs(&["Bombs"]), &w, 1, 1, &mut state).unwrap();
    assert_eq!(state.obstacles, vec![(1, s("A"))]);
    assert_eq!(names(&found), vec![(s("Far Item"), 1, 3)]);
}

#[test]
fn uncleared_obstacle_blocks() {
    let w = obstacle_world();
    let found = Location::available(&Vec::new(), &w, 1, 1).unwrap();
    assert!(found.is_empty());
}

#[test]
fn obstacle_bypass_passes_without_clearing() {
    let by = Obstacle { id: Some(s("B")), requires: Some(req("Nothing")), bypass: Some(req("SpaceJump")) };
    let a = region(
        1,
        "A",
        vec![node(1, "Origin", NodeType::Junction), node(2, "Item", NodeType::Item)],
        vec![link(1, vec![to(2, Some(vec![strat("Jump over", None, Some(vec![by]))]))]), link(2, vec![free(1)])],
    );
    let w = world(vec![a], Vec::new());
    let mut state = State::new(1, 1);
    let found = Location::available_with_state(&strs(&["SpaceJump"]), &w, 1, 1, &mut state).unwrap();
    assert_eq!(names(&found), vec![(s("Item"), 1, 2)]);
    assert!(state.obstacles.is_empty());
}

#[test]
fn hard_lock_never_opens() {
    let mut item = node(2, "Locked Item", NodeType::Item);
    item.locks = Some(vec![Lock {
        name: Some(s("gate")),
        lock: Some(Requirement::Empty),
        unlock_strats: None,
        bypass_strats: None,
        note: None,
    }]);
    let a = region(
        1,
        "A",
        vec![node(1, "Origin", NodeType::Junction), item],
        vec![link(1, vec![free(2)]), link(2, vec![free(1)])],
    );
    let w = world(vec![a], Vec::new());
    assert!(Location::available(&Vec::new(), &w, 1, 1).unwrap().is_empty());
}

#[test]
fn lock_opens_by_unlock_or_bypass_strat() {
    let mut item = node(2, "Gated Item", NodeType::Item);
    item.locks = Some(vec![Lock {
        name: Some(s("gate")),
        lock: None,
        unlock_strats: Some(vec![strat("Shoot", Some(req("Super")), None)]),
        bypass_strats: Some(vec![strat("Sneak", Some(req("Morph")), None)]),
        note: None,
    }]);
    let a = region(
        1,
        "A",
        vec![node(1, "Origin", NodeType::Junction), item],
        vec![link(1, vec![free(2)]), link(2, vec![free(1)])],
    );
    let w = world(vec![a], Vec::new());
    assert!(Location::available(&Vec::new(), &w, 1, 1).unwrap().is_empty());
    assert_eq!(Location::available(&strs(&["Super"]), &w, 1, 1).unwrap().len(), 1);
    assert_eq!(Location::available(&strs(&["Morph"]), &w, 1, 1).unwrap().len(), 1);
}

#[test]
fn helpers_resolve_in_any_order() {
    let mut w = world(Vec::new(), Vec::new());
    w.helpers = vec![helper("B", Some(req("A"))), helper("A", Some(req("Morph")))];
    let flags = w.get_flags(&strs(&["Morph"]), &Vec::new());
    assert!(flags.contains(&s("A")) && flags.contains(&s("B")));
    w.helpers = vec![helper("A", Some(req("Morph"))), helper("B", Some(req("A")))];
    let flags = w.get_flags(&strs(&["Morph"]), &Vec::new());
    assert!(flags.contains(&s("A")) && flags.contains(&s("B")));
}

#[test]
fn helpers_need_their_requirement() {
    let mut w = world(Vec::new(), Vec::new());
    w.helpers = vec![helper("B", Some(req("A"))), helper("A", Some(req("Morph"))), helper("Always", None)];
    let flags = w.get_flags(&Vec::new(), &Vec::new());
    assert_eq!(flags, strs(&["Always"]));
}

#[test]
fn only_requested_techs_are_kept() {
    let mut w = world(Vec::new(), Vec::new());
    w.helpers = vec![helper("h_canBomb", Some(req("Bombs")))];
    w.techs = vec![
        helper("canIBJ", Some(req("h_canBomb"))),
        helper("canWalljump", None),
        helper("canSpark", Some(req("SpeedBooster"))),
    ];
    let flags = w.get_flags(&strs(&["Bombs"]), &strs(&["canIBJ", "canSpark"]));
    assert_eq!(flags, strs(&["Bombs", "h_canBomb", "canIBJ"]));
}

#[test]
fn item_location_names() {
    let w = energy_tank_world();
    assert_eq!(w.get_item_locations().unwrap(), strs(&["EnergyTank", "Missile"]));
    let empty = world(vec![region(1, "A", vec![node(1, "J", NodeType::Junction)], Vec::new())], Vec::new());
    assert!(empty.get_item_locations().is_none());
}

#[test]
fn requirement_connectives() {
    let w = world(Vec::new(), Vec::new());
    let items = strs(&["Morph", "Bombs"]);
    let state = State::new(0, 0);
    assert!(Requirement::Or { or: vec![req("Grapple"), req("Morph")] }.check(&items, &w, &state));
    assert!(!Requirement::Or { or: Vec::new() }.check(&items, &w, &state));
    assert!(Requirement::And(vec![req("Morph"), req("Bombs")]).check(&items, &w, &state));
    assert!(!Requirement::ExplicitAnd { and: vec![req("Morph"), req("Grapple")] }.check(&items, &w, &state));
    assert!(Requirement::Not { not: vec![req("Grapple")] }.check(&items, &w, &state));
    assert!(!Requirement::Not { not: vec![req("Grapple"), req("Bombs")] }.check(&items, &w, &state));
    assert!(Requirement::Empty.check(&items, &w, &state));
    assert!(Requirement::HeatFrames { heat_frames: 100 }.check(&items, &w, &state));
    assert!(Requirement::SpikeHits { spike_hits: 3 }.check(&items, &w, &state));
    assert!(Requirement::CanComeInCharged {
        can_come_in_charged: CanComeInCharged { from_node: 1, frames_remaining: 10 }
    }
    .check(&items, &w, &state));
}

#[test]
fn requirement_reads_events() {
    let w = world(Vec::new(), Vec::new());
    let mut state = State::new(0, 0);
    assert!(!req("f_DefeatedKraid").check(&Vec::new(), &w, &state));
    state.events.push(s("f_DefeatedKraid"));
    assert!(req("f_DefeatedKraid").check(&Vec::new(), &w, &state));
}

#[test]
fn shine_charge_needs_speed_booster() {
    let w = world(Vec::new(), Vec::new());
    let state = State::new(0, 0);
    let r = Requirement::CanShineCharge { can_shine_charge: CanShineCharge { used_tiles: 20 } };
    assert!(!r.check(&strs(&["Morph"]), &w, &state));
    assert!(r.check(&strs(&["SpeedBooster"]), &w, &state));
}

fn kill_world() -> World {
    let mut w = world(Vec::new(), Vec::new());
    w.weapons = vec![
        weapon(0, "PowerBeam", false, Requirement::Empty, &["Beam"]),
        weapon(1, "Missile", false, req("Missile"), &["Missile"]),
        weapon(2, "Grapple", true, req("Grapple"), &[]),
    ];
    w.enemies = vec![
        enemy(0, "Zeb", None),
        enemy(1, "Armored", Some(&["Beam"])),
        enemy(2, "Tough", Some(&["Beam", "Missile"])),
    ];
    w
}

#[test]
fn enemy_kill_without_immunities() {
    let w = kill_world();
    let state = State::new(0, 0);
    assert!(kill(&["Zeb"], None).check(&Vec::new(), &w, &state));
    assert!(kill(&["Unknown"], None).check(&Vec::new(), &w, &state));
}

#[test]
fn enemy_kill_needs_an_unblocked_weapon() {
    let w = kill_world();
    let state = State::new(0, 0);
    assert!(!kill(&["Armored"], None).check(&Vec::new(), &w, &state));
    assert!(kill(&["Armored"], None).check(&strs(&["Missile"]), &w, &state));
    assert!(!kill(&["Tough"], None).check(&strs(&["Missile"]), &w, &state));
}

#[test]
fn enemy_kill_explicit_weapon() {
    let w = kill_world();
    let state = State::new(0, 0);
    assert!(kill(&["Tough"], Some(&["PowerBeam"])).check(&Vec::new(), &w, &state));
    assert!(!kill(&["Tough"], Some(&["Grapple"])).check(&strs(&["Grapple"]), &w, &state));
}

#[test]
fn fresh_state_is_empty() {
    let st = State::new(3, 4);
    assert!(st.events.is_empty() && st.obstacles.is_empty() && st.nodes.is_empty());
    assert_eq!(st.start, (3, 4));
    assert!(!st.backtracking);
}


#[test]
fn weapon_needing_a_kill_is_not_usable_for_a_kill() {
    let mut w = kill_world();
    w.weapons = vec![weapon(0, "Screw", false, kill(&["Zeb"], None), &["Contact"])];
    let state = State::new(0, 0);
    assert!(!kill(&["Armored"], None).check(&Vec::new(), &w, &state));
    assert!(!kill(&["Armored"], Some(&["Screw"])).check(&Vec::new(), &w, &state));
}

#[test]
fn obstacle_without_id_is_not_recorded() {
    let anon = Obstacle { id: None, requires: Some(req("Bombs")), bypass: None };
    let a = region(
        1,
        "A",
        vec![node(1, "Origin", NodeType::Junction), node(2, "Item", NodeType::Item)],
        vec![link(1, vec![to(2, Some(vec![strat("Bomb", None, Some(vec![anon]))]))]), link(2, vec![free(1)])],
    );
    let w = world(vec![a], Vec::new());
    let mut state = State::new(1, 1);
    let found = Location::available_with_state(&strs(&["Bombs"]), &w, 1, 1, &mut state).unwrap();
    assert_eq!(names(&found), vec![(s("Item"), 1, 2)]);
    assert!(state.obstacles.is_empty());
}

#[test]
fn every_link_leaving_a_node_is_followed() {
    let a = region(
        1,
        "A",
        vec![
            node(1, "Origin", NodeType::Junction),
            node(2, "First Item", NodeType::Item),
            node(3, "Second Item", NodeType::Item),
        ],
        vec![link(1, vec![free(2)]), link(1, vec![free(3)]), link(2, vec![free(1)]), link(3, vec![free(1)])],
    );
    let w = world(vec![a], Vec::new());
    let found = Location::available(&Vec::new(), &w, 1, 1).unwrap();
    assert_eq!(names(&found), vec![(s("First Item"), 1, 2), (s("Second Item"), 1, 3)]);
}

#[test]
fn door_leads_to_the_other_region() {
    let mut w = energy_tank_world();
    w.connections = vec![Connection {
        connection_type: s("Bidirectional"),
        description: None,
        nodes: vec![endpoint(1, 3), endpoint(1, 1), endpoint(2, 1)],
    }];
    let found = Location::available(&Vec::new(), &w, 1, 1).unwrap();
    assert_eq!(names(&found), vec![(s("EnergyTank"), 1, 2), (s("Missile"), 2, 2)]);
}
