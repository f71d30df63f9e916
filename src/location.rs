use vstd::prelude::*;
use crate::region::Region;
use crate::node::{Node, NodeType, Lock};
use crate::world::World;
use crate::link::{LinkTo, Strat, Obstacle};
use crate::requirement::{Requirement, in_strs, contains_str};

verus! {

/// The mutable state of one search branch.
pub struct State {
    pub events: Vec<String>,
    pub obstacles: Vec<(i64, String)>,
    pub nodes: Vec<(i64, i64)>,
    pub start: (i64, i64),
    pub backtracking: bool,
}

/// The value of a [`State`].
pub struct StateModel {
    pub events: Seq<String>,
    pub obstacles: Seq<(i64, String)>,
    pub nodes: Seq<(i64, i64)>,
    pub start: (i64, i64),
    pub backtracking: bool,
}

impl View for State {
    type V = StateModel;

    open spec fn view(&self) -> StateModel {
        StateModel {
            events: self.events@,
            obstacles: self.obstacles@,
            nodes: self.nodes@,
            start: self.start,
            backtracking: self.backtracking,
        }
    }
}

/// An item location found reachable: the node's name and its region and node ids.
#[derive(Clone, Debug)]
pub struct Location {
    pub name: String,
    pub region: i64,
    pub node: i64,
}

// ---------------------------------------------------------------------------
// Lookups

/// The first index of `s` whose element satisfies `p`.
pub open spec fn first_where<T>(s: Seq<T>, p: spec_fn(T) -> bool) -> Option<int> {
    if exists|i: int| 0 <= i < s.len() && p(s[i]) && forall|k: int| 0 <= k < i ==> !p(s[k]) {
        Some(choose|i: int| 0 <= i < s.len() && p(s[i]) && forall|k: int| 0 <= k < i ==> !p(s[k]))
    } else {
        None
    }
}

proof fn lemma_first_where_found<T>(s: Seq<T>, p: spec_fn(T) -> bool, i: int)
    requires
        0 <= i < s.len(),
        p(s[i]),
        forall|k: int| 0 <= k < i ==> !p(s[k]),
    ensures
        first_where(s, p) == Some(i),
{
    let j = choose|j: int| 0 <= j < s.len() && p(s[j]) && forall|k: int| 0 <= k < j ==> !p(s[k]);
    if j < i {
        assert(!p(s[j]));
    } else if i < j {
        assert(!p(s[i]));
    }
}

proof fn lemma_first_where_none<T>(s: Seq<T>, p: spec_fn(T) -> bool)
    requires
        forall|k: int| 0 <= k < s.len() ==> !p(s[k]),
    ensures
        first_where(s, p) is None,
{
}

/// The index of the first region with id `id`.
pub open spec fn region_index(w: World, id: i64) -> Option<int> {
    first_where(w.regions@, |r: Region| r.id == id)
}

/// The index of the first node of a region with id `id`.
pub open spec fn node_index(r: Region, id: i64) -> Option<int> {
    first_where(r.nodes@, |n: Node| n.id == id)
}

/// The index of the first connection that has `(rid, nid)` as an endpoint.
pub open spec fn connection_index(w: World, rid: i64, nid: i64) -> Option<int> {
    first_where(
        w.connections@,
        |c: crate::connection::Connection|
            exists|k: int| 0 <= k < c.nodes@.len() && (#[trigger] c.nodes@[k]).roomid == rid && c.nodes@[k].nodeid == nid,
    )
}

/// Where the door `(rid, nid)` leads: the region and node indices of the
/// first endpoint of its connection that lies in another region.
pub open spec fn door_target(w: World, rid: i64, nid: i64) -> Option<(int, int)> {
    match connection_index(w, rid, nid) {
        Some(c) => match first_where(
            w.connections@[c].nodes@,
            |cn: crate::connection::ConnectionNode| cn.roomid != rid,
        ) {
            Some(k) => {
                let cn = w.connections@[c].nodes@[k];
                match region_index(w, cn.roomid) {
                    Some(ri) => match node_index(w.regions@[ri], cn.nodeid) {
                        Some(ni) => Some((ri, ni)),
                        None => None,
                    },
                    None => None,
                }
            },
            None => None,
        },
        None => None,
    }
}

// ---------------------------------------------------------------------------
// Sizes that bound the search

/// The (region id, node id) pairs of a list of regions.
pub open spec fn node_ids(rs: Seq<Region>) -> Seq<(i64, i64)>
    decreases rs.len(),
{
    if rs.len() == 0 {
        Seq::empty()
    } else {
        let r = rs.last();
        node_ids(rs.drop_last()) + r.nodes@.map_values(|n: Node| (r.id, n.id))
    }
}

/// The texts of the events a node yields.
pub open spec fn node_yields(n: Node) -> Seq<Seq<char>> {
    match n.yields {
        Some(v) => v@.map_values(|s: String| s@),
        None => Seq::empty(),
    }
}

/// The texts of the events the nodes of a list yield.
pub open spec fn nodes_yields(ns: Seq<Node>) -> Seq<Seq<char>>
    decreases ns.len(),
{
    if ns.len() == 0 {
        Seq::empty()
    } else {
        nodes_yields(ns.drop_last()) + node_yields(ns.last())
    }
}

/// The texts of the events the nodes of a list of regions yield.
pub open spec fn regions_yields(rs: Seq<Region>) -> Seq<Seq<char>>
    decreases rs.len(),
{
    if rs.len() == 0 {
        Seq::empty()
    } else {
        regions_yields(rs.drop_last()) + nodes_yields(rs.last().nodes@)
    }
}

/// The distinct events of a world.
pub open spec fn world_events(w: World) -> Set<Seq<char>> {
    regions_yields(w.regions@).to_set()
}

/// The distinct (region id, node id) pairs of a world.
pub open spec fn world_nodes(w: World) -> Set<(i64, i64)> {
    node_ids(w.regions@).to_set()
}

/// The texts of a list of strings.
pub open spec fn texts(v: Seq<String>) -> Seq<Seq<char>> {
    v.map_values(|s: String| s@)
}

/// How many nodes of the world a branch has not visited in this pass.
pub open spec fn unvisited(w: World, nodes: Seq<(i64, i64)>) -> nat {
    world_nodes(w).difference(nodes.to_set()).len()
}

/// A bound on the depth of the nested search that starts from state `st`.
pub open spec fn depth(w: World, st: StateModel) -> nat {
    unvisited(w, st.nodes) + if st.backtracking { 0 } else { world_nodes(w).len() + 2 }
}

/// A bound on the number of passes a fixed point from `st` takes.
pub open spec fn passes(w: World, st: StateModel) -> nat {
    (world_events(w).len() - texts(st.events).to_set().len() + 1) as nat
}

/// A state whose events are distinct and all events of the world.
pub open spec fn state_wf(w: World, st: StateModel) -> bool {
    &&& texts(st.events).no_duplicates()
    &&& texts(st.events).to_set().subset_of(world_events(w))
}

/// The region and node indices are those of a node of the world.
pub open spec fn valid_node(w: World, ri: int, ni: int) -> bool {
    0 <= ri < w.regions@.len() && 0 <= ni < w.regions@[ri].nodes@.len()
}

// ---------------------------------------------------------------------------
// Strats, obstacles and locks

/// The obstacle `id` of region `rid` is cleared.
pub open spec fn cleared(obs: Seq<(i64, String)>, rid: i64, id: Seq<char>) -> bool {
    exists|k: int| 0 <= k < obs.len() && (#[trigger] obs[k]).0 == rid && obs[k].1@ == id
}

/// An optional requirement; an absent one holds.
pub open spec fn opt_holds(r: Option<Requirement>, items: Seq<String>, w: World, st: StateModel) -> bool {
    match r {
        Some(r) => r.holds(items, w, st.events),
        None => true,
    }
}

/// Passing one obstacle of region `rid`: a cleared one passes; otherwise its
/// requirement clears it, or else its bypass lets the strat through.
pub open spec fn obstacle_pass(o: Obstacle, rid: i64, items: Seq<String>, w: World, st: StateModel) -> (bool, StateModel) {
    if o.id is Some && cleared(st.obstacles, rid, o.id->Some_0@) {
        (true, st)
    } else {
        match o.requires {
            Some(r) => if r.holds(items, w, st.events) {
                match o.id {
                    Some(id) => (true, StateModel { obstacles: st.obstacles.push((rid, id)), ..st }),
                    None => (true, st),
                }
            } else {
                (
                    match o.bypass {
                        Some(b) => b.holds(items, w, st.events),
                        None => false,
                    },
                    st,
                )
            },
            None => (true, st),
        }
    }
}

/// Passing the first `n` obstacles of a list, in order, stopping at the first failure.
pub open spec fn obstacles_pass(obs: Seq<Obstacle>, n: int, rid: i64, items: Seq<String>, w: World, st: StateModel) -> (bool, StateModel)
    decreases n,
{
    if n <= 0 {
        (true, st)
    } else {
        let (ok, s1) = obstacles_pass(obs, n - 1, rid, items, w, st);
        if !ok {
            (false, s1)
        } else {
            obstacle_pass(obs[n - 1], rid, items, w, s1)
        }
    }
}

/// Doing a strat in region `rid`: its requirement and all its obstacles.
pub open spec fn strat_pass(s: Strat, rid: i64, items: Seq<String>, w: World, st: StateModel) -> (bool, StateModel) {
    let req = opt_holds(s.requires, items, w, st);
    let (obs, s1) = match s.obstacles {
        Some(ob) => obstacles_pass(ob@, ob@.len() as int, rid, items, w, st),
        None => (true, st),
    };
    (req && obs, s1)
}

/// Trying the first `n` strats of a list, in order, until one passes.
pub open spec fn strats_any(ss: Seq<Strat>, n: int, rid: i64, items: Seq<String>, w: World, st: StateModel) -> (bool, StateModel)
    decreases n,
{
    if n <= 0 {
        (false, st)
    } else {
        let (ok, s1) = strats_any(ss, n - 1, rid, items, w, st);
        if ok {
            (true, s1)
        } else {
            strat_pass(ss[n - 1], rid, items, w, s1)
        }
    }
}

/// Opening one lock: never with a hard lock; otherwise by a passable unlock
/// strat, else by a passable bypass strat.
pub open spec fn lock_pass(l: Lock, rid: i64, items: Seq<String>, w: World, st: StateModel) -> (bool, StateModel) {
    if l.lock is Some {
        (false, st)
    } else {
        let (un, s1) = match l.unlock_strats {
            Some(us) => strats_any(us@, us@.len() as int, rid, items, w, st),
            None => (false, st),
        };
        if un {
            (true, s1)
        } else {
            match l.bypass_strats {
                Some(bs) => strats_any(bs@, bs@.len() as int, rid, items, w, s1),
                None => (false, s1),
            }
        }
    }
}

/// Opening the first `n` locks of a list, in order, stopping at the first failure.
pub open spec fn locks_pass(ls: Seq<Lock>, n: int, rid: i64, items: Seq<String>, w: World, st: StateModel) -> (bool, StateModel)
    decreases n,
{
    if n <= 0 {
        (true, st)
    } else {
        let (ok, s1) = locks_pass(ls, n - 1, rid, items, w, st);
        if !ok {
            (false, s1)
        } else {
            lock_pass(ls[n - 1], rid, items, w, s1)
        }
    }
}

/// Whether all locks of a node open; a node without locks is open.
pub open spec fn unlock(n: Node, rid: i64, items: Seq<String>, w: World, st: StateModel) -> (bool, StateModel) {
    match n.locks {
        Some(ls) => locks_pass(ls@, ls@.len() as int, rid, items, w, st),
        None => (true, st),
    }
}

/// Whether some strat of a link destination passes; one without strats is free.
pub open spec fn traverse(l: LinkTo, rid: i64, items: Seq<String>, w: World, st: StateModel) -> (bool, StateModel) {
    match l.strats {
        Some(ss) => strats_any(ss@, ss@.len() as int, rid, items, w, st),
        None => (true, st),
    }
}

// ---------------------------------------------------------------------------
// The search

/// Adding the events of `ys` that are not there yet, in order.
pub open spec fn merge_events(events: Seq<String>, ys: Seq<String>) -> Seq<String>
    decreases ys.len(),
{
    if ys.len() == 0 {
        events
    } else {
        let e = merge_events(events, ys.drop_last());
        if in_strs(e, ys.last()@) {
            e
        } else {
            e.push(ys.last())
        }
    }
}

/// The cleared obstacles of region `rid`.
pub open spec fn obstacles_in(obs: Seq<(i64, String)>, rid: i64) -> Seq<(i64, String)>
    decreases obs.len(),
{
    if obs.len() == 0 {
        Seq::empty()
    } else {
        let rest = obstacles_in(obs.drop_last(), rid);
        if obs.last().0 == rid {
            rest.push(obs.last())
        } else {
            rest
        }
    }
}

/// The state in which an item location of region `rid`, node `nid` checks
/// that the origin can be reached back: the origin's obstacles of that region
/// kept, no events, nothing visited.
pub open spec fn backtrack_state(st: StateModel, rid: i64, nid: i64) -> StateModel {
    StateModel {
        events: Seq::empty(),
        obstacles: obstacles_in(st.obstacles, rid),
        nodes: Seq::empty(),
        start: (rid, nid),
        backtracking: true,
    }
}

/// The location of node `ni` of region `ri`.
pub open spec fn location_of(w: World, ri: int, ni: int) -> Location {
    Location {
        name: w.regions@[ri].nodes@[ni].name,
        region: w.regions@[ri].id,
        node: w.regions@[ri].nodes@[ni].id,
    }
}

/// One visit of node `ni` of region `ri`: mark it, gather its events, report
/// it if it is an item, go through its door, then along every link that
/// leaves it.
pub open spec fn visit(f: nat, items: Seq<String>, w: World, ri: int, ni: int, st: StateModel) -> (StateModel, Seq<Location>)
    decreases f, 0int, 0int,
{
    if f == 0 || !valid_node(w, ri, ni) {
        (st, Seq::empty())
    } else {
        let region = w.regions@[ri];
        let node = region.nodes@[ni];
        let s1 = StateModel { nodes: st.nodes.push((region.id, node.id)), ..st };
        let s2 = match node.yields {
            Some(ys) => {
                let (ok, t) = unlock(node, region.id, items, w, s1);
                if ok {
                    StateModel { events: merge_events(t.events, ys@), ..t }
                } else {
                    t
                }
            },
            None => s1,
        };
        let (s3, l3) = if node.node_type == Some(NodeType::Item) {
            let (ok, t) = unlock(node, region.id, items, w, s2);
            if !ok {
                (t, Seq::empty())
            } else if t.backtracking {
                (t, seq![location_of(w, ri, ni)])
            } else {
                let (b, _) = fixed_point(
                    (f - 1) as nat,
                    passes(w, backtrack_state(t, region.id, node.id)),
                    items,
                    w,
                    ri,
                    ni,
                    backtrack_state(t, region.id, node.id),
                );
                if b.nodes.contains(t.start) {
                    (t, seq![location_of(w, ri, ni)])
                } else {
                    (t, Seq::empty())
                }
            }
        } else {
            (s2, Seq::empty())
        };
        let (s4, l4) = if node.node_type == Some(NodeType::Door) || node.node_type == Some(NodeType::Exit) {
            let (ok, t) = unlock(node, region.id, items, w, s3);
            if !ok {
                (t, l3)
            } else {
                match door_target(w, region.id, node.id) {
                    Some((tri, tni)) => {
                        if t.nodes.contains((w.regions@[tri].id, w.regions@[tri].nodes@[tni].id)) {
                            (t, l3)
                        } else {
                            let (t2, l) = visit((f - 1) as nat, items, w, tri, tni, t);
                            (t2, l3 + l)
                        }
                    },
                    None => (t, l3),
                }
            }
        } else {
            (s3, l3)
        };
        visit_links((f - 1) as nat, items, w, ri, node.id, 0, 0, s4, l4)
    }
}

/// The size of what is left of the links loop at link `lk`, destination `k`.
pub open spec fn links_left(w: World, ri: int, lk: int, k: int) -> int {
    if 0 <= ri < w.regions@.len() && 0 <= lk < w.regions@[ri].links@.len() && k <= w.regions@[ri].links@[lk].to@.len() {
        w.regions@[ri].links@[lk].to@.len() - k
    } else {
        0
    }
}

/// The links loop of a visit in region `ri`: every link that leaves node id
/// `from`, in order, from link `lk` and its destination `k` onwards.
pub open spec fn visit_links(
    f: nat,
    items: Seq<String>,
    w: World,
    ri: int,
    from: i64,
    lk: int,
    k: int,
    st: StateModel,
    locs: Seq<Location>,
) -> (StateModel, Seq<Location>)
    decreases f, w.regions@[ri].links@.len() - lk, links_left(w, ri, lk, k),
{
    if ri < 0 || ri >= w.regions@.len() || lk < 0 || lk >= w.regions@[ri].links@.len() || k < 0 {
        (st, locs)
    } else if w.regions@[ri].links@[lk].from != from || k >= w.regions@[ri].links@[lk].to@.len() {
        visit_links(f, items, w, ri, from, lk + 1, 0, st, locs)
    } else {
        let region = w.regions@[ri];
        let to = region.links@[lk].to@[k];
        match node_index(region, to.id) {
            Some(ni) => {
                let nid = region.nodes@[ni].id;
                if st.nodes.contains((region.id, nid)) {
                    visit_links(f, items, w, ri, from, lk, k + 1, st, locs)
                } else {
                    let (ok, t) = traverse(to, region.id, items, w, st);
                    if ok && opt_holds(region.nodes@[ni].interaction_requires, items, w, t) {
                        let (t2, l) = visit(f, items, w, ri, ni, t);
                        visit_links(f, items, w, ri, from, lk, k + 1, t2, locs + l)
                    } else {
                        visit_links(f, items, w, ri, from, lk, k + 1, t, locs)
                    }
                }
            },
            None => visit_links(f, items, w, ri, from, lk, k + 1, st, locs),
        }
    }
}

/// Passes from node `ni` of region `ri` until one adds no event (at most `p`
/// passes); the state and the locations of the last pass.
pub open spec fn fixed_point(f: nat, p: nat, items: Seq<String>, w: World, ri: int, ni: int, st: StateModel) -> (StateModel, Seq<Location>)
    decreases f, p, 0int,
{
    if f == 0 || p == 0 {
        (st, Seq::empty())
    } else {
        let (s1, locs) = visit((f - 1) as nat, items, w, ri, ni, StateModel { nodes: Seq::empty(), ..st });
        if s1.events.len() > st.events.len() {
            fixed_point(f, (p - 1) as nat, items, w, ri, ni, s1)
        } else {
            (s1, locs)
        }
    }
}

/// The state after `k` passes from node `ni` of region `ri`, each pass
/// starting with nothing visited.
pub open spec fn after_passes(f: nat, k: nat, items: Seq<String>, w: World, ri: int, ni: int, st: StateModel) -> StateModel
    decreases k,
{
    if k == 0 {
        st
    } else {
        let prev = after_passes(f, (k - 1) as nat, items, w, ri, ni, st);
        visit((f - 1) as nat, items, w, ri, ni, StateModel { nodes: Seq::empty(), ..prev }).0
    }
}

/// The locations found by pass number `k` (counting from one).
pub open spec fn pass_locations(f: nat, k: nat, items: Seq<String>, w: World, ri: int, ni: int, st: StateModel) -> Seq<Location> {
    if k == 0 {
        Seq::empty()
    } else {
        let prev = after_passes(f, (k - 1) as nat, items, w, ri, ni, st);
        visit((f - 1) as nat, items, w, ri, ni, StateModel { nodes: Seq::empty(), ..prev }).1
    }
}

/// Pass `k` is the last one: every earlier pass added events, pass `k` added none.
pub open spec fn converges_at(f: nat, k: nat, items: Seq<String>, w: World, ri: int, ni: int, st: StateModel) -> bool {
    &&& 1 <= k
    &&& forall|j: nat| 0 < j < k ==> (#[trigger] after_passes(f, j, items, w, ri, ni, st)).events.len()
        > after_passes(f, (j - 1) as nat, items, w, ri, ni, st).events.len()
    &&& after_passes(f, k, items, w, ri, ni, st).events.len() == after_passes(f, (k - 1) as nat, items, w, ri, ni, st).events.len()
}

// ---------------------------------------------------------------------------
// Facts about the sizes

/// `a` is `b` with elements added at the end.
pub open spec fn extends<T>(a: Seq<T>, b: Seq<T>) -> bool {
    b.len() <= a.len() && a.subrange(0, b.len() as int) == b
}

/// What a search step keeps: the flags; every list only grows.
pub open spec fn grows(a: StateModel, b: StateModel) -> bool {
    &&& b.backtracking == a.backtracking
    &&& b.start == a.start
    &&& extends(b.events, a.events)
    &&& extends(b.obstacles, a.obstacles)
    &&& extends(b.nodes, a.nodes)
}

/// A step that touches only the cleared obstacles.
pub open spec fn obstacles_only(a: StateModel, b: StateModel) -> bool {
    &&& b.events == a.events
    &&& b.nodes == a.nodes
    &&& b.start == a.start
    &&& b.backtracking == a.backtracking
    &&& extends(b.obstacles, a.obstacles)
    &&& keys_distinct(a.obstacles) ==> keys_distinct(b.obstacles)
}

/// No two cleared obstacles have the same region and id.
pub open spec fn keys_distinct(obs: Seq<(i64, String)>) -> bool {
    forall|i: int, j: int| 0 <= i < j < obs.len() ==> !((#[trigger] obs[i]).0 == (#[trigger] obs[j]).0 && obs[i].1@ == obs[j].1@)
}

/// The invariant of a [`State`] as a set: its cleared obstacles and its
/// visited nodes hold no repeats.
pub open spec fn sets_wf(st: StateModel) -> bool {
    keys_distinct(st.obstacles) && st.nodes.no_duplicates()
}

proof fn lemma_extends_trans<T>(a: Seq<T>, b: Seq<T>, c: Seq<T>)
    requires
        extends(a, b),
        extends(b, c),
    ensures
        extends(a, c),
{
    assert(a.subrange(0, c.len() as int) =~= b.subrange(0, c.len() as int));
}

proof fn lemma_extends_subset<T>(a: Seq<T>, b: Seq<T>)
    requires
        extends(a, b),
    ensures
        b.to_set().subset_of(a.to_set()),
{
    assert forall|x: T| b.to_set().contains(x) implies a.to_set().contains(x) by {
        let i = choose|i: int| 0 <= i < b.len() && b[i] == x;
        assert(a.subrange(0, b.len() as int)[i] == x);
        assert(a[i] == x);
    }
}

proof fn lemma_extends_contains<T>(a: Seq<T>, b: Seq<T>, x: T)
    requires
        extends(a, b),
        b.contains(x),
    ensures
        a.contains(x),
{
    let i = choose|i: int| 0 <= i < b.len() && b[i] == x;
    assert(a.subrange(0, b.len() as int)[i] == x);
}

proof fn lemma_grows_trans(a: StateModel, b: StateModel, c: StateModel)
    requires
        grows(a, b),
        grows(b, c),
    ensures
        grows(a, c),
{
    lemma_extends_trans(c.events, b.events, a.events);
    lemma_extends_trans(c.obstacles, b.obstacles, a.obstacles);
    lemma_extends_trans(c.nodes, b.nodes, a.nodes);
}

proof fn lemma_node_ids_contains(rs: Seq<Region>, ri: int, ni: int)
    requires
        0 <= ri < rs.len(),
        0 <= ni < rs[ri].nodes@.len(),
    ensures
        node_ids(rs).contains((rs[ri].id, rs[ri].nodes@[ni].id)),
    decreases rs.len(),
{
    let r = rs.last();
    let tail = r.nodes@.map_values(|n: Node| (r.id, n.id));
    if ri == rs.len() - 1 {
        assert(tail[ni] == (rs[ri].id, rs[ri].nodes@[ni].id));
        assert(node_ids(rs)[node_ids(rs.drop_last()).len() + ni] == tail[ni]);
    } else {
        lemma_node_ids_contains(rs.drop_last(), ri, ni);
        let j = choose|j: int| 0 <= j < node_ids(rs.drop_last()).len() && node_ids(rs.drop_last())[j] == (rs[ri].id, rs[ri].nodes@[ni].id);
        assert(node_ids(rs)[j] == node_ids(rs.drop_last())[j]);
    }
}

proof fn lemma_nodes_yields_contains(ns: Seq<Node>, ni: int, k: int)
    requires
        0 <= ni < ns.len(),
        0 <= k < node_yields(ns[ni]).len(),
    ensures
        nodes_yields(ns).contains(node_yields(ns[ni])[k]),
    decreases ns.len(),
{
    if ni == ns.len() - 1 {
        assert(nodes_yields(ns)[nodes_yields(ns.drop_last()).len() + k] == node_yields(ns[ni])[k]);
    } else {
        lemma_nodes_yields_contains(ns.drop_last(), ni, k);
        let j = choose|j: int| 0 <= j < nodes_yields(ns.drop_last()).len() && nodes_yields(ns.drop_last())[j] == node_yields(ns[ni])[k];
        assert(nodes_yields(ns)[j] == nodes_yields(ns.drop_last())[j]);
    }
}

proof fn lemma_regions_yields_contains(rs: Seq<Region>, ri: int, x: Seq<char>)
    requires
        0 <= ri < rs.len(),
        nodes_yields(rs[ri].nodes@).contains(x),
    ensures
        regions_yields(rs).contains(x),
    decreases rs.len(),
{
    if ri == rs.len() - 1 {
        let j = choose|j: int| 0 <= j < nodes_yields(rs[ri].nodes@).len() && nodes_yields(rs[ri].nodes@)[j] == x;
        assert(regions_yields(rs)[regions_yields(rs.drop_last()).len() + j] == x);
    } else {
        lemma_regions_yields_contains(rs.drop_last(), ri, x);
        let j = choose|j: int| 0 <= j < regions_yields(rs.drop_last()).len() && regions_yields(rs.drop_last())[j] == x;
        assert(regions_yields(rs)[j] == regions_yields(rs.drop_last())[j]);
    }
}

/// The events a node of the world yields are events of the world.
proof fn lemma_yield_in_world(w: World, ri: int, ni: int, k: int)
    requires
        valid_node(w, ri, ni),
        0 <= k < node_yields(w.regions@[ri].nodes@[ni]).len(),
    ensures
        world_events(w).contains(node_yields(w.regions@[ri].nodes@[ni])[k]),
{
    lemma_nodes_yields_contains(w.regions@[ri].nodes@, ni, k);
    lemma_regions_yields_contains(w.regions@, ri, node_yields(w.regions@[ri].nodes@[ni])[k]);
}

/// Marking an unvisited node of the world lowers the depth bound.
proof fn lemma_depth_visit(w: World, st: StateModel, ri: int, ni: int)
    requires
        valid_node(w, ri, ni),
        !st.nodes.contains((w.regions@[ri].id, w.regions@[ri].nodes@[ni].id)),
    ensures
        depth(w, StateModel { nodes: st.nodes.push((w.regions@[ri].id, w.regions@[ri].nodes@[ni].id)), ..st }) < depth(w, st),
{
    let p = (w.regions@[ri].id, w.regions@[ri].nodes@[ni].id);
    lemma_node_ids_contains(w.regions@, ri, ni);
    assert(st.nodes.push(p) =~= st.nodes + seq![p]);
    Seq::lemma_to_set_insert_commutes(st.nodes, p);
    world_nodes(w).lemma_set_insert_diff_decreases(st.nodes.to_set(), p);
}

/// Visiting more nodes never raises the depth bound.
proof fn lemma_depth_mono(w: World, a: StateModel, b: StateModel)
    requires
        extends(b.nodes, a.nodes),
        b.backtracking == a.backtracking,
    ensures
        depth(w, b) <= depth(w, a),
{
    lemma_extends_subset(b.nodes, a.nodes);
    vstd::set_lib::lemma_len_subset(
        world_nodes(w).difference(b.nodes.to_set()),
        world_nodes(w).difference(a.nodes.to_set()),
    );
}

/// A well-formed state's events are distinct, so there are at most as many
/// as the world has distinct events.
proof fn lemma_events_bounded(w: World, st: StateModel)
    requires
        state_wf(w, st),
    ensures
        texts(st.events).to_set().len() == st.events.len(),
        st.events.len() <= world_events(w).len(),
{
    texts(st.events).unique_seq_to_set();
    vstd::set_lib::lemma_len_subset(texts(st.events).to_set(), world_events(w));
}

// ---------------------------------------------------------------------------
// Executable lookups

/// An index found by a lookup, as a mathematical integer.
pub open spec fn found(r: Option<usize>) -> Option<int> {
    match r {
        Some(i) => Some(i as int),
        None => None,
    }
}

fn find_region(world: &World, id: i64) -> (r: Option<usize>)
    ensures
        found(r) == region_index(*world, id),
        r matches Some(i) ==> i < world.regions@.len(),
{
    let mut i: usize = 0;
    while i < world.regions.len()
        invariant
            0 <= i <= world.regions.len(),
            forall|k: int| 0 <= k < i ==> (#[trigger] world.regions@[k]).id != id,
        decreases world.regions.len() - i,
    {
        if world.regions[i].id == id {
            proof {
                lemma_first_where_found(world.regions@, |r: Region| r.id == id, i as int);
            }
            return Some(i);
        }
        i += 1;
    }
    proof {
        lemma_first_where_none(world.regions@, |r: Region| r.id == id);
    }
    None
}

fn find_node(region: &Region, id: i64) -> (r: Option<usize>)
    ensures
        found(r) == node_index(*region, id),
        r matches Some(i) ==> i < region.nodes@.len(),
{
    let mut i: usize = 0;
    while i < region.nodes.len()
        invariant
            0 <= i <= region.nodes.len(),
            forall|k: int| 0 <= k < i ==> (#[trigger] region.nodes@[k]).id != id,
        decreases region.nodes.len() - i,
    {
        if region.nodes[i].id == id {
            proof {
                lemma_first_where_found(region.nodes@, |n: Node| n.id == id, i as int);
            }
            return Some(i);
        }
        i += 1;
    }
    proof {
        lemma_first_where_none(region.nodes@, |n: Node| n.id == id);
    }
    None
}

fn has_endpoint(c: &crate::connection::Connection, rid: i64, nid: i64) -> (r: bool)
    ensures
        r == exists|k: int| 0 <= k < c.nodes@.len() && (#[trigger] c.nodes@[k]).roomid == rid && c.nodes@[k].nodeid == nid,
{
    let mut k: usize = 0;
    while k < c.nodes.len()
        invariant
            0 <= k <= c.nodes.len(),
            forall|j: int| 0 <= j < k ==> !((#[trigger] c.nodes@[j]).roomid == rid && c.nodes@[j].nodeid == nid),
        decreases c.nodes.len() - k,
    {
        if c.nodes[k].roomid == rid && c.nodes[k].nodeid == nid {
            return true;
        }
        k += 1;
    }
    false
}

/// Where the door `(rid, nid)` leads, as region and node indices.
fn find_door_target(world: &World, rid: i64, nid: i64) -> (r: Option<(usize, usize)>)
    ensures
        match r {
            Some((a, b)) => door_target(*world, rid, nid) == Some((a as int, b as int)),
            None => door_target(*world, rid, nid) is None,
        },
        r matches Some((a, b)) ==> valid_node(*world, a as int, b as int),
{
    let mut i: usize = 0;
    while i < world.connections.len()
        invariant
            0 <= i <= world.connections.len(),
            forall|j: int| 0 <= j < i ==> !(exists|k: int|
                0 <= k < (#[trigger] world.connections@[j]).nodes@.len() && (#[trigger] world.connections@[j].nodes@[k]).roomid == rid
                    && world.connections@[j].nodes@[k].nodeid == nid),
        decreases world.connections.len() - i,
    {
        if has_endpoint(&world.connections[i], rid, nid) {
            proof {
                lemma_first_where_found(
                    world.connections@,
                    |c: crate::connection::Connection|
                        exists|k: int| 0 <= k < c.nodes@.len() && (#[trigger] c.nodes@[k]).roomid == rid && c.nodes@[k].nodeid == nid,
                    i as int,
                );
            }
            let c = &world.connections[i];
            let mut k: usize = 0;
            while k < c.nodes.len()
                invariant
                    0 <= i < world.connections.len(),
                    *c == world.connections@[i as int],
                    connection_index(*world, rid, nid) == Some(i as int),
                    0 <= k <= c.nodes.len(),
                    forall|j: int| 0 <= j < k ==> (#[trigger] c.nodes@[j]).roomid == rid,
                decreases c.nodes.len() - k,
            {
                if c.nodes[k].roomid != rid {
                    proof {
                        lemma_first_where_found(
                            c.nodes@,
                            |cn: crate::connection::ConnectionNode| cn.roomid != rid,
                            k as int,
                        );
                    }
                    let cn = &c.nodes[k];
                    return match find_region(world, cn.roomid) {
                        Some(ri) => match find_node(&world.regions[ri], cn.nodeid) {
                            Some(ni) => Some((ri, ni)),
                            None => None,
                        },
                        None => None,
                    };
                }
                k += 1;
            }
            proof {
                lemma_first_where_none(
                    c.nodes@,
                    |cn: crate::connection::ConnectionNode| cn.roomid != rid,
                );
            }
            return None;
        }
        i += 1;
    }
    proof {
        lemma_first_where_none(
            world.connections@,
            |c: crate::connection::Connection|
                exists|k: int| 0 <= k < c.nodes@.len() && (#[trigger] c.nodes@[k]).roomid == rid && c.nodes@[k].nodeid == nid,
        );
    }
    None
}

fn contains_pair(v: &Vec<(i64, i64)>, p: (i64, i64)) -> (r: bool)
    ensures
        r == v@.contains(p),
{
    let mut i: usize = 0;
    while i < v.len()
        invariant
            0 <= i <= v.len(),
            forall|k: int| 0 <= k < i ==> v@[k] != p,
        decreases v.len() - i,
    {
        if v[i].0 == p.0 && v[i].1 == p.1 {
            assert(v@[i as int] == p);
            return true;
        }
        i += 1;
    }
    false
}

// ---------------------------------------------------------------------------
// Executable strats, obstacles and locks

proof fn lemma_obstacles_stop(obs: Seq<Obstacle>, i: int, n: int, rid: i64, items: Seq<String>, w: World, st: StateModel)
    requires
        0 <= i <= n,
        !obstacles_pass(obs, i, rid, items, w, st).0,
    ensures
        obstacles_pass(obs, n, rid, items, w, st) == obstacles_pass(obs, i, rid, items, w, st),
    decreases n - i,
{
    if n > i {
        lemma_obstacles_stop(obs, i, n - 1, rid, items, w, st);
    }
}

proof fn lemma_strats_stop(ss: Seq<Strat>, i: int, n: int, rid: i64, items: Seq<String>, w: World, st: StateModel)
    requires
        0 <= i <= n,
        strats_any(ss, i, rid, items, w, st).0,
    ensures
        strats_any(ss, n, rid, items, w, st) == strats_any(ss, i, rid, items, w, st),
    decreases n - i,
{
    if n > i {
        lemma_strats_stop(ss, i, n - 1, rid, items, w, st);
    }
}

proof fn lemma_locks_stop(ls: Seq<Lock>, i: int, n: int, rid: i64, items: Seq<String>, w: World, st: StateModel)
    requires
        0 <= i <= n,
        !locks_pass(ls, i, rid, items, w, st).0,
    ensures
        locks_pass(ls, n, rid, items, w, st) == locks_pass(ls, i, rid, items, w, st),
    decreases n - i,
{
    if n > i {
        lemma_locks_stop(ls, i, n - 1, rid, items, w, st);
    }
}

proof fn lemma_obstacles_only_trans(a: StateModel, b: StateModel, c: StateModel)
    requires
        obstacles_only(a, b),
        obstacles_only(b, c),
    ensures
        obstacles_only(a, c),
{
    lemma_extends_trans(c.obstacles, b.obstacles, a.obstacles);
}

fn is_cleared(obs: &Vec<(i64, String)>, rid: i64, id: &String) -> (r: bool)
    ensures
        r == cleared(obs@, rid, id@),
{
    let mut i: usize = 0;
    while i < obs.len()
        invariant
            0 <= i <= obs.len(),
            forall|k: int| 0 <= k < i ==> !((#[trigger] obs@[k]).0 == rid && obs@[k].1@ == id@),
        decreases obs.len() - i,
    {
        if obs[i].0 == rid && obs[i].1 == *id {
            return true;
        }
        i += 1;
    }
    false
}

fn pass_obstacle(o: &Obstacle, rid: i64, items: &Vec<String>, world: &World, state: &mut State) -> (r: bool)
    ensures
        (r, final(state)@) == obstacle_pass(*o, rid, items@, *world, old(state)@),
        obstacles_only(old(state)@, final(state)@),
{
    let done = match &o.id {
        Some(id) => is_cleared(&state.obstacles, rid, id),
        None => false,
    };
    if done {
        assert(old(state)@.obstacles.subrange(0, old(state)@.obstacles.len() as int) =~= old(state)@.obstacles);
        return true;
    }
    let r = match &o.requires {
        Some(req) => {
            if req.check(items, world, state) {
                match &o.id {
                    Some(id) => {
                        state.obstacles.push((rid, id.clone()));
                        assert(keys_distinct(old(state)@.obstacles) ==> keys_distinct(state@.obstacles)) by {
                            let ob = state@.obstacles;
                            let n = old(state)@.obstacles.len() as int;
                            if keys_distinct(old(state)@.obstacles) {
                                assert forall|i: int, j: int| 0 <= i < j < ob.len() implies !((#[trigger] ob[i]).0 == (#[trigger] ob[j]).0 && ob[i].1@ == ob[j].1@) by {
                                    if j == n {
                                        assert(old(state)@.obstacles[i] == ob[i]);
                                    } else {
                                        assert(old(state)@.obstacles[i] == ob[i]);
                                        assert(old(state)@.obstacles[j] == ob[j]);
                                    }
                                }
                            }
                        }
                    },
                    None => {},
                }
                true
            } else {
                match &o.bypass {
                    Some(b) => b.check(items, world, state),
                    None => false,
                }
            }
        },
        None => true,
    };
    assert(final(state)@.obstacles.subrange(0, old(state)@.obstacles.len() as int) =~= old(state)@.obstacles);
    r
}

fn pass_obstacles(obs: &Vec<Obstacle>, rid: i64, items: &Vec<String>, world: &World, state: &mut State) -> (r: bool)
    ensures
        (r, final(state)@) == obstacles_pass(obs@, obs@.len() as int, rid, items@, *world, old(state)@),
        obstacles_only(old(state)@, final(state)@),
{
    let ghost st0 = state@;
    assert(st0.obstacles.subrange(0, st0.obstacles.len() as int) =~= st0.obstacles);
    let mut i: usize = 0;
    while i < obs.len()
        invariant
            0 <= i <= obs.len(),
            st0 == old(state)@,
            obstacles_pass(obs@, i as int, rid, items@, *world, st0) == (true, state@),
            obstacles_only(st0, state@),
        decreases obs.len() - i,
    {
        let ghost before = state@;
        let ok = pass_obstacle(&obs[i], rid, items, world, state);
        proof {
            lemma_obstacles_only_trans(st0, before, state@);
        }
        if !ok {
            proof {
                lemma_obstacles_stop(obs@, i + 1, obs@.len() as int, rid, items@, *world, st0);
            }
            return false;
        }
        i += 1;
    }
    true
}

fn do_strat(s: &Strat, rid: i64, items: &Vec<String>, world: &World, state: &mut State) -> (r: bool)
    ensures
        (r, final(state)@) == strat_pass(*s, rid, items@, *world, old(state)@),
        obstacles_only(old(state)@, final(state)@),
{
    let req = match &s.requires {
        Some(r) => r.check(items, world, state),
        None => true,
    };
    let obs = match &s.obstacles {
        Some(ob) => pass_obstacles(ob, rid, items, world, state),
        None => {
            assert(state@.obstacles.subrange(0, state@.obstacles.len() as int) =~= state@.obstacles);
            true
        },
    };
    req && obs
}

fn any_strat(ss: &Vec<Strat>, rid: i64, items: &Vec<String>, world: &World, state: &mut State) -> (r: bool)
    ensures
        (r, final(state)@) == strats_any(ss@, ss@.len() as int, rid, items@, *world, old(state)@),
        obstacles_only(old(state)@, final(state)@),
{
    let ghost st0 = state@;
    assert(st0.obstacles.subrange(0, st0.obstacles.len() as int) =~= st0.obstacles);
    let mut i: usize = 0;
    while i < ss.len()
        invariant
            0 <= i <= ss.len(),
            st0 == old(state)@,
            strats_any(ss@, i as int, rid, items@, *world, st0) == (false, state@),
            obstacles_only(st0, state@),
        decreases ss.len() - i,
    {
        let ghost before = state@;
        let ok = do_strat(&ss[i], rid, items, world, state);
        proof {
            lemma_obstacles_only_trans(st0, before, state@);
        }
        if ok {
            proof {
                lemma_strats_stop(ss@, i + 1, ss@.len() as int, rid, items@, *world, st0);
            }
            return true;
        }
        i += 1;
    }
    false
}

fn open_lock(l: &Lock, rid: i64, items: &Vec<String>, world: &World, state: &mut State) -> (r: bool)
    ensures
        (r, final(state)@) == lock_pass(*l, rid, items@, *world, old(state)@),
        obstacles_only(old(state)@, final(state)@),
{
    assert(state@.obstacles.subrange(0, state@.obstacles.len() as int) =~= state@.obstacles);
    if l.lock.is_some() {
        return false;
    }
    let un = match &l.unlock_strats {
        Some(us) => any_strat(us, rid, items, world, state),
        None => false,
    };
    if un {
        return true;
    }
    let ghost mid = state@;
    assert(mid.obstacles.subrange(0, mid.obstacles.len() as int) =~= mid.obstacles);
    let r = match &l.bypass_strats {
        Some(bs) => any_strat(bs, rid, items, world, state),
        None => false,
    };
    proof {
        lemma_obstacles_only_trans(old(state)@, mid, state@);
    }
    r
}

/// Whether all locks of `node` open, in region `region`.
fn can_unlock(items: &Vec<String>, world: &World, region: &Region, node: &Node, state: &mut State) -> (r: bool)
    ensures
        (r, final(state)@) == unlock(*node, region.id, items@, *world, old(state)@),
        obstacles_only(old(state)@, final(state)@),
{
    match &node.locks {
        Some(locks) => {
            let ghost st0 = state@;
            assert(st0.obstacles.subrange(0, st0.obstacles.len() as int) =~= st0.obstacles);
            let mut i: usize = 0;
            while i < locks.len()
                invariant
                    0 <= i <= locks.len(),
                    st0 == old(state)@,
                    node.locks == Some(*locks),
                    locks_pass(locks@, i as int, region.id, items@, *world, st0) == (true, state@),
                    obstacles_only(st0, state@),
                decreases locks.len() - i,
            {
                let ghost before = state@;
                let ok = open_lock(&locks[i], region.id, items, world, state);
                proof {
                    lemma_obstacles_only_trans(st0, before, state@);
                }
                if !ok {
                    proof {
                        lemma_locks_stop(locks@, i + 1, locks@.len() as int, region.id, items@, *world, st0);
                    }
                    return false;
                }
                i += 1;
            }
            true
        },
        None => {
            assert(state@.obstacles.subrange(0, state@.obstacles.len() as int) =~= state@.obstacles);
            true
        },
    }
}

/// Whether some strat of a link destination passes, in region `region`.
fn can_traverse(items: &Vec<String>, world: &World, region: &Region, link: &LinkTo, state: &mut State) -> (r: bool)
    ensures
        (r, final(state)@) == traverse(*link, region.id, items@, *world, old(state)@),
        obstacles_only(old(state)@, final(state)@),
{
    match &link.strats {
        Some(strats) => any_strat(strats, region.id, items, world, state),
        None => {
            assert(state@.obstacles.subrange(0, state@.obstacles.len() as int) =~= state@.obstacles);
            true
        },
    }
}

/// Whether the access requirement of `node` holds.
fn can_access(items: &Vec<String>, world: &World, node: &Node, state: &State) -> (r: bool)
    ensures
        r == opt_holds(node.interaction_requires, items@, *world, state@),
{
    match &node.interaction_requires {
        Some(r) => r.check(items, world, state),
        None => true,
    }
}

// ---------------------------------------------------------------------------
// Events and the backtracking state

proof fn lemma_merge_events(w: World, events: Seq<String>, ys: Seq<String>)
    requires
        forall|k: int| 0 <= k < ys.len() ==> world_events(w).contains((#[trigger] ys[k])@),
    ensures
        texts(events).no_duplicates() && texts(events).to_set().subset_of(world_events(w))
            ==> texts(merge_events(events, ys)).no_duplicates() && texts(merge_events(events, ys)).to_set().subset_of(world_events(w)),
        extends(merge_events(events, ys), events),
    decreases ys.len(),
{
    if ys.len() == 0 {
        assert(events.subrange(0, events.len() as int) =~= events);
    } else {
        let e = merge_events(events, ys.drop_last());
        assert forall|k: int| 0 <= k < ys.drop_last().len() implies world_events(w).contains((#[trigger] ys.drop_last()[k])@) by {
            assert(ys.drop_last()[k] == ys[k]);
        }
        lemma_merge_events(w, events, ys.drop_last());
        let y = ys.last();
        assert(extends(e.push(y), events)) by {
            assert(e.push(y).subrange(0, events.len() as int) =~= e.subrange(0, events.len() as int));
        }
        if !in_strs(e, y@) && texts(events).no_duplicates() && texts(events).to_set().subset_of(world_events(w)) {
            assert(texts(e.push(y)) =~= texts(e).push(y@));
            assert(!texts(e).contains(y@)) by {
                if texts(e).contains(y@) {
                    let j = choose|j: int| 0 <= j < texts(e).len() && texts(e)[j] == y@;
                    assert(e[j]@ == y@);
                }
            }
            assert(world_events(w).contains(ys[ys.len() - 1]@));
            assert forall|x: Seq<char>| texts(e.push(y)).to_set().contains(x) implies world_events(w).contains(x) by {
                let j = choose|j: int| 0 <= j < texts(e.push(y)).len() && texts(e.push(y))[j] == x;
                if j < e.len() {
                    assert(texts(e).to_set().contains(texts(e)[j]));
                }
            }
            assert(e.push(y).subrange(0, events.len() as int) =~= e.subrange(0, events.len() as int));
        }
    }
}

fn merge_yields(events: &mut Vec<String>, ys: &Vec<String>)
    ensures
        final(events)@ == merge_events(old(events)@, ys@),
{
    let mut i: usize = 0;
    assert(ys@.subrange(0, 0) =~= Seq::<String>::empty());
    while i < ys.len()
        invariant
            0 <= i <= ys.len(),
            events@ == merge_events(old(events)@, ys@.subrange(0, i as int)),
        decreases ys.len() - i,
    {
        assert(ys@.subrange(0, i + 1).drop_last() =~= ys@.subrange(0, i as int));
        assert(ys@.subrange(0, i + 1).last() == ys@[i as int]);
        if !contains_str(events, &ys[i]) {
            events.push(ys[i].clone());
        }
        i += 1;
    }
    assert(ys@.subrange(0, ys@.len() as int) =~= ys@);
}

fn obstacles_of_region(obs: &Vec<(i64, String)>, rid: i64) -> (r: Vec<(i64, String)>)
    ensures
        r@ == obstacles_in(obs@, rid),
{
    let mut out: Vec<(i64, String)> = Vec::new();
    let mut i: usize = 0;
    assert(obs@.subrange(0, 0) =~= Seq::<(i64, String)>::empty());
    while i < obs.len()
        invariant
            0 <= i <= obs.len(),
            out@ == obstacles_in(obs@.subrange(0, i as int), rid),
        decreases obs.len() - i,
    {
        assert(obs@.subrange(0, i + 1).drop_last() =~= obs@.subrange(0, i as int));
        assert(obs@.subrange(0, i + 1).last() == obs@[i as int]);
        if obs[i].0 == rid {
            out.push((obs[i].0, obs[i].1.clone()));
        }
        i += 1;
    }
    assert(obs@.subrange(0, obs@.len() as int) =~= obs@);
    out
}

// ---------------------------------------------------------------------------
// The search

proof fn lemma_obstacles_only_grows(a: StateModel, b: StateModel)
    requires
        obstacles_only(a, b),
    ensures
        grows(a, b),
{
    assert(a.events.subrange(0, a.events.len() as int) =~= a.events);
    assert(a.nodes.subrange(0, a.nodes.len() as int) =~= a.nodes);
}

/// The state that starts a search from region id `rid`, node id `nid`.
pub open spec fn fresh_state(rid: i64, nid: i64) -> StateModel {
    StateModel {
        events: Seq::empty(),
        obstacles: Seq::empty(),
        nodes: Seq::empty(),
        start: (rid, nid),
        backtracking: false,
    }
}

/// The region and node indices of the node with ids `(rid, nid)`.
pub open spec fn origin(w: World, rid: i64, nid: i64) -> Option<(int, int)> {
    match region_index(w, rid) {
        Some(ri) => match node_index(w.regions@[ri], nid) {
            Some(ni) => Some((ri, ni)),
            None => None,
        },
        None => None,
    }
}

/// Enough fuel for a whole query on `w`.
pub open spec fn query_fuel(w: World) -> nat {
    2 * world_nodes(w).len() + 4
}

/// The item locations reachable from node `ni` of region `ri` with the
/// abilities `items`: those of the last pass of the fixed point.
pub open spec fn reachable(items: Seq<String>, w: World, ri: int, ni: int) -> Seq<Location> {
    let st = fresh_state(w.regions@[ri].id, w.regions@[ri].nodes@[ni].id);
    fixed_point(query_fuel(w), passes(w, st), items, w, ri, ni, st).1
}

/// The locks of node `ni` of region `ri` open with the abilities `items` in
/// a state of the search whose events and cleared obstacles are each a
/// beginning of those of `fin`.
pub open spec fn opens_by(items: Seq<String>, w: World, ri: int, ni: int, fin: StateModel) -> bool {
    exists|st: StateModel|
        (#[trigger] unlock(w.regions@[ri].nodes@[ni], w.regions@[ri].id, items, w, st)).0
            && extends(fin.events, st.events) && extends(fin.obstacles, st.obstacles)
}

/// The location is an item node of the world whose locks opened, with the
/// abilities `items`, in a state the search passed through on its way to `fin`.
pub open spec fn sound_location(items: Seq<String>, w: World, l: Location, fin: StateModel) -> bool {
    exists|ri: int, ni: int| valid_node(w, ri, ni) && #[trigger] location_of(w, ri, ni) == l
        && w.regions@[ri].nodes@[ni].node_type == Some(NodeType::Item)
        && opens_by(items, w, ri, ni, fin)
}

/// What a query from the node with ids `(rid, nid)` returns: `None` where
/// no such node exists.
pub open spec fn query(items: Seq<String>, w: World, rid: i64, nid: i64) -> Option<Seq<Location>> {
    match origin(w, rid, nid) {
        Some((ri, ni)) => Some(reachable(items, w, ri, ni)),
        None => None,
    }
}

/// The locations `v` are those of the last pass of a query from node `ni`
/// of region `ri`, which takes at most one pass more than the world has
/// distinct events: every earlier pass added events, the last added none.
pub open spec fn converged(items: Seq<String>, w: World, ri: int, ni: int, v: Seq<Location>) -> bool {
    let st = fresh_state(w.regions@[ri].id, w.regions@[ri].nodes@[ni].id);
    exists|k: nat| #![trigger converges_at(query_fuel(w), k, items, w, ri, ni, st)]
        k <= world_events(w).len() + 1
        && converges_at(query_fuel(w), k, items, w, ri, ni, st)
        && v == pass_locations(query_fuel(w), k, items, w, ri, ni, st)
}

/// The search back from node `ni` of region `ri`, with enough fuel and from
/// the backtracking state of a state whose cleared obstacles are a beginning
/// of those of `fin`, visited the node with ids `start`.
pub open spec fn reaches_back(items: Seq<String>, w: World, ri: int, ni: int, start: (i64, i64), fin: StateModel) -> bool {
    exists|g: nat, t: StateModel|
        g > world_nodes(w).len() + 1 && extends(fin.obstacles, t.obstacles)
        && (#[trigger] fixed_point(
            g,
            passes(w, backtrack_state(t, w.regions@[ri].id, w.regions@[ri].nodes@[ni].id)),
            items,
            w,
            ri,
            ni,
            backtrack_state(t, w.regions@[ri].id, w.regions@[ri].nodes@[ni].id),
        )).0.nodes.contains(start)
}

/// The location is a node of the world from which the search, with the
/// obstacles cleared on the way to `fin`, found its way back to the node with
/// ids `start`.
pub open spec fn leads_back(items: Seq<String>, w: World, l: Location, start: (i64, i64), fin: StateModel) -> bool {
    exists|ri: int, ni: int| valid_node(w, ri, ni) && #[trigger] location_of(w, ri, ni) == l
        && reaches_back(items, w, ri, ni, start, fin)
}

/// One pass from node `ni` of region `ri` with the state `st` as it is; a
/// node the state has visited already is not visited again.
pub open spec fn pass_from(items: Seq<String>, w: World, ri: int, ni: int, st: StateModel) -> (StateModel, Seq<Location>) {
    if st.nodes.contains((w.regions@[ri].id, w.regions@[ri].nodes@[ni].id)) {
        (st, Seq::empty())
    } else {
        visit(depth(w, st) + 1, items, w, ri, ni, st)
    }
}

/// The state a query from node `ni` of region `ri` ends in.
pub open spec fn query_state(items: Seq<String>, w: World, ri: int, ni: int) -> StateModel {
    let st = fresh_state(w.regions@[ri].id, w.regions@[ri].nodes@[ni].id);
    fixed_point(query_fuel(w), passes(w, st), items, w, ri, ni, st).0
}

proof fn lemma_sound_lift(items: Seq<String>, w: World, locs: Seq<Location>, start: (i64, i64), a: StateModel, b: StateModel)
    requires
        forall|i: int| 0 <= i < locs.len() ==> sound_location(items, w, #[trigger] locs[i], a),
        extends(b.events, a.events),
        extends(b.obstacles, a.obstacles),
    ensures
        forall|i: int| 0 <= i < locs.len() ==> sound_location(items, w, #[trigger] locs[i], b),
        (forall|i: int| 0 <= i < locs.len() ==> leads_back(items, w, #[trigger] locs[i], start, a))
            ==> forall|i: int| 0 <= i < locs.len() ==> leads_back(items, w, #[trigger] locs[i], start, b),
{
    if forall|i: int| 0 <= i < locs.len() ==> leads_back(items, w, #[trigger] locs[i], start, a) {
        assert forall|i: int| 0 <= i < locs.len() implies leads_back(items, w, #[trigger] locs[i], start, b) by {
            assert(leads_back(items, w, locs[i], start, a));
            let (ri, ni) = choose|ri: int, ni: int| valid_node(w, ri, ni) && #[trigger] location_of(w, ri, ni) == locs[i]
                && reaches_back(items, w, ri, ni, start, a);
            let (g, t) = choose|g: nat, t: StateModel|
                g > world_nodes(w).len() + 1 && extends(a.obstacles, t.obstacles)
                && (#[trigger] fixed_point(
                    g,
                    passes(w, backtrack_state(t, w.regions@[ri].id, w.regions@[ri].nodes@[ni].id)),
                    items,
                    w,
                    ri,
                    ni,
                    backtrack_state(t, w.regions@[ri].id, w.regions@[ri].nodes@[ni].id),
                )).0.nodes.contains(start);
            lemma_extends_trans(b.obstacles, a.obstacles, t.obstacles);
            assert(reaches_back(items, w, ri, ni, start, b));
        }
    }
    assert forall|i: int| 0 <= i < locs.len() implies sound_location(items, w, #[trigger] locs[i], b) by {
        assert(sound_location(items, w, locs[i], a));
        let (ri, ni) = choose|ri: int, ni: int| valid_node(w, ri, ni) && #[trigger] location_of(w, ri, ni) == locs[i]
            && w.regions@[ri].nodes@[ni].node_type == Some(NodeType::Item)
            && opens_by(items, w, ri, ni, a);
        let st = choose|st: StateModel|
            (#[trigger] unlock(w.regions@[ri].nodes@[ni], w.regions@[ri].id, items, w, st)).0
                && extends(a.events, st.events) && extends(a.obstacles, st.obstacles);
        lemma_extends_trans(b.events, a.events, st.events);
        lemma_extends_trans(b.obstacles, a.obstacles, st.obstacles);
        assert(opens_by(items, w, ri, ni, b));
    }
}

proof fn lemma_empty_state_wf(w: World, st: StateModel)
    requires
        st.events.len() == 0,
    ensures
        state_wf(w, st),
{
    assert(texts(st.events) =~= Seq::<Seq<char>>::empty());
    assert(texts(st.events).to_set() =~= Set::<Seq<char>>::empty());
}

proof fn lemma_cleared_depth(w: World, st: StateModel)
    ensures
        depth(w, StateModel { nodes: Seq::empty(), ..st }) == world_nodes(w).len()
            + if st.backtracking { 0 } else { world_nodes(w).len() + 2 },
{
    assert(Seq::<(i64, i64)>::empty().to_set() =~= Set::<(i64, i64)>::empty());
    assert(world_nodes(w).difference(Set::<(i64, i64)>::empty()) =~= world_nodes(w));
}

impl State {
    /// A fresh state for a search from region id `start_region`, node id `start_node`.
    pub fn new(start_region: i64, start_node: i64) -> (r: State)
        ensures
            r@ == fresh_state(start_region, start_node),
            sets_wf(r@),
    {
        State {
            events: Vec::new(),
            obstacles: Vec::new(),
            nodes: Vec::new(),
            start: (start_region, start_node),
            backtracking: false,
        }
    }
}

impl Location {
    /// The item locations reachable from the node with ids
    /// `(from_region, from_node)` with the abilities `items`, each confirmed
    /// to have a way back to that node; `None` where no such node exists.
    pub fn available(items: &Vec<String>, world: &World, from_region: i64, from_node: i64) -> (r: Option<Vec<Location>>)
        ensures
            match r {
                Some(v) => query(items@, *world, from_region, from_node) == Some(v@),
                None => query(items@, *world, from_region, from_node) is None,
            },
            match origin(*world, from_region, from_node) {
                Some((ri, ni)) => r matches Some(v) && forall|i: int| 0 <= i < v@.len()
                    ==> sound_location(items@, *world, #[trigger] v@[i], query_state(items@, *world, ri, ni)),
                None => r is None,
            },
            match origin(*world, from_region, from_node) {
                Some((ri, ni)) => r matches Some(v) && converged(items@, *world, ri, ni, v@),
                None => true,
            },
            match origin(*world, from_region, from_node) {
                Some((ri, ni)) => r matches Some(v) && forall|i: int| 0 <= i < v@.len()
                    ==> leads_back(items@, *world, #[trigger] v@[i], (from_region, from_node), query_state(items@, *world, ri, ni)),
                None => true,
            },
    {
        let ri = match find_region(world, from_region) {
            Some(ri) => ri,
            None => return None,
        };
        let ni = match find_node(&world.regions[ri], from_node) {
            Some(ni) => ni,
            None => return None,
        };
        let mut state = State::new(from_region, from_node);
        proof {
            lemma_empty_state_wf(*world, state@);
        }
        let ghost st0 = state@;
        let ghost p = passes(*world, state@);
        assert(st0.events.subrange(0, st0.events.len() as int) =~= st0.events);
        proof {
            lemma_passes_bound(*world, st0, st0);
        }
        let locations = Self::fixed_point(items, world, ri, ni, &mut state, Ghost(query_fuel(*world)), Ghost(p));
        assert(converged(items@, *world, ri as int, ni as int, locations@));
        Some(locations)
    }

    /// One pass from the node with ids `(from_region, from_node)` with the
    /// events and cleared obstacles of `state`, its visited nodes cleared
    /// first; `None` (and `state` unchanged) where no such node exists.
    pub fn available_with_state(items: &Vec<String>, world: &World, from_region: i64, from_node: i64, state: &mut State) -> (r: Option<Vec<Location>>)
        ensures
            grows(old(state)@, final(state)@),
            state_wf(*world, old(state)@) ==> state_wf(*world, final(state)@),
            sets_wf(old(state)@) ==> sets_wf(final(state)@),
            match origin(*world, from_region, from_node) {
                Some((ri, ni)) => {
                    r matches Some(v) && (final(state)@, v@) == pass_from(items@, *world, ri, ni, old(state)@)
                        && final(state)@.nodes.contains((from_region, from_node))
                },
                None => r is None && final(state)@ == old(state)@,
            },
    {
        assert(old(state)@.events.subrange(0, old(state)@.events.len() as int) =~= old(state)@.events);
        assert(old(state)@.obstacles.subrange(0, old(state)@.obstacles.len() as int) =~= old(state)@.obstacles);
        assert(old(state)@.nodes.subrange(0, old(state)@.nodes.len() as int) =~= old(state)@.nodes);
        let ri = match find_region(world, from_region) {
            Some(ri) => ri,
            None => return None,
        };
        let ni = match find_node(&world.regions[ri], from_node) {
            Some(ni) => ni,
            None => return None,
        };
        if contains_pair(&state.nodes, (from_region, from_node)) {
            return Some(Vec::new());
        }
        let ghost st = state@;
        let r = Self::visit_node(items, world, ri, ni, state, Ghost(depth(*world, st) + 1));
        Some(r)
    }

    /// Passes from node `ni` of region `ri` until a pass adds no event.
    #[verifier::rlimit(40)]
    fn fixed_point(items: &Vec<String>, world: &World, ri: usize, ni: usize, state: &mut State, Ghost(f): Ghost<nat>, Ghost(p): Ghost<nat>) -> (r: Vec<Location>)
        requires
            valid_node(*world, ri as int, ni as int),
            state_wf(*world, old(state)@),
            f > world_nodes(*world).len() + 1 + if old(state)@.backtracking { 0 } else { world_nodes(*world).len() + 2 },
            p >= passes(*world, old(state)@),
        ensures
            (final(state)@, r@) == fixed_point(f, p, items@, *world, ri as int, ni as int, old(state)@),
            state_wf(*world, final(state)@),
            final(state)@.backtracking == old(state)@.backtracking,
            final(state)@.start == old(state)@.start,
            extends(final(state)@.events, old(state)@.events),
            forall|i: int| 0 <= i < r@.len() ==> sound_location(items@, *world, #[trigger] r@[i], final(state)@),
            !old(state)@.backtracking ==> forall|i: int| 0 <= i < r@.len() ==> leads_back(items@, *world, #[trigger] r@[i], old(state)@.start, final(state)@),
            exists|k: nat| #![trigger converges_at(f, k, items@, *world, ri as int, ni as int, old(state)@)]
                k <= passes(*world, old(state)@)
                && converges_at(f, k, items@, *world, ri as int, ni as int, old(state)@)
                && final(state)@ == after_passes(f, k, items@, *world, ri as int, ni as int, old(state)@)
                && r@ == pass_locations(f, k, items@, *world, ri as int, ni as int, old(state)@),
        decreases f,
    {
        let ghost goal = fixed_point(f, p, items@, *world, ri as int, ni as int, old(state)@);
        let ghost st0 = old(state)@;
        let ghost mut pk = p;
        let ghost mut cnt: nat = 0;
        let mut locations: Vec<Location> = Vec::new();
        let mut done = false;
        assert(old(state)@.events.subrange(0, old(state)@.events.len() as int) =~= old(state)@.events);
        while !done
            invariant
                valid_node(*world, ri as int, ni as int),
                f > world_nodes(*world).len() + 1 + if state@.backtracking { 0 } else { world_nodes(*world).len() + 2 },
                !done ==> goal == fixed_point(f, pk, items@, *world, ri as int, ni as int, state@),
                !done ==> pk >= passes(*world, state@),
                done ==> (state@, locations@) == goal,
                state_wf(*world, state@),
                state@.backtracking == old(state)@.backtracking,
                state@.start == old(state)@.start,
                extends(state@.events, old(state)@.events),
                done ==> forall|i: int| 0 <= i < locations@.len() ==> sound_location(items@, *world, #[trigger] locations@[i], state@),
                done && !st0.backtracking ==> forall|i: int| 0 <= i < locations@.len() ==> leads_back(items@, *world, #[trigger] locations@[i], st0.start, state@),
                st0 == old(state)@,
                forall|j: nat| 0 < j <= cnt ==> (#[trigger] after_passes(f, j, items@, *world, ri as int, ni as int, st0)).events.len()
                    > after_passes(f, (j - 1) as nat, items@, *world, ri as int, ni as int, st0).events.len(),
                !done ==> state@ == after_passes(f, cnt, items@, *world, ri as int, ni as int, st0),
                !done ==> cnt + passes(*world, state@) <= passes(*world, st0),
                done ==> cnt + 1 <= passes(*world, st0),
                done ==> state@ == after_passes(f, cnt + 1, items@, *world, ri as int, ni as int, st0),
                done ==> locations@ == pass_locations(f, cnt + 1, items@, *world, ri as int, ni as int, st0),
                done ==> state@.events.len() == after_passes(f, cnt, items@, *world, ri as int, ni as int, st0).events.len(),
            decreases pk, if done { 0int } else { 1int },
        {
            let old_len = state.events.len();
            let ghost before = state@;
            proof {
                lemma_events_bounded(*world, before);
            }
            state.nodes = Vec::new();
            assert(state@ == StateModel { nodes: Seq::empty(), ..before });
            proof {
                lemma_cleared_depth(*world, before);
            }
            locations = Self::visit_node(items, world, ri, ni, state, Ghost((f - 1) as nat));
            proof {
                lemma_extends_trans(state@.events, before.events, old(state)@.events);
                lemma_events_bounded(*world, state@);
            }
            assert(state@ == after_passes(f, cnt + 1, items@, *world, ri as int, ni as int, st0));
            assert(locations@ == pass_locations(f, cnt + 1, items@, *world, ri as int, ni as int, st0));
            proof {
                lemma_passes_bound(*world, before, state@);
            }
            if state.events.len() > old_len {
                proof {
                    let ghost c = cnt;
                    assert forall|j: nat| 0 < j <= c + 1 implies (#[trigger] after_passes(f, j, items@, *world, ri as int, ni as int, st0)).events.len()
                        > after_passes(f, (j - 1) as nat, items@, *world, ri as int, ni as int, st0).events.len() by {
                        if j == c + 1 {
                            assert(((j - 1) as nat) == c);
                        }
                    }
                    pk = (pk - 1) as nat;
                    cnt = cnt + 1;
                }
            } else {
                done = true;
            }
        }
        assert(converges_at(f, cnt + 1, items@, *world, ri as int, ni as int, st0)) by {
            assert forall|j: nat| 0 < j < cnt + 1 implies (#[trigger] after_passes(f, j, items@, *world, ri as int, ni as int, st0)).events.len()
                > after_passes(f, (j - 1) as nat, items@, *world, ri as int, ni as int, st0).events.len() by {}
            assert(((cnt + 1) - 1) as nat == cnt);
        }
        locations
    }

    /// Visits node `ni` of region `ri`, which this pass has not visited yet.
    #[verifier::rlimit(80)]
    fn visit_node(items: &Vec<String>, world: &World, ri: usize, ni: usize, state: &mut State, Ghost(f): Ghost<nat>) -> (r: Vec<Location>)
        requires
            valid_node(*world, ri as int, ni as int),
            f > depth(*world, old(state)@),
            !old(state)@.nodes.contains((world.regions@[ri as int].id, world.regions@[ri as int].nodes@[ni as int].id)),
        ensures
            (final(state)@, r@) == visit(f, items@, *world, ri as int, ni as int, old(state)@),
            grows(old(state)@, final(state)@),
            final(state)@.nodes.contains((world.regions@[ri as int].id, world.regions@[ri as int].nodes@[ni as int].id)),
            state_wf(*world, old(state)@) ==> state_wf(*world, final(state)@),
            sets_wf(old(state)@) ==> sets_wf(final(state)@),
            forall|i: int| 0 <= i < r@.len() ==> sound_location(items@, *world, #[trigger] r@[i], final(state)@),
            !old(state)@.backtracking ==> forall|i: int| 0 <= i < r@.len() ==> leads_back(items@, *world, #[trigger] r@[i], old(state)@.start, final(state)@),
        decreases f,
    {
        let region = &world.regions[ri];
        let node = &region.nodes[ni];
        let ghost st0 = state@;
        let ghost wf0 = state_wf(*world, st0);
        proof {
            lemma_depth_visit(*world, st0, ri as int, ni as int);
        }
        state.nodes.push((region.id, node.id));
        let ghost s1 = state@;
        assert(s1.nodes[s1.nodes.len() - 1] == (region.id, node.id));
        assert(sets_wf(st0) ==> sets_wf(s1)) by {
            if sets_wf(st0) {
                assert forall|i: int, j: int| 0 <= i < s1.nodes.len() && 0 <= j < s1.nodes.len() && i != j implies s1.nodes[i] != s1.nodes[j] by {
                    if i < st0.nodes.len() && j < st0.nodes.len() {
                        assert(s1.nodes[i] == st0.nodes[i] && s1.nodes[j] == st0.nodes[j]);
                    } else if i < st0.nodes.len() {
                        assert(s1.nodes[i] == st0.nodes[i]);
                    } else {
                        assert(s1.nodes[j] == st0.nodes[j]);
                    }
                }
            }
        }
        assert(s1.nodes.contains((world.regions@[ri as int].id, world.regions@[ri as int].nodes@[ni as int].id)));
        assert(s1 == StateModel { nodes: st0.nodes.push((region.id, node.id)), ..st0 });
        assert(grows(st0, s1)) by {
            assert(st0.events.subrange(0, st0.events.len() as int) =~= st0.events);
            assert(st0.obstacles.subrange(0, st0.obstacles.len() as int) =~= st0.obstacles);
            assert(s1.nodes.subrange(0, st0.nodes.len() as int) =~= st0.nodes);
        }
        // events the node yields
        match &node.yields {
            Some(ys) => {
                if can_unlock(items, world, region, node, state) {
                    let ghost t = state@;
                    proof {
                        lemma_obstacles_only_grows(s1, t);
                        lemma_grows_trans(st0, s1, t);
                        assert forall|k: int| 0 <= k < ys@.len() implies world_events(*world).contains((#[trigger] ys@[k])@) by {
                            assert(node_yields(*node)[k] == ys@[k]@);
                            lemma_yield_in_world(*world, ri as int, ni as int, k);
                        }
                        lemma_merge_events(*world, t.events, ys@);
                    }
                    merge_yields(&mut state.events, ys);
                    proof {
                        lemma_extends_trans(state@.events, t.events, st0.events);
                    }
                } else {
                    proof {
                        lemma_obstacles_only_grows(s1, state@);
                        lemma_grows_trans(st0, s1, state@);
                    }
                }
            },
            None => {},
        }
        let ghost s2 = state@;
        assert(s2.nodes == s1.nodes);
        assert(s1.nodes.subrange(0, s1.nodes.len() as int) =~= s1.nodes);
        proof {
            lemma_depth_mono(*world, s1, s2);
        }
        let mut locations: Vec<Location> = Vec::new();
        // an item location, confirmed by a way back to the origin
        if matches!(node.node_type, Some(NodeType::Item)) {
            let ok = can_unlock(items, world, region, node, state);
            proof {
                lemma_obstacles_only_grows(s2, state@);
                lemma_grows_trans(st0, s2, state@);
            }
            assert(ok ==> opens_by(items@, *world, ri as int, ni as int, state@)) by {
                assert(ok == unlock(world.regions@[ri as int].nodes@[ni as int], world.regions@[ri as int].id, items@, *world, s2).0);
                assert(s2.events.subrange(0, s2.events.len() as int) =~= s2.events);
            }
            if ok {
                let accept = if state.backtracking {
                    true
                } else {
                    let obstacles = obstacles_of_region(&state.obstacles, region.id);
                    let mut back = State {
                        events: Vec::new(),
                        obstacles,
                        nodes: Vec::new(),
                        start: (region.id, node.id),
                        backtracking: true,
                    };
                    assert(back@ == backtrack_state(state@, region.id, node.id));
                    proof {
                        lemma_empty_state_wf(*world, back@);
                    }
                    let ghost bp = passes(*world, back@);
                    let ghost back0 = back@;
                    let _ = Self::fixed_point(items, world, ri, ni, &mut back, Ghost((f - 1) as nat), Ghost(bp));
                    let found = contains_pair(&back.nodes, state.start);
                    assert(found ==> reaches_back(items@, *world, ri as int, ni as int, st0.start, state@)) by {
                        let t = state@;
                        assert(t.obstacles.subrange(0, t.obstacles.len() as int) =~= t.obstacles);
                        assert((f - 1) as nat > world_nodes(*world).len() + 1);
                        assert(back0 == backtrack_state(t, world.regions@[ri as int].id, world.regions@[ri as int].nodes@[ni as int].id));
                        assert(back@ == fixed_point((f - 1) as nat, bp, items@, *world, ri as int, ni as int, back0).0);
                    }
                    found
                };
                if accept {
                    locations.push(Location { name: node.name.clone(), region: region.id, node: node.id });
                    assert(location_of(*world, ri as int, ni as int) == locations@[0]);
                    assert(sound_location(items@, *world, locations@[0], state@));
                    assert(!st0.backtracking ==> leads_back(items@, *world, locations@[0], st0.start, state@));
                }
            }
        }
        let ghost s3 = state@;
        let ghost l3 = locations@;
        assert(s3.nodes == s1.nodes);
        proof {
            lemma_depth_mono(*world, s1, s3);
        }
        // through the door
        if matches!(node.node_type, Some(NodeType::Door)) || matches!(node.node_type, Some(NodeType::Exit)) {
            let ok = can_unlock(items, world, region, node, state);
            proof {
                lemma_obstacles_only_grows(s3, state@);
                lemma_grows_trans(st0, s3, state@);
                lemma_depth_mono(*world, s1, state@);
                lemma_sound_lift(items@, *world, locations@, st0.start, s3, state@);
            }
            if ok {
                match find_door_target(world, region.id, node.id) {
                    Some((tri, tni)) => {
                        let target = &world.regions[tri];
                        if !contains_pair(&state.nodes, (target.id, target.nodes[tni].id)) {
                            let ghost t = state@;
                            assert(t.nodes == s1.nodes);
                            let mut more = Self::visit_node(items, world, tri, tni, state, Ghost((f - 1) as nat));
                            proof {
                                lemma_grows_trans(st0, t, state@);
                lemma_extends_contains(state@.nodes, t.nodes, (world.regions@[ri as int].id, world.regions@[ri as int].nodes@[ni as int].id));
                                lemma_sound_lift(items@, *world, locations@, st0.start, t, state@);
                            }
                            let ghost before = locations@;
                            let ghost added = more@;
                            locations.append(&mut more);
                            assert forall|i: int| 0 <= i < locations@.len() implies sound_location(items@, *world, #[trigger] locations@[i], state@) by {
                                if i >= before.len() {
                                    assert(locations@[i] == added[i - before.len()]);
                                }
                            }
                            assert(!st0.backtracking ==> forall|i: int| 0 <= i < locations@.len() ==> leads_back(items@, *world, #[trigger] locations@[i], st0.start, state@)) by {
                                if !st0.backtracking {
                                    assert forall|i: int| 0 <= i < locations@.len() implies leads_back(items@, *world, #[trigger] locations@[i], st0.start, state@) by {
                                        if i >= before.len() {
                                            assert(locations@[i] == added[i - before.len()]);
                                        }
                                    }
                                }
                            }
                        }
                    },
                    None => {},
                }
            }
        }
        let ghost s4 = state@;
        assert(s4.nodes.contains((world.regions@[ri as int].id, world.regions@[ri as int].nodes@[ni as int].id))) by {
            if s4.nodes != s1.nodes {
                lemma_extends_contains(s4.nodes, s1.nodes, (world.regions@[ri as int].id, world.regions@[ri as int].nodes@[ni as int].id));
            }
        }
        let ghost l4 = locations@;
        proof {
            lemma_depth_mono(*world, s1, s4);
        }
        // along every link that leaves the node, in order
        let ghost g = (f - 1) as nat;
        let ghost goal = visit_links(g, items@, *world, ri as int, node.id, 0, 0, s4, l4);
        let mut lk: usize = 0;
        while lk < region.links.len()
            invariant
                valid_node(*world, ri as int, ni as int),
                *region == world.regions@[ri as int],
                *node == region.nodes@[ni as int],
                0 <= lk <= region.links.len(),
                g == f - 1,
                g > depth(*world, state@),
                goal == visit_links(g, items@, *world, ri as int, node.id, lk as int, 0, state@, locations@),
                grows(st0, state@),
                state@.nodes.contains((world.regions@[ri as int].id, world.regions@[ri as int].nodes@[ni as int].id)),
                wf0 ==> state_wf(*world, state@),
                sets_wf(st0) ==> sets_wf(state@),
                forall|i: int| 0 <= i < locations@.len() ==> sound_location(items@, *world, #[trigger] locations@[i], state@),
                !st0.backtracking ==> forall|i: int| 0 <= i < locations@.len() ==> leads_back(items@, *world, #[trigger] locations@[i], st0.start, state@),
            decreases region.links.len() - lk,
        {
            if region.links[lk].from == node.id {
                let tos = &region.links[lk].to;
                let mut k: usize = 0;
                while k < tos.len()
                    invariant
                        valid_node(*world, ri as int, ni as int),
                        *region == world.regions@[ri as int],
                        *node == region.nodes@[ni as int],
                        0 <= lk < region.links.len(),
                        region.links@[lk as int].from == node.id,
                        *tos == region.links@[lk as int].to,
                        0 <= k <= tos.len(),
                        g == f - 1,
                        g > depth(*world, state@),
                        goal == visit_links(g, items@, *world, ri as int, node.id, lk as int, k as int, state@, locations@),
                        grows(st0, state@),
                        state@.nodes.contains((world.regions@[ri as int].id, world.regions@[ri as int].nodes@[ni as int].id)),
                state@.nodes.contains((world.regions@[ri as int].id, world.regions@[ri as int].nodes@[ni as int].id)),
                        wf0 ==> state_wf(*world, state@),
                        sets_wf(st0) ==> sets_wf(state@),
                sets_wf(st0) ==> sets_wf(state@),
                        forall|i: int| 0 <= i < locations@.len() ==> sound_location(items@, *world, #[trigger] locations@[i], state@),
                        !st0.backtracking ==> forall|i: int| 0 <= i < locations@.len() ==> leads_back(items@, *world, #[trigger] locations@[i], st0.start, state@),
                    decreases tos.len() - k,
                {
                    match find_node(region, tos[k].id) {
                        Some(tn) => {
                            if !contains_pair(&state.nodes, (region.id, region.nodes[tn].id)) {
                                let ghost t0 = state@;
                                let ok = can_traverse(items, world, region, &tos[k], state);
                                proof {
                                    lemma_obstacles_only_grows(t0, state@);
                                    lemma_grows_trans(st0, t0, state@);
                                    lemma_depth_mono(*world, t0, state@);
                                    lemma_sound_lift(items@, *world, locations@, st0.start, t0, state@);
                                }
                                if ok && can_access(items, world, &region.nodes[tn], state) {
                                    let ghost t = state@;
                                    let mut more = Self::visit_node(items, world, ri, tn, state, Ghost(g));
                                    proof {
                                        lemma_grows_trans(st0, t, state@);
                lemma_extends_contains(state@.nodes, t.nodes, (world.regions@[ri as int].id, world.regions@[ri as int].nodes@[ni as int].id));
                                        lemma_depth_mono(*world, t, state@);
                                        lemma_sound_lift(items@, *world, locations@, st0.start, t, state@);
                                    }
                                    let ghost before = locations@;
                                    let ghost added = more@;
                                    locations.append(&mut more);
                                    assert forall|i: int| 0 <= i < locations@.len() implies sound_location(items@, *world, #[trigger] locations@[i], state@) by {
                                        if i >= before.len() {
                                            assert(locations@[i] == added[i - before.len()]);
                                        }
                                    }
                                    assert(!st0.backtracking ==> forall|i: int| 0 <= i < locations@.len() ==> leads_back(items@, *world, #[trigger] locations@[i], st0.start, state@)) by {
                                        if !st0.backtracking {
                                            assert forall|i: int| 0 <= i < locations@.len() implies leads_back(items@, *world, #[trigger] locations@[i], st0.start, state@) by {
                                                if i >= before.len() {
                                                    assert(locations@[i] == added[i - before.len()]);
                                                }
                                            }
                                        }
                                    }
                                }
                            }
                        },
                        None => {},
                    }
                    k += 1;
                }
            }
            lk += 1;
        }
        locations
    }
}

// ---------------------------------------------------------------------------
// Laws

/// The fixed point converges: a fresh query starts with a budget of one pass
/// more than the world has distinct events, and every pass that adds an event
/// to a well-formed state lowers that budget, which never goes below one.
pub proof fn lemma_passes_bound(w: World, before: StateModel, after: StateModel)
    requires
        state_wf(w, before),
        state_wf(w, after),
        extends(after.events, before.events),
    ensures
        passes(w, fresh_state(before.start.0, before.start.1)) == world_events(w).len() + 1,
        passes(w, after) <= passes(w, before),
        passes(w, after) >= 1,
        after.events.len() > before.events.len() ==> passes(w, after) < passes(w, before),
{
    assert(texts(Seq::<String>::empty()) =~= Seq::<Seq<char>>::empty());
    assert(texts(Seq::<String>::empty()).to_set() =~= Set::<Seq<char>>::empty());
    lemma_events_bounded(w, before);
    lemma_events_bounded(w, after);
}

/// Two queries with the same abilities, world and origin find the same
/// locations.
pub proof fn lemma_available_deterministic(items1: Seq<String>, items2: Seq<String>, w: World, rid: i64, nid: i64)
    requires
        items1 == items2,
    ensures
        query(items1, w, rid, nid) == query(items2, w, rid, nid),
        query(items1, w, rid, nid) is None <==> origin(w, rid, nid) is None,
{
}

/// Once an obstacle of a region is cleared through its requirement, any
/// obstacle with the same id in that region passes at once: the state is
/// left as it is, whatever that obstacle's own requirement says.
pub proof fn lemma_obstacle_reuse(o1: Obstacle, o2: Obstacle, rid: i64, items: Seq<String>, w: World, st: StateModel)
    requires
        o1.id is Some,
        o2.id == o1.id,
        o1.requires matches Some(r) && r.holds(items, w, st.events),
    ensures
        obstacle_pass(o1, rid, items, w, st).0,
        cleared(obstacle_pass(o1, rid, items, w, st).1.obstacles, rid, o1.id->Some_0@),
        obstacle_pass(o2, rid, items, w, obstacle_pass(o1, rid, items, w, st).1)
            == (true, obstacle_pass(o1, rid, items, w, st).1),
{
    let s1 = obstacle_pass(o1, rid, items, w, st).1;
    if !cleared(st.obstacles, rid, o1.id->Some_0@) {
        let id = o1.id->Some_0;
        assert(s1.obstacles[st.obstacles.len() as int] == (rid, id));
    }
}

proof fn lemma_obstacles_all_cleared(obs: Seq<Obstacle>, n: int, rid: i64, items: Seq<String>, w: World, st: StateModel)
    requires
        0 <= n <= obs.len(),
        forall|k: int| 0 <= k < obs.len() ==> (#[trigger] obs[k]).id is Some && cleared(st.obstacles, rid, obs[k].id->Some_0@),
    ensures
        obstacles_pass(obs, n, rid, items, w, st) == (true, st),
    decreases n,
{
    if n > 0 {
        lemma_obstacles_all_cleared(obs, n - 1, rid, items, w, st);
        assert(obs[n - 1].id is Some);
    }
}

/// A strat whose obstacles are all cleared already passes exactly when its
/// own requirement holds, and leaves the state as it is: the obstacles'
/// requirements and bypasses are not looked at again.
pub proof fn lemma_strat_cleared_obstacles(s: Strat, rid: i64, items: Seq<String>, w: World, st: StateModel)
    requires
        s.obstacles matches Some(ob) && forall|k: int| 0 <= k < ob@.len()
            ==> (#[trigger] ob@[k]).id is Some && cleared(st.obstacles, rid, ob@[k].id->Some_0@),
    ensures
        strat_pass(s, rid, items, w, st) == (opt_holds(s.requires, items, w, st), st),
{
    let ob = s.obstacles->Some_0;
    lemma_obstacles_all_cleared(ob@, ob@.len() as int, rid, items, w, st);
}

/// Two strats of a region that share an obstacle: once the first clears it
/// through the obstacle's requirement, the second treats it as cleared, and
/// passes exactly when its own requirement holds, with the state unchanged.
pub proof fn lemma_strat_obstacle_reuse(s1: Strat, s2: Strat, rid: i64, items: Seq<String>, w: World, st: StateModel, x: Seq<char>)
    requires
        s1.obstacles is Some,
        s1.obstacles->Some_0@.len() == 1,
        s1.obstacles->Some_0@[0].id is Some,
        s1.obstacles->Some_0@[0].id->Some_0@ == x,
        s1.obstacles->Some_0@[0].requires matches Some(r) && r.holds(items, w, st.events),
        s2.obstacles is Some,
        forall|k: int| 0 <= k < s2.obstacles->Some_0@.len()
            ==> (#[trigger] s2.obstacles->Some_0@[k]).id is Some && s2.obstacles->Some_0@[k].id->Some_0@ == x,
    ensures
        strat_pass(s1, rid, items, w, st).0 == opt_holds(s1.requires, items, w, st),
        cleared(strat_pass(s1, rid, items, w, st).1.obstacles, rid, x),
        strat_pass(s2, rid, items, w, strat_pass(s1, rid, items, w, st).1)
            == (opt_holds(s2.requires, items, w, strat_pass(s1, rid, items, w, st).1), strat_pass(s1, rid, items, w, st).1),
{
    let o = s1.obstacles->Some_0@[0];
    let t = strat_pass(s1, rid, items, w, st).1;
    assert(obstacles_pass(s1.obstacles->Some_0@, 0, rid, items, w, st) == (true, st));
    if !cleared(st.obstacles, rid, x) {
        assert(t.obstacles[st.obstacles.len() as int] == (rid, o.id->Some_0));
    }
    assert(cleared(t.obstacles, rid, x));
    lemma_strat_cleared_obstacles(s2, rid, items, w, t);
}

proof fn lemma_locks_fail(ls: Seq<Lock>, j: int, n: int, rid: i64, items: Seq<String>, w: World, st: StateModel)
    requires
        0 <= j < n,
        ls[j].lock is Some,
    ensures
        !locks_pass(ls, n, rid, items, w, st).0,
    decreases n,
{
    if n - 1 != j {
        lemma_locks_fail(ls, j, n - 1, rid, items, w, st);
    }
}

/// A node with a hard lock never opens, so a search never reports it.
pub proof fn lemma_hard_lock_never_opens(items: Seq<String>, w: World, ri: int, ni: int, j: int)
    requires
        valid_node(w, ri, ni),
        w.regions@[ri].nodes@[ni].locks matches Some(ls) && 0 <= j < ls@.len() && ls@[j].lock is Some,
    ensures
        forall|fin: StateModel| !#[trigger] opens_by(items, w, ri, ni, fin),
{
    let node = w.regions@[ri].nodes@[ni];
    let ls = node.locks->Some_0;
    assert forall|st: StateModel| !(#[trigger] unlock(node, w.regions@[ri].id, items, w, st)).0 by {
        lemma_locks_fail(ls@, j, ls@.len() as int, w.regions@[ri].id, items, w, st);
    }
}

} // verus!
