use vstd::prelude::*;
use crate::region::Region;
use crate::connection::Connection;
use crate::enemy::Enemy;
use crate::weapon::Weapon;
use crate::helper::Helper;
use crate::node::{Node, NodeType};
use crate::location::State;
use crate::requirement::{in_strs, contains_str, within, positive, weapons_positive, lemma_holds_monotone, lemma_holds_same_texts};

verus! {

/// A fully loaded game world.
pub struct World {
    pub name: String,
    pub regions: Vec<Region>,
    pub connections: Vec<Connection>,
    pub enemies: Vec<Enemy>,
    pub weapons: Vec<Weapon>,
    pub helpers: Vec<Helper>,
    pub techs: Vec<Helper>,
}

/// A flag holds for the abilities `items`: it has no requirement, or its
/// requirement holds with no events.
pub open spec fn flag_holds(h: Helper, items: Seq<String>, w: World) -> bool {
    match h.requires {
        Some(r) => r.holds(items, w, Seq::empty()),
        None => true,
    }
}

/// One sweep over the first `n` flags of a list, in order: each one not yet
/// resolved whose requirement holds for `base` and the flags resolved so far
/// is added.
pub open spec fn sweep(hs: Seq<Helper>, n: int, base: Seq<String>, w: World, acc: Seq<String>) -> Seq<String>
    decreases n,
{
    if n <= 0 {
        acc
    } else {
        let a = sweep(hs, n - 1, base, w, acc);
        let h = hs[n - 1];
        if flag_holds(h, base + a, w) && !in_strs(a, h.name@) {
            a.push(h.name)
        } else {
            a
        }
    }
}

/// Sweeps from `acc` until one adds nothing (at most `fuel` sweeps).
pub open spec fn closure(hs: Seq<Helper>, base: Seq<String>, w: World, acc: Seq<String>, fuel: nat) -> Seq<String>
    decreases fuel,
{
    if fuel == 0 {
        acc
    } else {
        let a = sweep(hs, hs.len() as int, base, w, acc);
        if a.len() == acc.len() {
            a
        } else {
            closure(hs, base, w, a, (fuel - 1) as nat)
        }
    }
}

/// The flags of `hs` that resolve from `base`.
pub open spec fn resolved(hs: Seq<Helper>, base: Seq<String>, w: World) -> Seq<String> {
    closure(hs, base, w, Seq::empty(), hs.len() + 1)
}

/// The abilities held in world `w` with the items `items` and the techs
/// `techs`: the items, the helpers they resolve, and the requested techs that
/// resolve from both.
pub open spec fn flags_of(w: World, items: Seq<String>, techs: Seq<String>) -> Seq<String> {
    items + resolved(w.helpers@, items, w) + kept(resolved(w.techs@, items + resolved(w.helpers@, items, w), w), techs)
}

/// The strings of `v` whose text is one of `keep`, in order.
pub open spec fn kept(v: Seq<String>, keep: Seq<String>) -> Seq<String>
    decreases v.len(),
{
    if v.len() == 0 {
        Seq::empty()
    } else {
        let rest = kept(v.drop_last(), keep);
        if in_strs(keep, v.last()@) {
            rest.push(v.last())
        } else {
            rest
        }
    }
}

/// The names of the item nodes of a list of nodes, in order.
pub open spec fn node_item_names(ns: Seq<Node>) -> Seq<String>
    decreases ns.len(),
{
    if ns.len() == 0 {
        Seq::empty()
    } else {
        let rest = node_item_names(ns.drop_last());
        if ns.last().node_type == Some(NodeType::Item) {
            rest.push(ns.last().name)
        } else {
            rest
        }
    }
}

/// The names of the item nodes of a list of regions, in order.
pub open spec fn item_names(rs: Seq<Region>) -> Seq<String>
    decreases rs.len(),
{
    if rs.len() == 0 {
        Seq::empty()
    } else {
        item_names(rs.drop_last()) + node_item_names(rs.last().nodes@)
    }
}

/// The texts of the names of a list of flags.
pub open spec fn flag_names(hs: Seq<Helper>) -> Seq<Seq<char>> {
    hs.map_values(|h: Helper| h.name@)
}

proof fn lemma_sweep_grows(hs: Seq<Helper>, n: int, base: Seq<String>, w: World, acc: Seq<String>)
    requires
        0 <= n <= hs.len(),
    ensures
        sweep(hs, n, base, w, acc).len() >= acc.len(),
        sweep(hs, n, base, w, acc).subrange(0, acc.len() as int) == acc,
        forall|i: int| acc.len() <= i < sweep(hs, n, base, w, acc).len()
            ==> flag_names(hs).contains((#[trigger] sweep(hs, n, base, w, acc)[i])@),
        texts_distinct(acc) ==> texts_distinct(sweep(hs, n, base, w, acc)),
        justified(hs, base, w, acc) ==> justified(hs, base, w, sweep(hs, n, base, w, acc)),
    decreases n,
{
    if n <= 0 {
        assert(acc.subrange(0, acc.len() as int) =~= acc);
    } else {
        lemma_sweep_grows(hs, n - 1, base, w, acc);
        let a = sweep(hs, n - 1, base, w, acc);
        let h = hs[n - 1];
        if flag_holds(h, base + a, w) && !in_strs(a, h.name@) {
            if justified(hs, base, w, a) {
                let b = a.push(h.name);
                assert forall|i: int| 0 <= i < b.len() implies #[trigger] justified_at(hs, base, w, b, i) by {
                    assert(b.subrange(0, i) =~= a.subrange(0, i)) by {
                        if i < a.len() {
                            assert(b.subrange(0, i) =~= a.subrange(0, i));
                        } else {
                            assert(b.subrange(0, i) =~= a);
                            assert(a.subrange(0, i) =~= a);
                        }
                    }
                    if i < a.len() {
                        assert(justified_at(hs, base, w, a, i));
                        let k = choose|k: int| 0 <= k < hs.len() && (#[trigger] hs[k]).name@ == a[i]@
                            && flag_holds(hs[k], base + a.subrange(0, i), w);
                        assert(b[i] == a[i]);
                    } else {
                        assert(hs[n - 1].name@ == b[i]@ && flag_holds(hs[n - 1], base + b.subrange(0, i), w));
                    }
                }
            }
            assert(a.push(h.name).subrange(0, acc.len() as int) =~= a.subrange(0, acc.len() as int));
            assert(flag_names(hs)[n - 1] == h.name@);
            if texts_distinct(a) {
                assert forall|i: int, j: int| 0 <= i < j < a.push(h.name).len() implies (#[trigger] a.push(h.name)[i])@ != (#[trigger] a.push(h.name)[j])@ by {
                    if j == a.len() {
                        assert(a[i] == a.push(h.name)[i]);
                    }
                }
            }
        }
    }
}

/// A sweep that adds nothing leaves out only flags whose requirement fails.
proof fn lemma_sweep_stable(hs: Seq<Helper>, n: int, base: Seq<String>, w: World, acc: Seq<String>)
    requires
        0 <= n <= hs.len(),
        sweep(hs, n, base, w, acc).len() == acc.len(),
    ensures
        sweep(hs, n, base, w, acc) == acc,
        forall|k: int| 0 <= k < n && flag_holds(#[trigger] hs[k], base + acc, w) ==> in_strs(acc, hs[k].name@),
    decreases n,
{
    lemma_sweep_grows(hs, n, base, w, acc);
    assert(sweep(hs, n, base, w, acc) =~= sweep(hs, n, base, w, acc).subrange(0, acc.len() as int));
    if n > 0 {
        lemma_sweep_grows(hs, n - 1, base, w, acc);
        let a = sweep(hs, n - 1, base, w, acc);
        if flag_holds(hs[n - 1], base + a, w) && !in_strs(a, hs[n - 1].name@) {
            assert(a.push(hs[n - 1].name).len() == a.len() + 1);
        }
        lemma_sweep_stable(hs, n - 1, base, w, acc);
    }
}

/// The flags of `hs` that resolve from `base` are closed: each flag whose
/// requirement holds for `base` and them is among them, and all of them are
/// distinct names of flags of `hs`.
pub open spec fn closed(hs: Seq<Helper>, base: Seq<String>, w: World, r: Seq<String>) -> bool {
    &&& forall|k: int| 0 <= k < hs.len() && flag_holds(#[trigger] hs[k], base + r, w) ==> in_strs(r, hs[k].name@)
    &&& forall|i: int| 0 <= i < r.len() ==> flag_names(hs).contains((#[trigger] r[i])@)
    &&& texts_distinct(r)
}

/// The `i`th resolved flag is the name of a flag of `hs` whose requirement
/// held for `base` and the flags resolved before it.
pub open spec fn justified_at(hs: Seq<Helper>, base: Seq<String>, w: World, r: Seq<String>, i: int) -> bool {
    exists|k: int| 0 <= k < hs.len() && (#[trigger] hs[k]).name@ == r[i]@ && flag_holds(hs[k], base + r.subrange(0, i), w)
}

/// Every resolved flag was resolved for a reason.
pub open spec fn justified(hs: Seq<Helper>, base: Seq<String>, w: World, r: Seq<String>) -> bool {
    forall|i: int| 0 <= i < r.len() ==> #[trigger] justified_at(hs, base, w, r, i)
}

/// The flag's requirement, if any, has no negation in it.
pub open spec fn flag_positive(h: Helper) -> bool {
    match h.requires {
        Some(r) => positive(r),
        None => true,
    }
}

proof fn lemma_in_strs_concat(a: Seq<String>, b: Seq<String>, x: Seq<char>)
    ensures
        in_strs(a + b, x) == (in_strs(a, x) || in_strs(b, x)),
{
    if in_strs(a + b, x) {
        let i = choose|i: int| 0 <= i < (a + b).len() && (#[trigger] (a + b)[i])@ == x;
        if i < a.len() {
            assert(a[i] == (a + b)[i]);
        } else {
            assert(b[i - a.len()] == (a + b)[i]);
        }
    }
    if in_strs(a, x) {
        let i = choose|i: int| 0 <= i < a.len() && (#[trigger] a[i])@ == x;
        assert((a + b)[i] == a[i]);
    }
    if in_strs(b, x) {
        let i = choose|i: int| 0 <= i < b.len() && (#[trigger] b[i])@ == x;
        assert((a + b)[a.len() + i] == b[i]);
    }
}

proof fn lemma_closure_props(hs: Seq<Helper>, base: Seq<String>, w: World, acc: Seq<String>, fuel: nat)
    requires
        texts_distinct(acc),
        forall|i: int| 0 <= i < acc.len() ==> flag_names(hs).contains((#[trigger] acc[i])@),
        justified(hs, base, w, acc),
        fuel >= hs.len() - acc.len() + 1,
    ensures
        closed(hs, base, w, closure(hs, base, w, acc, fuel)),
        justified(hs, base, w, closure(hs, base, w, acc, fuel)),
    decreases fuel,
{
    lemma_distinct_bounded(acc, hs);
    let a = sweep(hs, hs.len() as int, base, w, acc);
    lemma_sweep_grows(hs, hs.len() as int, base, w, acc);
    if a.len() == acc.len() {
        lemma_sweep_stable(hs, hs.len() as int, base, w, acc);
    } else {
        assert forall|i: int| 0 <= i < a.len() implies flag_names(hs).contains((#[trigger] a[i])@) by {
            if i < acc.len() {
                assert(a[i] == a.subrange(0, acc.len() as int)[i]);
            }
        }
        lemma_distinct_bounded(a, hs);
        lemma_closure_props(hs, base, w, a, (fuel - 1) as nat);
    }
}

/// What resolves is closed and justified.
proof fn lemma_resolved_props(hs: Seq<Helper>, base: Seq<String>, w: World)
    ensures
        closed(hs, base, w, resolved(hs, base, w)),
        justified(hs, base, w, resolved(hs, base, w)),
{
    lemma_closure_props(hs, base, w, Seq::empty(), (hs.len() + 1) as nat);
}

/// A justified list of flags lies within any list closed under the same
/// flags, from a base with at least the same texts, in a world with the same
/// weapons and enemies, when no requirement involved has a negation.
proof fn lemma_least(
    hs1: Seq<Helper>,
    hs2: Seq<Helper>,
    base1: Seq<String>,
    base2: Seq<String>,
    w1: World,
    w2: World,
    r: Seq<String>,
    c: Seq<String>,
    n: int,
)
    requires
        0 <= n <= r.len(),
        justified(hs1, base1, w1, r),
        forall|k: int| 0 <= k < hs1.len() ==> hs2.contains(#[trigger] hs1[k]),
        forall|k: int| 0 <= k < hs1.len() ==> flag_positive(#[trigger] hs1[k]),
        weapons_positive(w1),
        w2.weapons == w1.weapons,
        w2.enemies == w1.enemies,
        within(base1, base2),
        forall|k: int| 0 <= k < hs2.len() && flag_holds(#[trigger] hs2[k], base2 + c, w2) ==> in_strs(c, hs2[k].name@),
    ensures
        forall|i: int| 0 <= i < n ==> in_strs(c, (#[trigger] r[i])@),
    decreases n,
{
    if n > 0 {
        lemma_least(hs1, hs2, base1, base2, w1, w2, r, c, n - 1);
        let i = n - 1;
        assert(justified_at(hs1, base1, w1, r, i));
        let k = choose|k: int| 0 <= k < hs1.len() && (#[trigger] hs1[k]).name@ == r[i]@
            && flag_holds(hs1[k], base1 + r.subrange(0, i), w1);
        let h = hs1[k];
        assert(within(base1 + r.subrange(0, i), base2 + c)) by {
            assert forall|x: Seq<char>| #[trigger] in_strs(base1 + r.subrange(0, i), x) implies in_strs(base2 + c, x) by {
                lemma_in_strs_concat(base1, r.subrange(0, i), x);
                lemma_in_strs_concat(base2, c, x);
                if in_strs(r.subrange(0, i), x) {
                    let j = choose|j: int| 0 <= j < r.subrange(0, i).len() && (#[trigger] r.subrange(0, i)[j])@ == x;
                    assert(r.subrange(0, i)[j] == r[j]);
                }
            }
        }
        match h.requires {
            Some(q) => {
                assert(flag_positive(hs1[k]));
                assert(within(Seq::<String>::empty(), Seq::<String>::empty()));
                lemma_holds_monotone(q, false, base1 + r.subrange(0, i), base2 + c, w1, w2, Seq::empty(), Seq::empty());
            },
            None => {},
        }
        assert(hs2.contains(hs1[k]));
        let k2 = choose|k2: int| 0 <= k2 < hs2.len() && hs2[k2] == hs1[k];
        assert(flag_holds(hs2[k2], base2 + c, w2));
    }
}

/// Flags whose requirements have no negation resolve the same whatever the
/// order in which they are declared: two lists of the same flags resolve the
/// same names.
pub proof fn lemma_flag_order_irrelevant(hs1: Seq<Helper>, hs2: Seq<Helper>, base: Seq<String>, w: World)
    requires
        forall|k: int| 0 <= k < hs1.len() ==> hs2.contains(#[trigger] hs1[k]),
        forall|k: int| 0 <= k < hs2.len() ==> hs1.contains(#[trigger] hs2[k]),
        forall|k: int| 0 <= k < hs1.len() ==> flag_positive(#[trigger] hs1[k]),
        weapons_positive(w),
    ensures
        within(resolved(hs1, base, w), resolved(hs2, base, w)),
        within(resolved(hs2, base, w), resolved(hs1, base, w)),
{
    let r1 = resolved(hs1, base, w);
    let r2 = resolved(hs2, base, w);
    lemma_resolved_props(hs1, base, w);
    lemma_resolved_props(hs2, base, w);
    assert forall|k: int| 0 <= k < hs2.len() implies flag_positive(#[trigger] hs2[k]) by {
        let j = choose|j: int| 0 <= j < hs1.len() && hs1[j] == hs2[k];
        assert(flag_positive(hs1[j]));
    }
    assert(within(base, base));
    lemma_least(hs1, hs2, base, base, w, w, r1, r2, r1.len() as int);
    lemma_least(hs2, hs1, base, base, w, w, r2, r1, r2.len() as int);
    assert forall|x: Seq<char>| #[trigger] in_strs(r1, x) implies in_strs(r2, x) by {
        let i = choose|i: int| 0 <= i < r1.len() && (#[trigger] r1[i])@ == x;
        assert(in_strs(r2, r1[i]@));
    }
    assert forall|x: Seq<char>| #[trigger] in_strs(r2, x) implies in_strs(r1, x) by {
        let i = choose|i: int| 0 <= i < r2.len() && (#[trigger] r2[i])@ == x;
        assert(in_strs(r1, r2[i]@));
    }
}

proof fn lemma_kept(v: Seq<String>, keep: Seq<String>, x: Seq<char>)
    ensures
        in_strs(kept(v, keep), x) == (in_strs(v, x) && in_strs(keep, x)),
    decreases v.len(),
{
    if v.len() > 0 {
        lemma_kept(v.drop_last(), keep, x);
        let rest = kept(v.drop_last(), keep);
        lemma_in_strs_concat(v.drop_last(), seq![v.last()], x);
        assert(v.drop_last() + seq![v.last()] =~= v);
        if in_strs(keep, v.last()@) {
            lemma_in_strs_concat(rest, seq![v.last()], x);
            assert(rest + seq![v.last()] =~= rest.push(v.last()));
        }
        if in_strs(seq![v.last()], x) {
            let i = choose|i: int| 0 <= i < 1 && (#[trigger] seq![v.last()][i])@ == x;
            assert(v.last()@ == x);
        }
    }
}

proof fn lemma_within_of(r: Seq<String>, c: Seq<String>)
    requires
        forall|i: int| 0 <= i < r.len() ==> in_strs(c, (#[trigger] r[i])@),
    ensures
        within(r, c),
{
    assert forall|x: Seq<char>| #[trigger] in_strs(r, x) implies in_strs(c, x) by {
        let i = choose|i: int| 0 <= i < r.len() && (#[trigger] r[i])@ == x;
        assert(in_strs(c, r[i]@));
    }
}

proof fn lemma_within_concat(a1: Seq<String>, b1: Seq<String>, a2: Seq<String>, b2: Seq<String>)
    requires
        within(a1, a2),
        within(b1, b2),
    ensures
        within(a1 + b1, a2 + b2),
{
    assert forall|x: Seq<char>| #[trigger] in_strs(a1 + b1, x) implies in_strs(a2 + b2, x) by {
        lemma_in_strs_concat(a1, b1, x);
        lemma_in_strs_concat(a2, b2, x);
    }
}

proof fn lemma_sweep_same_texts(hs: Seq<Helper>, n: int, b1: Seq<String>, b2: Seq<String>, w1: World, w2: World, acc: Seq<String>)
    requires
        0 <= n <= hs.len(),
        within(b1, b2),
        within(b2, b1),
        w2.weapons == w1.weapons,
        w2.enemies == w1.enemies,
    ensures
        sweep(hs, n, b1, w1, acc) == sweep(hs, n, b2, w2, acc),
    decreases n,
{
    if n > 0 {
        lemma_sweep_same_texts(hs, n - 1, b1, b2, w1, w2, acc);
        let a = sweep(hs, n - 1, b1, w1, acc);
        assert(within(a, a));
        lemma_within_concat(b1, a, b2, a);
        lemma_within_concat(b2, a, b1, a);
        match hs[n - 1].requires {
            Some(q) => lemma_holds_same_texts(q, false, b1 + a, b2 + a, w1, w2, Seq::empty()),
            None => {},
        }
    }
}

proof fn lemma_closure_same_texts(hs: Seq<Helper>, b1: Seq<String>, b2: Seq<String>, w1: World, w2: World, acc: Seq<String>, fuel: nat)
    requires
        within(b1, b2),
        within(b2, b1),
        w2.weapons == w1.weapons,
        w2.enemies == w1.enemies,
    ensures
        closure(hs, b1, w1, acc, fuel) == closure(hs, b2, w2, acc, fuel),
    decreases fuel,
{
    if fuel > 0 {
        lemma_sweep_same_texts(hs, hs.len() as int, b1, b2, w1, w2, acc);
        let a = sweep(hs, hs.len() as int, b1, w1, acc);
        lemma_closure_same_texts(hs, b1, b2, w1, w2, a, (fuel - 1) as nat);
    }
}

/// `get_flags` does not depend on the order in which helpers are declared,
/// when no helper requirement (nor any weapon's use requirement, which an
/// enemy kill reads) has a negation: in two worlds that differ only in that
/// order, the abilities have the same texts, and the techs resolve alike.
pub proof fn lemma_get_flags_helper_order_irrelevant(w1: World, w2: World, items: Seq<String>, techs: Seq<String>)
    requires
        w2.weapons == w1.weapons,
        w2.enemies == w1.enemies,
        w2.techs == w1.techs,
        forall|k: int| 0 <= k < w1.helpers@.len() ==> w2.helpers@.contains(#[trigger] w1.helpers@[k]),
        forall|k: int| 0 <= k < w2.helpers@.len() ==> w1.helpers@.contains(#[trigger] w2.helpers@[k]),
        forall|k: int| 0 <= k < w1.helpers@.len() ==> flag_positive(#[trigger] w1.helpers@[k]),
        weapons_positive(w1),
    ensures
        within(flags_of(w1, items, techs), flags_of(w2, items, techs)),
        within(flags_of(w2, items, techs), flags_of(w1, items, techs)),
        resolved(w1.techs@, items + resolved(w1.helpers@, items, w1), w1)
            == resolved(w2.techs@, items + resolved(w2.helpers@, items, w2), w2),
{
    let h1 = w1.helpers@;
    let h2 = w2.helpers@;
    let ts = w1.techs@;
    assert forall|k: int| 0 <= k < h2.len() implies flag_positive(#[trigger] h2[k]) by {
        let j = choose|j: int| 0 <= j < h1.len() && h1[j] == h2[k];
        assert(flag_positive(h1[j]));
    }
    let rh1 = resolved(h1, items, w1);
    let rh2 = resolved(h2, items, w2);
    lemma_resolved_props(h1, items, w1);
    lemma_resolved_props(h2, items, w2);
    assert(within(items, items));
    lemma_least(h1, h2, items, items, w1, w2, rh1, rh2, rh1.len() as int);
    lemma_least(h2, h1, items, items, w2, w1, rh2, rh1, rh2.len() as int);
    lemma_within_of(rh1, rh2);
    lemma_within_of(rh2, rh1);
    let b1 = items + rh1;
    let b2 = items + rh2;
    lemma_within_concat(items, rh1, items, rh2);
    lemma_within_concat(items, rh2, items, rh1);
    let rt1 = resolved(ts, b1, w1);
    let rt2 = resolved(ts, b2, w2);
    lemma_closure_same_texts(ts, b1, b2, w1, w2, Seq::empty(), (ts.len() + 1) as nat);
    assert(rt1 == rt2);
    assert(within(kept(rt1, techs), kept(rt2, techs))) by {
        assert forall|x: Seq<char>| #[trigger] in_strs(kept(rt1, techs), x) implies in_strs(kept(rt2, techs), x) by {
            lemma_kept(rt1, techs, x);
            lemma_kept(rt2, techs, x);
        }
    }
    assert(within(kept(rt2, techs), kept(rt1, techs))) by {
        assert forall|x: Seq<char>| #[trigger] in_strs(kept(rt2, techs), x) implies in_strs(kept(rt1, techs), x) by {
            lemma_kept(rt1, techs, x);
            lemma_kept(rt2, techs, x);
        }
    }
    lemma_within_concat(b1, kept(rt1, techs), b2, kept(rt2, techs));
    lemma_within_concat(b2, kept(rt2, techs), b1, kept(rt1, techs));
    assert(flags_of(w1, items, techs) == b1 + kept(rt1, techs));
    assert(flags_of(w2, items, techs) == b2 + kept(rt2, techs));
}

/// No two strings of `v` have the same text.
pub open spec fn texts_distinct(v: Seq<String>) -> bool {
    forall|i: int, j: int| 0 <= i < j < v.len() ==> (#[trigger] v[i])@ != (#[trigger] v[j])@
}

proof fn lemma_distinct_bounded(v: Seq<String>, hs: Seq<Helper>)
    requires
        texts_distinct(v),
        forall|i: int| 0 <= i < v.len() ==> flag_names(hs).contains((#[trigger] v[i])@),
    ensures
        v.len() <= hs.len(),
{
    let t = v.map_values(|s: String| s@);
    assert(t.no_duplicates()) by {
        assert forall|i: int, j: int| 0 <= i < t.len() && 0 <= j < t.len() && i != j implies t[i] != t[j] by {
            if i < j {
                assert(v[i]@ != v[j]@);
            } else {
                assert(v[j]@ != v[i]@);
            }
        }
    }
    t.unique_seq_to_set();
    assert(t.to_set().subset_of(flag_names(hs).to_set())) by {
        assert forall|x: Seq<char>| t.to_set().contains(x) implies flag_names(hs).to_set().contains(x) by {
            let i = choose|i: int| 0 <= i < t.len() && t[i] == x;
            assert(flag_names(hs).contains(v[i]@));
        }
    }
    flag_names(hs).lemma_cardinality_of_set();
    vstd::set_lib::lemma_len_subset(t.to_set(), flag_names(hs).to_set());
}

/// Appends `b` to a copy of `a`.
fn joined(a: &Vec<String>, b: &Vec<String>) -> (r: Vec<String>)
    ensures
        r@ == a@ + b@,
{
    let mut r: Vec<String> = Vec::new();
    let mut i: usize = 0;
    while i < a.len()
        invariant
            0 <= i <= a.len(),
            r@ == a@.subrange(0, i as int),
        decreases a.len() - i,
    {
        r.push(a[i].clone());
        assert(a@.subrange(0, i + 1) =~= a@.subrange(0, i as int).push(a@[i as int]));
        i += 1;
    }
    let mut j: usize = 0;
    while j < b.len()
        invariant
            0 <= j <= b.len(),
            r@ == a@ + b@.subrange(0, j as int),
        decreases b.len() - j,
    {
        r.push(b[j].clone());
        assert(b@.subrange(0, j + 1) =~= b@.subrange(0, j as int).push(b@[j as int]));
        assert(a@ + b@.subrange(0, j + 1) =~= (a@ + b@.subrange(0, j as int)).push(b@[j as int]));
        j += 1;
    }
    assert(a@.subrange(0, a@.len() as int) =~= a@);
    assert(b@.subrange(0, b@.len() as int) =~= b@);
    r
}

impl World {
    /// The abilities held with the items `items` and the techs `techs`: the
    /// items, every helper they resolve, and the requested techs that resolve.
    pub fn get_flags(&self, items: &Vec<String>, techs: &Vec<String>) -> (r: Vec<String>)
        ensures
            r@ == flags_of(*self, items@, techs@),
            closed(self.helpers@, items@, *self, resolved(self.helpers@, items@, *self)),
            closed(self.techs@, items@ + resolved(self.helpers@, items@, *self), *self,
                resolved(self.techs@, items@ + resolved(self.helpers@, items@, *self), *self)),
    {
        let active_helpers = self.resolve_helpers(items);
        let active_techs = self.resolve_techs(items, &active_helpers, techs);
        let first = joined(items, &active_helpers);
        let r = joined(&first, &active_techs);
        r
    }

    /// The names of the world's item nodes, in order; `None` when there are none.
    pub fn get_item_locations(&self) -> (r: Option<Vec<String>>)
        ensures
            match r {
                Some(v) => v@ == item_names(self.regions@) && v@.len() > 0,
                None => item_names(self.regions@).len() == 0,
            },
    {
        let mut out: Vec<String> = Vec::new();
        let mut i: usize = 0;
        assert(self.regions@.subrange(0, 0) =~= Seq::<Region>::empty());
        while i < self.regions.len()
            invariant
                0 <= i <= self.regions.len(),
                out@ == item_names(self.regions@.subrange(0, i as int)),
            decreases self.regions.len() - i,
        {
            let nodes = &self.regions[i].nodes;
            let ghost prefix = out@;
            let mut k: usize = 0;
            assert(nodes@.subrange(0, 0) =~= Seq::<Node>::empty());
            while k < nodes.len()
                invariant
                    0 <= i < self.regions.len(),
                    *nodes == self.regions@[i as int].nodes,
                    0 <= k <= nodes.len(),
                    prefix == item_names(self.regions@.subrange(0, i as int)),
                    out@ == prefix + node_item_names(nodes@.subrange(0, k as int)),
                decreases nodes.len() - k,
            {
                assert(nodes@.subrange(0, k + 1).drop_last() =~= nodes@.subrange(0, k as int));
                assert(nodes@.subrange(0, k + 1).last() == nodes@[k as int]);
                if matches!(nodes[k].node_type, Some(NodeType::Item)) {
                    out.push(nodes[k].name.clone());
                    assert(out@ =~= prefix + node_item_names(nodes@.subrange(0, k + 1)));
                }
                k += 1;
            }
            assert(nodes@.subrange(0, nodes@.len() as int) =~= nodes@);
            assert(self.regions@.subrange(0, i + 1).drop_last() =~= self.regions@.subrange(0, i as int));
            assert(self.regions@.subrange(0, i + 1).last() == self.regions@[i as int]);
            i += 1;
        }
        assert(self.regions@.subrange(0, self.regions@.len() as int) =~= self.regions@);
        if out.len() > 0 {
            Some(out)
        } else {
            None
        }
    }

    /// The helpers that resolve from the items `items`.
    fn resolve_helpers(&self, items: &Vec<String>) -> (r: Vec<String>)
        ensures
            r@ == resolved(self.helpers@, items@, *self),
            closed(self.helpers@, items@, *self, r@),
    {
        self.resolve_flags(&self.helpers, items)
    }

    /// The requested techs `techs` that resolve from the items `items` and
    /// the resolved helpers `helpers`.
    fn resolve_techs(&self, items: &Vec<String>, helpers: &Vec<String>, techs: &Vec<String>) -> (r: Vec<String>)
        ensures
            r@ == kept(resolved(self.techs@, items@ + helpers@, *self), techs@),
            closed(self.techs@, items@ + helpers@, *self, resolved(self.techs@, items@ + helpers@, *self)),
    {
        let base = joined(items, helpers);
        let hs = self.resolve_flags(&self.techs, &base);
        let mut out: Vec<String> = Vec::new();
        let mut i: usize = 0;
        assert(hs@.subrange(0, 0) =~= Seq::<String>::empty());
        while i < hs.len()
            invariant
                0 <= i <= hs.len(),
                out@ == kept(hs@.subrange(0, i as int), techs@),
            decreases hs.len() - i,
        {
            assert(hs@.subrange(0, i + 1).drop_last() =~= hs@.subrange(0, i as int));
            assert(hs@.subrange(0, i + 1).last() == hs@[i as int]);
            if contains_str(techs, &hs[i]) {
                out.push(hs[i].clone());
            }
            i += 1;
        }
        assert(hs@.subrange(0, hs@.len() as int) =~= hs@);
        out
    }

    /// Sweeps the flags `hs` until a sweep adds none.
    fn resolve_flags(&self, hs: &Vec<Helper>, base: &Vec<String>) -> (r: Vec<String>)
        ensures
            r@ == resolved(hs@, base@, *self),
            closed(hs@, base@, *self, r@),
    {
        let state = State::new(0, 0);
        let mut acc: Vec<String> = Vec::new();
        let ghost mut fuel: nat = (hs@.len() + 1) as nat;
        let mut done = false;
        while !done
            invariant
                texts_distinct(acc@),
                forall|i: int| 0 <= i < acc@.len() ==> flag_names(hs@).contains((#[trigger] acc@[i])@),
                state.events@ == Seq::<String>::empty(),
                !done ==> resolved(hs@, base@, *self) == closure(hs@, base@, *self, acc@, fuel),
                !done ==> fuel >= hs@.len() - acc@.len() + 1,
                done ==> acc@ == resolved(hs@, base@, *self),
                done ==> closed(hs@, base@, *self, acc@),
            decreases fuel, if done { 0int } else { 1int },
        {
            proof {
                lemma_distinct_bounded(acc@, hs@);
            }
            let ghost start = acc@;
            let start_len = acc.len();
            let mut i: usize = 0;
            while i < hs.len()
                invariant
                    0 <= i <= hs.len(),
                    state.events@ == Seq::<String>::empty(),
                    acc@ == sweep(hs@, i as int, base@, *self, start),
                decreases hs.len() - i,
            {
                let h = &hs[i];
                let ok = match &h.requires {
                    Some(req) => {
                        let items = joined(base, &acc);
                        req.check(&items, self, &state)
                    },
                    None => true,
                };
                if ok && !contains_str(&acc, &h.name) {
                    acc.push(h.name.clone());
                }
                i += 1;
            }
            proof {
                lemma_sweep_grows(hs@, hs@.len() as int, base@, *self, start);
                assert forall|i: int| 0 <= i < acc@.len() implies flag_names(hs@).contains((#[trigger] acc@[i])@) by {
                    if i < start.len() {
                        assert(acc@[i] == acc@.subrange(0, start.len() as int)[i]);
                    }
                }
            }
            if acc.len() == start_len {
                proof {
                    lemma_sweep_stable(hs@, hs@.len() as int, base@, *self, start);
                }
                done = true;
            } else {
                proof {
                    lemma_distinct_bounded(acc@, hs@);
                    fuel = (fuel - 1) as nat;
                }
            }
        }
        acc
    }
}

} // verus!
