//! The causal DAG: a history `H = (E, ≺, λ)` of events keyed by identifier.
//!
//! Events are kept in a vector sorted by key, so iteration follows the
//! identifiers' `str` order and the view (a map from key to event) determines
//! the representation.

use vstd::prelude::*;
use crate::ids::{EventId, sorted_of, lemma_sorted_of, IdSet, ids_view, strictly_sorted, lemma_sorted_no_duplicates, lemma_sorted_insert, lemma_push_to_set, search_sorted};
use crate::event::{Event, EventView};

verus! {

/// `p` is a parent of the event stored under `c`.
pub open spec fn parent_of(m: Map<Seq<char>, EventView>, p: Seq<char>, c: Seq<char>) -> bool {
    m.contains_key(c) && m[c].parents.contains(p)
}

/// The keys of the events that name `p` as a parent.
pub open spec fn children_set(m: Map<Seq<char>, EventView>, p: Seq<char>) -> Set<Seq<char>> {
    Set::new(|c: Seq<char>| parent_of(m, p, c))
}

/// Every identifier named as a parent by some event.
pub open spec fn parent_ids(m: Map<Seq<char>, EventView>) -> Set<Seq<char>> {
    Set::new(|p: Seq<char>| exists|c: Seq<char>| parent_of(m, p, c))
}

/// The tips: events that no event names as a parent.
pub open spec fn frontier_set(m: Map<Seq<char>, EventView>) -> Set<Seq<char>> {
    Set::new(|k: Seq<char>| m.contains_key(k) && !parent_ids(m).contains(k))
}

/// Parents named by some event but absent from the DAG.
pub open spec fn missing_set(m: Map<Seq<char>, EventView>) -> Set<Seq<char>> {
    Set::new(|p: Seq<char>| parent_ids(m).contains(p) && !m.contains_key(p))
}

/// Every parent of every event is present.
pub open spec fn causally_closed(m: Map<Seq<char>, EventView>) -> bool {
    forall|p: Seq<char>, c: Seq<char>| #[trigger] parent_of(m, p, c) ==> m.contains_key(p)
}

/// Every event is stored under its own identifier.
pub open spec fn keyed_by_id(m: Map<Seq<char>, EventView>) -> bool {
    forall|k: Seq<char>| #[trigger] m.contains_key(k) ==> m[k].id == k
}

/// Inserting one event: a key already present is left as it is.
pub open spec fn insert_event(m: Map<Seq<char>, EventView>, e: EventView) -> Map<Seq<char>, EventView> {
    if m.contains_key(e.id) {
        m
    } else {
        m.insert(e.id, e)
    }
}

/// Inserting events one after the other.
pub open spec fn insert_events(m: Map<Seq<char>, EventView>, es: Seq<EventView>) -> Map<Seq<char>, EventView>
    decreases es.len(),
{
    if es.len() == 0 {
        m
    } else {
        insert_event(insert_events(m, es.drop_last()), es.last())
    }
}

/// One step from `u` to its parent `v`, taken only from a present event in
/// `through`.
pub open spec fn step(m: Map<Seq<char>, EventView>, through: Set<Seq<char>>, u: Seq<char>, v: Seq<char>) -> bool {
    through.contains(u) && parent_of(m, v, u)
}

/// The `i`-th link of `p` is a step.
pub open spec fn link(m: Map<Seq<char>, EventView>, through: Set<Seq<char>>, p: Seq<Seq<char>>, i: int) -> bool {
    step(m, through, p[i], p[i + 1])
}

/// A path of one or more steps.
pub open spec fn is_path(m: Map<Seq<char>, EventView>, through: Set<Seq<char>>, p: Seq<Seq<char>>) -> bool {
    &&& p.len() >= 2
    &&& forall|i: int| 0 <= i < p.len() - 1 ==> #[trigger] link(m, through, p, i)
}

/// `b` is reached from `a` by one or more steps.
pub open spec fn reaches(m: Map<Seq<char>, EventView>, through: Set<Seq<char>>, a: Seq<char>, b: Seq<char>) -> bool {
    exists|p: Seq<Seq<char>>| #[trigger] is_path(m, through, p) && p[0] == a && p.last() == b
}

/// The events steps may be taken from: all present ones, or those in `through`.
pub open spec fn allowed(m: Map<Seq<char>, EventView>, through: Set<Seq<char>>, all: bool) -> Set<Seq<char>> {
    if all {
        m.dom()
    } else {
        through
    }
}

/// The ancestors of `x`: every identifier reached from it through parent
/// links of present events.
pub open spec fn ancestor_set(m: Map<Seq<char>, EventView>, x: Seq<char>) -> Set<Seq<char>> {
    Set::new(|a: Seq<char>| reaches(m, m.dom(), x, a))
}

/// All parents of the events, in sequence order.
pub open spec fn flat_parents(es: Seq<EventView>) -> Seq<Seq<char>>
    decreases es.len(),
{
    if es.len() == 0 {
        Seq::empty()
    } else {
        flat_parents(es.drop_last()) + es.last().parents
    }
}

pub proof fn lemma_flat_parents(es: Seq<EventView>, p: Seq<char>)
    ensures
        flat_parents(es).contains(p) <==> exists|j: int|
            0 <= j < es.len() && (#[trigger] es[j]).parents.contains(p),
    decreases es.len(),
{
    if es.len() > 0 {
        lemma_flat_parents(es.drop_last(), p);
        let f = flat_parents(es.drop_last());
        let l = es.last().parents;
        if flat_parents(es).contains(p) {
            let k = choose|k: int| 0 <= k < (f + l).len() && (f + l)[k] == p;
            if k < f.len() {
                assert(f[k] == p);
                let j = choose|j: int|
                    0 <= j < es.drop_last().len() && (#[trigger] es.drop_last()[j]).parents.contains(p);
                assert(es[j] == es.drop_last()[j]);
            } else {
                assert(l[k - f.len()] == p);
                assert(es[es.len() - 1].parents.contains(p));
            }
        }
        if exists|j: int| 0 <= j < es.len() && (#[trigger] es[j]).parents.contains(p) {
            let j = choose|j: int| 0 <= j < es.len() && (#[trigger] es[j]).parents.contains(p);
            if j < es.len() - 1 {
                assert(es.drop_last()[j] == es[j]);
                assert(f.contains(p));
                let k = choose|k: int| 0 <= k < f.len() && f[k] == p;
                assert((f + l)[k] == p);
            } else {
                let k = choose|k: int| 0 <= k < l.len() && l[k] == p;
                assert((f + l)[f.len() + k] == p);
            }
        }
    }
}

pub proof fn lemma_reaches_step(m: Map<Seq<char>, EventView>, through: Set<Seq<char>>, a: Seq<char>, b: Seq<char>)
    requires
        step(m, through, a, b),
    ensures
        reaches(m, through, a, b),
{
    let p = seq![a, b];
    assert(link(m, through, p, 0));
    assert(is_path(m, through, p));
}

pub proof fn lemma_reaches_extend(
    m: Map<Seq<char>, EventView>,
    through: Set<Seq<char>>,
    a: Seq<char>,
    b: Seq<char>,
    c: Seq<char>,
)
    requires
        reaches(m, through, a, b),
        step(m, through, b, c),
    ensures
        reaches(m, through, a, c),
{
    let p = choose|p: Seq<Seq<char>>| #[trigger] is_path(m, through, p) && p[0] == a && p.last() == b;
    let q = p.push(c);
    assert forall|i: int| 0 <= i < q.len() - 1 implies #[trigger] link(m, through, q, i) by {
        if i < p.len() - 1 {
            assert(q[i] == p[i] && q[i + 1] == p[i + 1]);
            assert(link(m, through, p, i));
        }
    }
    assert(is_path(m, through, q));
}

/// Causal precedence is transitive: an ancestor of an ancestor of `c` is an
/// ancestor of `c`.
pub proof fn lemma_precedes_transitive(m: Map<Seq<char>, EventView>, a: Seq<char>, b: Seq<char>, c: Seq<char>)
    requires
        ancestor_set(m, c).contains(b),
        ancestor_set(m, b).contains(a),
    ensures
        ancestor_set(m, c).contains(a),
{
    let r = ancestor_set(m, c);
    assert forall|v: Seq<char>| #[trigger] step(m, m.dom(), b, v) implies r.contains(v) by {
        lemma_reaches_extend(m, m.dom(), c, b, v);
    }
    assert forall|u: Seq<char>, v: Seq<char>| r.contains(u) && #[trigger] step(m, m.dom(), u, v) implies r.contains(v) by {
        lemma_reaches_extend(m, m.dom(), c, u, v);
    }
    lemma_reach_closed(m, m.dom(), b, r);
    assert(reaches(m, m.dom(), b, a));
}

/// No event is its own ancestor.
pub open spec fn acyclic(m: Map<Seq<char>, EventView>) -> bool {
    forall|k: Seq<char>| m.contains_key(k) ==> !#[trigger] ancestor_set(m, k).contains(k)
}

/// In a causally closed history, every ancestor of an event is an event.
pub proof fn lemma_ancestors_present(m: Map<Seq<char>, EventView>, k: Seq<char>)
    requires
        causally_closed(m),
    ensures
        ancestor_set(m, k).subset_of(m.dom()),
{
    assert forall|a: Seq<char>| #[trigger] ancestor_set(m, k).contains(a) implies m.dom().contains(a) by {
        lemma_reaches_parent_ids(m, m.dom(), k, a);
        let c = choose|c: Seq<char>| parent_of(m, a, c);
    }
}

/// Law: in a causally closed, acyclic history every event has a depth.
pub proof fn lemma_closed_acyclic_depth(m: Map<Seq<char>, EventView>, k: Seq<char>)
    requires
        m.dom().finite(),
        causally_closed(m),
        acyclic(m),
        m.contains_key(k),
    ensures
        depth(m, k) is Some,
    decreases ancestor_set(m, k).len(),
{
    lemma_ancestors_present(m, k);
    vstd::set_lib::lemma_len_subset(ancestor_set(m, k), m.dom());
    assert forall|p: Seq<char>| #[trigger] m[k].parents.contains(p) implies depth(m, p) is Some by {
        assert(parent_of(m, p, k));
        assert(m.contains_key(p));
        lemma_reaches_step(m, m.dom(), k, p);
        assert(ancestor_set(m, k).contains(p));
        assert(ancestor_set(m, p).subset_of(ancestor_set(m, k))) by {
            assert forall|a: Seq<char>| #[trigger] ancestor_set(m, p).contains(a) implies ancestor_set(m, k).contains(a) by {
                lemma_precedes_transitive(m, a, p, k);
            }
        }
        assert(!ancestor_set(m, p).contains(p));
        lemma_ancestors_present(m, p);
        vstd::set_lib::lemma_len_subset(ancestor_set(m, p), m.dom());
        assert(ancestor_set(m, p).subset_of(ancestor_set(m, k).remove(p)));
        vstd::set_lib::lemma_len_subset(ancestor_set(m, p), ancestor_set(m, k).remove(p));
        lemma_closed_acyclic_depth(m, p);
    }
    lemma_depth_from_parents(m, k);
}

/// Law: in a causally closed, acyclic history the topological order lists
/// every event, and nothing else.
pub proof fn lemma_topological_order_complete(m: Map<Seq<char>, EventView>, r: Seq<Seq<char>>)
    requires
        m.dom().finite(),
        causally_closed(m),
        acyclic(m),
        is_topological_order(m, r),
    ensures
        forall|k: Seq<char>| #[trigger] r.contains(k) <==> m.contains_key(k),
        r.len() == m.len(),
{
    assert forall|k: Seq<char>| #[trigger] r.contains(k) <==> m.contains_key(k) by {
        if m.contains_key(k) {
            lemma_closed_acyclic_depth(m, k);
        }
        if r.contains(k) {
            assert(depth(m, k) is Some);
            assert(depth_within(m, k, m.len()) is Some);
        }
    }
    assert(r.to_set() =~= m.dom());
    r.unique_seq_to_set();
}

/// What is reached is named as a parent.
pub proof fn lemma_reaches_parent_ids(m: Map<Seq<char>, EventView>, through: Set<Seq<char>>, a: Seq<char>, b: Seq<char>)
    requires
        reaches(m, through, a, b),
    ensures
        parent_ids(m).contains(b),
{
    let p = choose|p: Seq<Seq<char>>| #[trigger] is_path(m, through, p) && p[0] == a && p.last() == b;
    let i = p.len() - 2;
    assert(link(m, through, p, i));
    assert(parent_of(m, b, p[i]));
}

/// A set that holds the first steps from `a` and is closed under steps holds
/// everything reached from `a`.
pub proof fn lemma_reach_closed(m: Map<Seq<char>, EventView>, through: Set<Seq<char>>, a: Seq<char>, r: Set<Seq<char>>)
    requires
        forall|v: Seq<char>| #[trigger] step(m, through, a, v) ==> r.contains(v),
        forall|u: Seq<char>, v: Seq<char>| r.contains(u) && #[trigger] step(m, through, u, v) ==> r.contains(v),
    ensures
        forall|b: Seq<char>| #[trigger] reaches(m, through, a, b) ==> r.contains(b),
{
    assert forall|b: Seq<char>| #[trigger] reaches(m, through, a, b) implies r.contains(b) by {
        let p = choose|p: Seq<Seq<char>>| #[trigger] is_path(m, through, p) && p[0] == a && p.last() == b;
        assert(link(m, through, p, 0));
        lemma_path_stays(m, through, p, r, 1);
    }
}

proof fn lemma_path_stays(m: Map<Seq<char>, EventView>, through: Set<Seq<char>>, p: Seq<Seq<char>>, r: Set<Seq<char>>, k: int)
    requires
        is_path(m, through, p),
        1 <= k <= p.len() - 1,
        r.contains(p[k]),
        forall|u: Seq<char>, v: Seq<char>| r.contains(u) && #[trigger] step(m, through, u, v) ==> r.contains(v),
    ensures
        r.contains(p.last()),
    decreases p.len() - k,
{
    if k < p.len() - 1 {
        assert(link(m, through, p, k));
        lemma_path_stays(m, through, p, r, k + 1);
    }
}

/// The nearest surviving identifiers behind `p`: where `p` is a present
/// tombstone, everything reached from it through present tombstones that is not
/// itself a present tombstone; otherwise `p` itself.
pub open spec fn resolved_set(m: Map<Seq<char>, EventView>, t: Set<Seq<char>>, p: Seq<char>) -> Set<Seq<char>> {
    if t.contains(p) && m.contains_key(p) {
        Set::new(|r: Seq<char>| reaches(m, t, p, r) && !(t.contains(r) && m.contains_key(r)))
    } else {
        set![p]
    }
}

/// A parent list with every tombstone replaced by its resolution.
pub open spec fn rewired_parents(m: Map<Seq<char>, EventView>, t: Set<Seq<char>>, ps: Seq<Seq<char>>) -> Set<Seq<char>> {
    Set::new(|r: Seq<char>| exists|i: int| 0 <= i < ps.len() && resolved_set(m, t, #[trigger] ps[i]).contains(r))
}

/// An event whose parents are rewired around the tombstones; identifier,
/// payload and caches are kept.
pub open spec fn rewired(m: Map<Seq<char>, EventView>, t: Set<Seq<char>>, e: EventView) -> EventView {
    EventView { parents: sorted_of(rewired_parents(m, t, e.parents)), ..e }
}

/// The DAG after removing the tombstones `t`: unchanged where none of them is
/// present; otherwise the events outside `t`, each with its parents rewired.
pub open spec fn compacted(m: Map<Seq<char>, EventView>, t: Set<Seq<char>>) -> Map<Seq<char>, EventView> {
    if forall|k: Seq<char>| #[trigger] t.contains(k) ==> !m.contains_key(k) {
        m
    } else {
        Map::new(|k: Seq<char>| m.contains_key(k) && !t.contains(k), |k: Seq<char>| rewired(m, t, m[k]))
    }
}

/// The depth of `k` found with at most `fuel` rounds: 0 for an event without
/// parents, one more than its deepest parent otherwise; `None` where `k` is
/// absent or some ancestor is missing (or on a cycle) within the fuel.
pub open spec fn depth_within(m: Map<Seq<char>, EventView>, k: Seq<char>, fuel: nat) -> Option<nat>
    decreases fuel, 1nat, 0nat,
{
    if fuel == 0 || !m.contains_key(k) {
        None
    } else {
        match parents_depth(m, m[k].parents, (fuel - 1) as nat) {
            Some(d) => Some(
                if m[k].parents.len() == 0 {
                    0
                } else {
                    d + 1
                },
            ),
            None => None,
        }
    }
}

/// The greatest depth among `ps` (0 for none), or `None` where one is
/// undefined.
pub open spec fn parents_depth(m: Map<Seq<char>, EventView>, ps: Seq<Seq<char>>, fuel: nat) -> Option<nat>
    decreases fuel + 1, 0nat, ps.len(),
{
    if ps.len() == 0 {
        Some(0)
    } else {
        match (parents_depth(m, ps.drop_last(), fuel), depth_within(m, ps.last(), fuel)) {
            (Some(a), Some(b)) => Some(
                if a >= b {
                    a
                } else {
                    b
                },
            ),
            _ => None,
        }
    }
}

/// The depth of `k`: defined exactly for the events whose every ancestor is
/// present.
pub open spec fn depth(m: Map<Seq<char>, EventView>, k: Seq<char>) -> Option<nat> {
    depth_within(m, k, m.len())
}

/// `a` comes before `b`: lower depth first, then `str` order.
pub open spec fn topo_before(m: Map<Seq<char>, EventView>, a: Seq<char>, b: Seq<char>) -> bool {
    ||| depth(m, a).unwrap() < depth(m, b).unwrap()
    ||| depth(m, a).unwrap() == depth(m, b).unwrap() && crate::ids::id_lt(a, b)
}

/// The topological order: every event of defined depth exactly once, sorted
/// by depth, then by identifier.
pub open spec fn is_topological_order(m: Map<Seq<char>, EventView>, r: Seq<Seq<char>>) -> bool {
    &&& r.no_duplicates()
    &&& forall|k: Seq<char>| r.contains(k) <==> depth(m, k) is Some
    &&& forall|i: int, j: int| 0 <= i < j < r.len() ==> topo_before(m, #[trigger] r[i], #[trigger] r[j])
}

pub proof fn lemma_depth_bound(m: Map<Seq<char>, EventView>, k: Seq<char>, fuel: nat)
    ensures
        depth_within(m, k, fuel) matches Some(d) ==> d < fuel,
    decreases fuel, 1nat, 0nat,
{
    if fuel > 0 && m.contains_key(k) {
        lemma_parents_depth_bound(m, m[k].parents, (fuel - 1) as nat);
    }
}

pub proof fn lemma_parents_depth_bound(m: Map<Seq<char>, EventView>, ps: Seq<Seq<char>>, fuel: nat)
    ensures
        parents_depth(m, ps, fuel) matches Some(d) ==> (ps.len() == 0 && d == 0) || d < fuel,
    decreases fuel + 1, 0nat, ps.len(),
{
    if ps.len() > 0 {
        lemma_parents_depth_bound(m, ps.drop_last(), fuel);
        lemma_depth_bound(m, ps.last(), fuel);
    }
}

/// Depths computed with equal values at two fuels agree one round later.
pub proof fn lemma_parents_depth_congruent(m: Map<Seq<char>, EventView>, ps: Seq<Seq<char>>, f1: nat, f2: nat)
    requires
        forall|p: Seq<char>| #[trigger] depth_within(m, p, f1) == depth_within(m, p, f2),
    ensures
        parents_depth(m, ps, f1) == parents_depth(m, ps, f2),
    decreases ps.len(),
{
    if ps.len() > 0 {
        lemma_parents_depth_congruent(m, ps.drop_last(), f1, f2);
        assert(depth_within(m, ps.last(), f1) == depth_within(m, ps.last(), f2));
    }
}

/// Once a round changes no depth, no later round does.
pub proof fn lemma_depth_stable(m: Map<Seq<char>, EventView>, r: nat, j: nat)
    requires
        forall|k: Seq<char>| #[trigger] depth_within(m, k, r) == depth_within(m, k, r + 1),
        j >= r,
    ensures
        forall|k: Seq<char>| #[trigger] depth_within(m, k, j) == depth_within(m, k, r),
    decreases j,
{
    if j > r {
        lemma_depth_stable(m, r, (j - 1) as nat);
        assert forall|k: Seq<char>| #[trigger] depth_within(m, k, j) == depth_within(m, k, r) by {
            if m.contains_key(k) {
                lemma_parents_depth_congruent(m, m[k].parents, (j - 1) as nat, r);
                assert(depth_within(m, k, j) == depth_within(m, k, r + 1));
            }
        }
    }
}

pub proof fn lemma_depth_mono(m: Map<Seq<char>, EventView>, k: Seq<char>, f: nat)
    ensures
        depth_within(m, k, f) is Some ==> depth_within(m, k, f + 1) == depth_within(m, k, f),
    decreases f, 1nat, 0nat,
{
    if f > 0 && m.contains_key(k) {
        lemma_parents_depth_mono(m, m[k].parents, (f - 1) as nat);
    }
}

pub proof fn lemma_parents_depth_mono(m: Map<Seq<char>, EventView>, ps: Seq<Seq<char>>, f: nat)
    ensures
        parents_depth(m, ps, f) is Some ==> parents_depth(m, ps, f + 1) == parents_depth(m, ps, f),
    decreases f + 1, 0nat, ps.len(),
{
    if ps.len() > 0 {
        lemma_parents_depth_mono(m, ps.drop_last(), f);
        lemma_depth_mono(m, ps.last(), f);
    }
}

/// Each of `ps` has a depth no greater than their greatest depth.
pub proof fn lemma_parents_depth_each(m: Map<Seq<char>, EventView>, ps: Seq<Seq<char>>, f: nat, i: int)
    requires
        parents_depth(m, ps, f) is Some,
        0 <= i < ps.len(),
    ensures
        depth_within(m, ps[i], f) is Some,
        depth_within(m, ps[i], f).unwrap() <= parents_depth(m, ps, f).unwrap(),
    decreases ps.len(),
{
    if i < ps.len() - 1 {
        assert(ps.drop_last()[i] == ps[i]);
        lemma_parents_depth_each(m, ps.drop_last(), f, i);
    }
}

/// A depth found with some fuel is found, the same, with any fuel above it.
pub proof fn lemma_depth_min_fuel(m: Map<Seq<char>, EventView>, k: Seq<char>, f: nat, g: nat)
    requires
        depth_within(m, k, f) is Some,
        g >= depth_within(m, k, f).unwrap() + 1,
    ensures
        depth_within(m, k, g) == depth_within(m, k, f),
    decreases f, 1nat, 0nat,
{
    let ps = m[k].parents;
    let pd = parents_depth(m, ps, (f - 1) as nat);
    lemma_parents_depth_bound(m, ps, (f - 1) as nat);
    if ps.len() > 0 {
        lemma_parents_depth_min_fuel(m, ps, (f - 1) as nat, (g - 1) as nat);
    } else {
        assert(parents_depth(m, ps, (g - 1) as nat) == Some(0nat));
    }
}

/// The parents' depths found with some fuel are found, the same, with any
/// fuel above their greatest.
pub proof fn lemma_parents_depth_min_fuel(m: Map<Seq<char>, EventView>, ps: Seq<Seq<char>>, f: nat, g: nat)
    requires
        parents_depth(m, ps, f) is Some,
        g >= parents_depth(m, ps, f).unwrap() + 1,
    ensures
        parents_depth(m, ps, g) == parents_depth(m, ps, f),
    decreases f + 1, 0nat, ps.len(),
{
    if ps.len() > 0 {
        lemma_parents_depth_min_fuel(m, ps.drop_last(), f, g);
        lemma_depth_min_fuel(m, ps.last(), f, g);
    }
}

/// Where every one of `ps` has a depth with fuel `g`, so do they together,
/// and their greatest bounds each.
pub proof fn lemma_parents_depth_some(m: Map<Seq<char>, EventView>, ps: Seq<Seq<char>>, g: nat)
    requires
        forall|i: int| 0 <= i < ps.len() ==> #[trigger] depth_within(m, ps[i], g) is Some,
    ensures
        parents_depth(m, ps, g) is Some,
        forall|i: int| 0 <= i < ps.len() ==> #[trigger] depth_within(m, ps[i], g).unwrap() <= parents_depth(m, ps, g).unwrap(),
    decreases ps.len(),
{
    if ps.len() > 0 {
        let p = ps.drop_last();
        assert forall|i: int| 0 <= i < p.len() implies #[trigger] depth_within(m, p[i], g) is Some by {
            assert(p[i] == ps[i]);
        }
        lemma_parents_depth_some(m, p, g);
        assert(depth_within(m, ps[ps.len() - 1], g) is Some);
        assert forall|i: int| 0 <= i < ps.len() implies #[trigger] depth_within(m, ps[i], g).unwrap() <= parents_depth(m, ps, g).unwrap() by {
            if i < p.len() {
                assert(p[i] == ps[i]);
            }
        }
    }
}

/// Some one of a non-empty `ps` has the greatest depth.
pub proof fn lemma_parents_depth_argmax(m: Map<Seq<char>, EventView>, ps: Seq<Seq<char>>, f: nat)
    requires
        parents_depth(m, ps, f) is Some,
        ps.len() > 0,
    ensures
        exists|i: int| 0 <= i < ps.len() && #[trigger] depth_within(m, ps[i], f) == parents_depth(m, ps, f),
    decreases ps.len(),
{
    let p = ps.drop_last();
    let last = ps[ps.len() - 1];
    assert(ps.last() == last);
    if p.len() == 0 {
        assert(depth_within(m, ps[0], f) == parents_depth(m, ps, f));
    } else {
        lemma_parents_depth_argmax(m, p, f);
        let i = choose|i: int| 0 <= i < p.len() && #[trigger] depth_within(m, p[i], f) == parents_depth(m, p, f);
        assert(p[i] == ps[i]);
        if depth_within(m, last, f) == parents_depth(m, ps, f) {
            assert(depth_within(m, ps[ps.len() - 1], f) == parents_depth(m, ps, f));
        } else {
            assert(depth_within(m, ps[i], f) == parents_depth(m, ps, f));
        }
    }
}

/// An event of depth `d` heads a chain of `d + 1` present events, each a
/// parent of the one before, with depths `d`, `d - 1`, ..., `0`.
pub proof fn lemma_depth_chain(m: Map<Seq<char>, EventView>, k: Seq<char>) -> (c: Seq<Seq<char>>)
    requires
        depth(m, k) is Some,
    ensures
        c.len() == depth(m, k).unwrap() + 1,
        c[0] == k,
        forall|i: int| 0 <= i < c.len() ==> m.contains_key(#[trigger] c[i]) && depth(m, c[i]) == Some(
            (depth(m, k).unwrap() - i) as nat,
        ),
        c.no_duplicates(),
    decreases depth(m, k).unwrap(),
{
    let n = m.len();
    let d = depth(m, k).unwrap();
    let ps = m[k].parents;
    if d == 0 {
        let c = seq![k];
        c
    } else {
        assert(ps.len() > 0);
        lemma_parents_depth_argmax(m, ps, (n - 1) as nat);
        let i = choose|i: int| 0 <= i < ps.len() && #[trigger] depth_within(m, ps[i], (n - 1) as nat) == parents_depth(
            m,
            ps,
            (n - 1) as nat,
        );
        let p = ps[i];
        lemma_depth_mono(m, p, (n - 1) as nat);
        assert(depth(m, p) == Some((d - 1) as nat));
        let t = lemma_depth_chain(m, p);
        let c = seq![k] + t;
        assert forall|j: int| 0 <= j < c.len() implies m.contains_key(#[trigger] c[j]) && depth(m, c[j]) == Some(
            (d - j) as nat,
        ) by {
            if j > 0 {
                assert(c[j] == t[j - 1]);
            }
        }
        assert forall|a: int, b: int| 0 <= a < c.len() && 0 <= b < c.len() && a != b implies c[a] != c[b] by {
            assert(depth(m, c[a]) == Some((d - a) as nat));
            assert(depth(m, c[b]) == Some((d - b) as nat));
        }
        c
    }
}

/// An event whose parents all have a depth has one too.
pub proof fn lemma_depth_from_parents(m: Map<Seq<char>, EventView>, k: Seq<char>)
    requires
        m.dom().finite(),
        m.contains_key(k),
        forall|p: Seq<char>| #[trigger] m[k].parents.contains(p) ==> depth(m, p) is Some,
    ensures
        depth(m, k) is Some,
{
    let n = m.len();
    let ps = m[k].parents;
    assert(m.dom().contains(k));
    assert(n >= 1) by {
        if n == 0 {
            assert(m.dom() =~= Set::empty());
        }
    }
    if ps.len() == 0 {
        assert(parents_depth(m, ps, (n - 1) as nat) == Some(0nat));
    } else {
        assert forall|i: int| 0 <= i < ps.len() implies #[trigger] depth_within(m, ps[i], n) is Some by {
            assert(ps.contains(ps[i]));
        }
        lemma_parents_depth_some(m, ps, n);
        lemma_parents_depth_argmax(m, ps, n);
        let i = choose|i: int| 0 <= i < ps.len() && #[trigger] depth_within(m, ps[i], n) == parents_depth(m, ps, n);
        let top = ps[i];
        let dmax = parents_depth(m, ps, n).unwrap();
        assert(ps.contains(top));
        let c = lemma_depth_chain(m, top);
        if c.contains(k) {
            let j = choose|j: int| 0 <= j < c.len() && c[j] == k;
            assert(depth(m, c[j]) is Some);
        } else {
            // the chain and `k` are dmax + 2 distinct present events
            let s = c.to_set().insert(k);
            c.unique_seq_to_set();
            assert(s.subset_of(m.dom())) by {
                assert forall|x: Seq<char>| s.contains(x) implies m.dom().contains(x) by {
                    if x != k {
                        let j = choose|j: int| 0 <= j < c.len() && c[j] == x;
                        assert(m.contains_key(c[j]));
                    }
                }
            }
            vstd::set_lib::lemma_len_subset(s, m.dom());
            assert(dmax + 2 <= n);
            assert forall|q: int| 0 <= q < ps.len() implies #[trigger] depth_within(m, ps[q], (n - 1) as nat) == depth_within(
                m,
                ps[q],
                n,
            ) by {
                lemma_depth_min_fuel(m, ps[q], n, (n - 1) as nat);
            }
            assert forall|q: int| 0 <= q < ps.len() implies #[trigger] depth_within(m, ps[q], (n - 1) as nat) is Some by {
                assert(depth_within(m, ps[q], (n - 1) as nat) == depth_within(m, ps[q], n));
            }
            lemma_parents_depth_some(m, ps, (n - 1) as nat);
        }
    }
}

proof fn lemma_deepest_exists(m: Map<Seq<char>, EventView>, s: Set<Seq<char>>)
    requires
        s.finite(),
        s.len() > 0,
        forall|x: Seq<char>| #[trigger] s.contains(x) ==> depth(m, x) is Some,
    ensures
        exists|x: Seq<char>| s.contains(x) && forall|y: Seq<char>| #[trigger] s.contains(y) ==> depth(m, y).unwrap()
            <= depth(m, x).unwrap(),
    decreases s.len(),
{
    let a = s.choose();
    assert(s.contains(a));
    let r = s.remove(a);
    if r.len() == 0 {
        assert forall|y: Seq<char>| #[trigger] s.contains(y) implies depth(m, y).unwrap() <= depth(m, a).unwrap() by {
            if y != a {
                assert(r.contains(y));
            }
        }
    } else {
        lemma_deepest_exists(m, r);
        let b = choose|x: Seq<char>| r.contains(x) && forall|y: Seq<char>| #[trigger] r.contains(y) ==> depth(m, y).unwrap()
            <= depth(m, x).unwrap();
        if depth(m, a).unwrap() >= depth(m, b).unwrap() {
            assert forall|y: Seq<char>| #[trigger] s.contains(y) implies depth(m, y).unwrap() <= depth(m, a).unwrap() by {
                if y != a {
                    assert(r.contains(y));
                }
            }
        } else {
            assert forall|y: Seq<char>| #[trigger] s.contains(y) implies depth(m, y).unwrap() <= depth(m, b).unwrap() by {
                if y != a {
                    assert(r.contains(y));
                }
            }
        }
    }
}

/// A finite set of events of defined depth can be listed by increasing
/// depth.
pub proof fn lemma_depth_sorted_listing(m: Map<Seq<char>, EventView>, s: Set<Seq<char>>) -> (l: Seq<Seq<char>>)
    requires
        s.finite(),
        forall|x: Seq<char>| #[trigger] s.contains(x) ==> depth(m, x) is Some,
    ensures
        l.to_set() == s,
        forall|i: int, j: int| 0 <= i < j < l.len() ==> depth(m, #[trigger] l[i]).unwrap() <= depth(m, #[trigger] l[j]).unwrap(),
    decreases s.len(),
{
    if s.len() == 0 {
        let l = Seq::<Seq<char>>::empty();
        assert(s =~= Set::empty());
        assert(l.to_set() =~= s);
        l
    } else {
        lemma_deepest_exists(m, s);
        let x = choose|x: Seq<char>| s.contains(x) && forall|y: Seq<char>| #[trigger] s.contains(y) ==> depth(m, y).unwrap()
            <= depth(m, x).unwrap();
        let r = s.remove(x);
        let t = lemma_depth_sorted_listing(m, r);
        let l = t.push(x);
        crate::ids::lemma_push_to_set(t, x);
        assert(l.to_set() =~= s);
        assert forall|i: int, j: int| 0 <= i < j < l.len() implies depth(m, #[trigger] l[i]).unwrap() <= depth(m, #[trigger] l[j]).unwrap() by {
            if j == t.len() {
                assert(t.to_set().contains(t[i]));
                assert(s.contains(l[i]));
            } else {
                assert(l[i] == t[i] && l[j] == t[j]);
            }
        }
        l
    }
}

/// A parent of an event of defined depth has a smaller defined depth.
pub proof fn lemma_depth_parent(m: Map<Seq<char>, EventView>, k: Seq<char>, p: Seq<char>)
    requires
        depth(m, k) is Some,
        m[k].parents.contains(p),
    ensures
        depth(m, p) is Some,
        depth(m, p).unwrap() < depth(m, k).unwrap(),
{
    let n = m.len();
    let ps = m[k].parents;
    let i = choose|i: int| 0 <= i < ps.len() && ps[i] == p;
    lemma_parents_depth_each(m, ps, (n - 1) as nat, i);
    lemma_depth_mono(m, p, (n - 1) as nat);
}

/// Law: a topological order lists every parent of a listed event, and lists
/// it earlier.
pub proof fn lemma_topological_order_parents_first(m: Map<Seq<char>, EventView>, r: Seq<Seq<char>>, i: int, p: Seq<char>)
    requires
        is_topological_order(m, r),
        0 <= i < r.len(),
        m[r[i]].parents.contains(p),
    ensures
        exists|j: int| 0 <= j < i && r[j] == p,
{
    assert(r.contains(r[i]));
    lemma_depth_parent(m, r[i], p);
    assert(r.contains(p));
    let j = choose|j: int| 0 <= j < r.len() && r[j] == p;
    if j >= i {
        if j == i {
        } else {
            assert(topo_before(m, r[i], r[j]));
        }
    }
}

/// The union of two DAGs; where both hold a key, the first one's event is
/// kept.
pub open spec fn union_pref(a: Map<Seq<char>, EventView>, b: Map<Seq<char>, EventView>) -> Map<Seq<char>, EventView> {
    Map::new(
        |k: Seq<char>| a.contains_key(k) || b.contains_key(k),
        |k: Seq<char>|
            if a.contains_key(k) {
                a[k]
            } else {
                b[k]
            },
    )
}

/// Inserting events with distinct identifiers adds each one under its
/// identifier unless that key is taken.
pub proof fn lemma_insert_events_distinct(a: Map<Seq<char>, EventView>, es: Seq<EventView>)
    requires
        forall|i: int, j: int| 0 <= i < j < es.len() ==> (#[trigger] es[i]).id != (#[trigger] es[j]).id,
    ensures
        forall|k: Seq<char>| #[trigger] insert_events(a, es).contains_key(k) <==> a.contains_key(k) || exists|j: int|
            0 <= j < es.len() && es[j].id == k,
        forall|k: Seq<char>| #[trigger] a.contains_key(k) ==> insert_events(a, es)[k] == a[k],
        forall|j: int| 0 <= j < es.len() && !a.contains_key(#[trigger] es[j].id) ==> insert_events(a, es)[es[j].id] == es[j],
    decreases es.len(),
{
    if es.len() > 0 {
        let p = es.drop_last();
        assert forall|i: int, j: int| 0 <= i < j < p.len() implies (#[trigger] p[i]).id != (#[trigger] p[j]).id by {
            assert(p[i] == es[i] && p[j] == es[j]);
        }
        lemma_insert_events_distinct(a, p);
        let l = es.last();
        let prev = insert_events(a, p);
        assert forall|k: Seq<char>| #[trigger] insert_events(a, es).contains_key(k) <==> a.contains_key(k) || exists|j: int|
            0 <= j < es.len() && es[j].id == k by {
            if exists|j: int| 0 <= j < es.len() && es[j].id == k {
                let j = choose|j: int| 0 <= j < es.len() && es[j].id == k;
                if j < p.len() {
                    assert(p[j].id == k);
                }
            }
            if exists|j: int| 0 <= j < p.len() && p[j].id == k {
                let j = choose|j: int| 0 <= j < p.len() && p[j].id == k;
                assert(es[j].id == k);
            }
        }
        assert forall|j: int| 0 <= j < es.len() && !a.contains_key(#[trigger] es[j].id) implies insert_events(
            a,
            es,
        )[es[j].id] == es[j] by {
            if j < p.len() {
                assert(p[j] == es[j]);
                assert(es[j].id != l.id);
            } else {
                assert(es[j] == l);
                if prev.contains_key(l.id) {
                    let q = choose|q: int| 0 <= q < p.len() && p[q].id == l.id;
                    assert(es[q].id == es[es.len() - 1].id);
                }
            }
        }
    }
}

/// Adding the events of a DAG keyed by identifier is the union in which the
/// first DAG wins.
pub proof fn lemma_union_keyed(a: Map<Seq<char>, EventView>, b: &CausalDag)
    requires
        b.wf(),
    ensures
        insert_events(a, b.events_view()) == union_pref(a, b@),
{
    b.lemma_view();
    let ks = b.keys_view();
    let es = b.events_view();
    lemma_sorted_no_duplicates(ks);
    assert forall|i: int| 0 <= i < es.len() implies (#[trigger] es[i]).id == ks[i] by {
        assert(ks.to_set().contains(ks[i]));
        assert(b@[ks[i]] == es[i]);
    }
    assert forall|i: int, j: int| 0 <= i < j < es.len() implies (#[trigger] es[i]).id != (#[trigger] es[j]).id by {
        assert(es[i].id == ks[i] && es[j].id == ks[j]);
    }
    lemma_insert_events_distinct(a, es);
    let u = insert_events(a, es);
    let t = union_pref(a, b@);
    assert forall|k: Seq<char>| #[trigger] u.contains_key(k) <==> t.contains_key(k) by {
        if b@.contains_key(k) {
            assert(ks.to_set().contains(k));
            let j = choose|j: int| 0 <= j < ks.len() && ks[j] == k;
            assert(es[j].id == k);
        }
        if exists|j: int| 0 <= j < es.len() && es[j].id == k {
            let j = choose|j: int| 0 <= j < es.len() && es[j].id == k;
            assert(es[j].id == ks[j]);
            assert(ks.to_set().contains(ks[j]));
        }
    }
    assert forall|k: Seq<char>| #[trigger] u.contains_key(k) implies u[k] == t[k] by {
        if !a.contains_key(k) {
            let j = choose|j: int| 0 <= j < es.len() && es[j].id == k;
            assert(es[j].id == ks[j]);
            assert(b@[ks[j]] == es[j]);
        }
    }
    assert(u =~= t);
}

/// A finite DAG names finitely many parents.
pub proof fn lemma_parent_ids_finite_map(m: Map<Seq<char>, EventView>)
    requires
        m.dom().finite(),
    ensures
        parent_ids(m).finite(),
    decreases m.dom().len(),
{
    if m.dom().len() == 0 {
        assert(parent_ids(m) =~= Set::empty()) by {
            assert forall|p: Seq<char>| !parent_ids(m).contains(p) by {
                if parent_ids(m).contains(p) {
                    let c = choose|c: Seq<char>| parent_of(m, p, c);
                    assert(m.dom().contains(c));
                }
            }
        }
    } else {
        let k = m.dom().choose();
        assert(m.dom().contains(k));
        let r = m.remove(k);
        assert(r.dom() =~= m.dom().remove(k));
        lemma_parent_ids_finite_map(r);
        let u = parent_ids(r).union(m[k].parents.to_set());
        assert forall|p: Seq<char>| parent_ids(m).contains(p) implies u.contains(p) by {
            let c = choose|c: Seq<char>| parent_of(m, p, c);
            if c != k {
                assert(parent_of(r, p, c));
            }
        }
        vstd::set_lib::lemma_len_subset(parent_ids(m), u);
        assert(parent_ids(m).subset_of(u));
    }
}

/// Removing tombstones keeps a causally closed DAG causally closed.
pub proof fn lemma_compaction_keeps_closure(m: Map<Seq<char>, EventView>, t: Set<Seq<char>>)
    requires
        m.dom().finite(),
        causally_closed(m),
    ensures
        causally_closed(compacted(m, t)),
{
    let c = compacted(m, t);
    if !(forall|k: Seq<char>| #[trigger] t.contains(k) ==> !m.contains_key(k)) {
        lemma_parent_ids_finite_map(m);
        assert forall|p: Seq<char>, k: Seq<char>| #[trigger] parent_of(c, p, k) implies c.contains_key(p) by {
            let ps = m[k].parents;
            let s = rewired_parents(m, t, ps);
            assert(s.subset_of(parent_ids(m))) by {
                assert forall|r: Seq<char>| s.contains(r) implies parent_ids(m).contains(r) by {
                    let i = choose|i: int| 0 <= i < ps.len() && resolved_set(m, t, #[trigger] ps[i]).contains(r);
                    if t.contains(ps[i]) && m.contains_key(ps[i]) {
                        lemma_reaches_parent_ids(m, t, ps[i], r);
                    } else {
                        assert(parent_of(m, ps[i], k));
                    }
                }
            }
            vstd::set_lib::lemma_len_subset(s, parent_ids(m));
            crate::ids::lemma_sorted_of_finite(s);
            assert(s.contains(p)) by {
                assert(c[k].parents.contains(p));
                let j = choose|j: int| 0 <= j < sorted_of(s).len() && sorted_of(s)[j] == p;
                assert(sorted_of(s).to_set().contains(p));
            }
            let i = choose|i: int| 0 <= i < ps.len() && resolved_set(m, t, #[trigger] ps[i]).contains(p);
            if t.contains(ps[i]) && m.contains_key(ps[i]) {
                lemma_reaches_parent_ids(m, t, ps[i], p);
                let c0 = choose|c0: Seq<char>| parent_of(m, p, c0);
                assert(m.contains_key(p));
            } else {
                assert(p == ps[i]);
                assert(parent_of(m, p, k));
                assert(m.contains_key(p));
            }
        }
    }
}

/// The topological order of the events of defined depth.
pub open spec fn topo(m: Map<Seq<char>, EventView>) -> Seq<Seq<char>> {
    choose|r: Seq<Seq<char>>| is_topological_order(m, r)
}

proof fn lemma_topo_before_asym(m: Map<Seq<char>, EventView>, a: Seq<char>, b: Seq<char>)
    ensures
        !(topo_before(m, a, b) && topo_before(m, b, a)),
{
    if depth(m, a).unwrap() == depth(m, b).unwrap() && crate::ids::id_lt(a, b) {
        crate::ids::lemma_id_lt_asym(a, b);
    }
}

proof fn lemma_drop_first_to_set<A>(s: Seq<A>)
    requires
        s.len() > 0,
        s.no_duplicates(),
    ensures
        s.drop_first().to_set() == s.to_set().remove(s[0]),
{
    assert forall|x: A| s.drop_first().to_set().contains(x) <==> s.to_set().remove(s[0]).contains(x) by {
        if s.drop_first().to_set().contains(x) {
            let i = choose|i: int| 0 <= i < s.drop_first().len() && s.drop_first()[i] == x;
            assert(s[i + 1] == x);
        }
        if s.to_set().remove(s[0]).contains(x) {
            let i = choose|i: int| 0 <= i < s.len() && s[i] == x;
            assert(i != 0);
            assert(s.drop_first()[i - 1] == x);
        }
    }
    assert(s.drop_first().to_set() =~= s.to_set().remove(s[0]));
}

proof fn lemma_topo_sorted_unique(m: Map<Seq<char>, EventView>, r1: Seq<Seq<char>>, r2: Seq<Seq<char>>)
    requires
        r1.no_duplicates(),
        r2.no_duplicates(),
        r1.to_set() == r2.to_set(),
        forall|i: int, j: int| 0 <= i < j < r1.len() ==> topo_before(m, #[trigger] r1[i], #[trigger] r1[j]),
        forall|i: int, j: int| 0 <= i < j < r2.len() ==> topo_before(m, #[trigger] r2[i], #[trigger] r2[j]),
    ensures
        r1 == r2,
    decreases r1.len(),
{
    if r1.len() == 0 {
        if r2.len() > 0 {
            assert(r2.to_set().contains(r2[0]));
        }
        assert(r1 =~= r2);
    } else {
        assert(r1.to_set().contains(r1[0]));
        assert(r2.len() > 0);
        if r1[0] != r2[0] {
            assert(r2.to_set().contains(r1[0]));
            let j = choose|j: int| 0 <= j < r2.len() && r2[j] == r1[0];
            assert(r1.to_set().contains(r2[0]));
            let i = choose|i: int| 0 <= i < r1.len() && r1[i] == r2[0];
            assert(topo_before(m, r2[0], r2[j]));
            assert(topo_before(m, r1[0], r1[i]));
            lemma_topo_before_asym(m, r1[0], r2[0]);
        }
        lemma_drop_first_to_set(r1);
        lemma_drop_first_to_set(r2);
        let t1 = r1.drop_first();
        let t2 = r2.drop_first();
        assert forall|i: int, j: int| 0 <= i < j < t1.len() implies topo_before(m, #[trigger] t1[i], #[trigger] t1[j]) by {
            assert(t1[i] == r1[i + 1] && t1[j] == r1[j + 1]);
        }
        assert forall|i: int, j: int| 0 <= i < j < t2.len() implies topo_before(m, #[trigger] t2[i], #[trigger] t2[j]) by {
            assert(t2[i] == r2[i + 1] && t2[j] == r2[j + 1]);
        }
        lemma_topo_sorted_unique(m, t1, t2);
        assert(r1 =~= r2) by {
            assert forall|i: int| 0 <= i < r1.len() implies r1[i] == r2[i] by {
                if i > 0 {
                    assert(r1[i] == t1[i - 1] && r2[i] == t2[i - 1]);
                }
            }
        }
    }
}

/// There is one topological order: any order meeting the definition is
/// `topo(m)`.
pub proof fn lemma_topo_unique(m: Map<Seq<char>, EventView>, r: Seq<Seq<char>>)
    requires
        is_topological_order(m, r),
    ensures
        topo(m) == r,
{
    let t = topo(m);
    assert(is_topological_order(m, t));
    assert(t.to_set() =~= r.to_set()) by {
        assert forall|k: Seq<char>| t.to_set().contains(k) <==> r.to_set().contains(k) by {
            assert(t.contains(k) <==> depth(m, k) is Some);
            assert(r.contains(k) <==> depth(m, k) is Some);
        }
    }
    lemma_topo_sorted_unique(m, t, r);
}

/// The natural-number reading of an optional depth.
pub open spec fn opt_nat(o: Option<usize>) -> Option<nat> {
    match o {
        Some(d) => Some(d as nat),
        None => None,
    }
}

/// An event that lost parent `id` and took over `id`'s parents; its
/// identifier, which keys it, stays as it was.
pub open spec fn bridged(e: EventView, id: Seq<char>, id_parents: Seq<Seq<char>>) -> EventView {
    EventView { parents: sorted_of(e.parents.to_set().remove(id).union(id_parents.to_set())), ..e }
}

/// The DAG after removing the event under `id`: its children are reconnected
/// to its parents.
pub open spec fn removed(m: Map<Seq<char>, EventView>, id: Seq<char>) -> Map<Seq<char>, EventView> {
    Map::new(
        |k: Seq<char>| m.contains_key(k) && k != id,
        |k: Seq<char>|
            if m[k].parents.contains(id) {
                bridged(m[k], id, m[id].parents)
            } else {
                m[k]
            },
    )
}

/// An event whose parent `from` is replaced by `to`; its identifier, which
/// keys it, stays as it was.
pub open spec fn redirected(e: EventView, from: Seq<char>, to: Seq<char>) -> EventView {
    EventView { parents: sorted_of(e.parents.to_set().remove(from).insert(to)), ..e }
}

/// A causal DAG.
#[derive(Debug, Clone)]
pub struct CausalDag {
    keys: Vec<String>,
    events: Vec<Event>,
}

impl View for CausalDag {
    type V = Map<Seq<char>, EventView>;

    closed spec fn view(&self) -> Map<Seq<char>, EventView> {
        Map::new(
            |k: Seq<char>| self.keys_view().contains(k),
            |k: Seq<char>| self.events_view()[self.keys_view().index_of(k)],
        )
    }
}

impl Default for CausalDag {
    fn default() -> (r: Self)
        ensures
            r.wf(),
            r@ == Map::<Seq<char>, EventView>::empty(),
    {
        CausalDag::new()
    }
}

impl CausalDag {
    /// The keys, in increasing order.
    pub closed spec fn keys_view(&self) -> Seq<Seq<char>> {
        ids_view(self.keys@)
    }

    /// The events, in key order.
    pub closed spec fn events_view(&self) -> Seq<EventView> {
        self.events@.map_values(|e: Event| e@)
    }

    /// Well-formedness: keys strictly increasing, one event per key, each
    /// event under its own identifier, parent sets sorted.
    pub closed spec fn wf(&self) -> bool {
        &&& self.keys@.len() == self.events@.len()
        &&& strictly_sorted(self.keys_view())
        &&& forall|i: int| 0 <= i < self.events@.len() ==> (#[trigger] self.events@[i]).wf()
        &&& forall|i: int| 0 <= i < self.events@.len() ==> (#[trigger] self.events@[i])@.id == self.keys@[i]@
    }

    /// How the key and event sequences make up the view.
    pub proof fn lemma_view(&self)
        requires
            self.wf(),
        ensures
            self.keys_view().len() == self.events_view().len(),
            strictly_sorted(self.keys_view()),
            self@.dom() == self.keys_view().to_set(),
            self@.dom().finite(),
            self@.len() == self.keys_view().len(),
            forall|i: int|
                0 <= i < self.keys_view().len() ==> #[trigger] self@[self.keys_view()[i]]
                    == self.events_view()[i],
            forall|k: Seq<char>| #[trigger]
                self@.contains_key(k) ==> strictly_sorted(self@[k].parents),
            keyed_by_id(self@),
    {
        let ks = self.keys_view();
        lemma_sorted_no_duplicates(ks);
        assert forall|i: int| 0 <= i < ks.len() implies #[trigger] self@[ks[i]]
            == self.events_view()[i] by {
            assert(ks.contains(ks[i]));
            let j = ks.index_of(ks[i]);
            assert(0 <= j < ks.len() && ks[j] == ks[i]);
        }
        assert(self@.dom() =~= ks.to_set());
        ks.unique_seq_to_set();
        assert forall|k: Seq<char>| #[trigger] self@.contains_key(k) implies strictly_sorted(
            self@[k].parents,
        ) by {
            let i = choose|i: int| 0 <= i < ks.len() && ks[i] == k;
            assert(self.events@[i].wf());
        }
        assert forall|k: Seq<char>| #[trigger] self@.contains_key(k) implies self@[k].id == k by {
            let i = choose|i: int| 0 <= i < ks.len() && ks[i] == k;
            assert(self.events@[i]@.id == self.keys@[i]@);
            assert(ks[i] == self.keys@[i]@);
        }
    }

    /// The keys, in increasing order.
    pub fn keys(&self) -> (r: Vec<String>)
        requires
            self.wf(),
        ensures
            ids_view(r@) == self.keys_view(),
            ids_view(r@).to_set() == self@.dom(),
            strictly_sorted(ids_view(r@)),
    {
        proof {
            self.lemma_view();
        }
        let mut v: Vec<String> = Vec::new();
        let n = self.keys.len();
        for i in 0..n
            invariant
                n == self.keys@.len(),
                v@.len() == i,
                forall|k: int| 0 <= k < i ==> #[trigger] v@[k]@ == self.keys@[k]@,
        {
            v.push(self.keys[i].clone());
        }
        assert(ids_view(v@) =~= self.keys_view());
        v
    }

    /// An empty DAG.
    pub fn new() -> (r: Self)
        ensures
            r.wf(),
            r@ == Map::<Seq<char>, EventView>::empty(),
    {
        let r = CausalDag { keys: Vec::new(), events: Vec::new() };
        assert(r.keys_view() =~= Seq::<Seq<char>>::empty());
        assert(r@ =~= Map::<Seq<char>, EventView>::empty());
        r
    }

    /// An empty DAG with room for `n` events.
    pub fn with_capacity(n: usize) -> (r: Self)
        ensures
            r.wf(),
            r@ == Map::<Seq<char>, EventView>::empty(),
    {
        let r = CausalDag { keys: Vec::with_capacity(n), events: Vec::with_capacity(n) };
        assert(r.keys_view() =~= Seq::<Seq<char>>::empty());
        assert(r@ =~= Map::<Seq<char>, EventView>::empty());
        r
    }

    /// Number of events.
    pub fn len(&self) -> (n: usize)
        requires
            self.wf(),
        ensures
            n == self@.len(),
    {
        proof {
            self.lemma_view();
        }
        self.keys.len()
    }

    /// True iff there are no events.
    pub fn is_empty(&self) -> (b: bool)
        requires
            self.wf(),
        ensures
            b == (self@.len() == 0),
    {
        proof {
            self.lemma_view();
        }
        self.keys.len() == 0
    }

    /// The key at position `i` in key order.
    pub fn key_at(&self, i: usize) -> (r: &String)
        requires
            self.wf(),
            i < self@.len(),
        ensures
            r@ == self.keys_view()[i as int],
            self@.contains_key(r@),
    {
        proof {
            self.lemma_view();
            assert(self.keys_view().to_set().contains(self.keys_view()[i as int]));
        }
        &self.keys[i]
    }

    /// The event at position `i` in key order.
    pub fn event_at(&self, i: usize) -> (r: &Event)
        requires
            self.wf(),
            i < self@.len(),
        ensures
            r@ == self@[self.keys_view()[i as int]],
            r.wf(),
    {
        proof {
            self.lemma_view();
        }
        &self.events[i]
    }

    /// The event stored under `id`.
    pub fn get(&self, id: &String) -> (r: Option<&Event>)
        requires
            self.wf(),
        ensures
            match r {
                Some(e) => self@.contains_key(id@) && e@ == self@[id@] && e.wf(),
                None => !self@.contains_key(id@),
            },
    {
        proof {
            self.lemma_view();
        }
        let (found, pos) = search_sorted(&self.keys, id);
        if found {
            Some(&self.events[pos])
        } else {
            None
        }
    }

    /// True iff an event is stored under `id`.
    pub fn contains(&self, id: &String) -> (b: bool)
        requires
            self.wf(),
        ensures
            b == self@.contains_key(id@),
    {
        proof {
            self.lemma_view();
        }
        search_sorted(&self.keys, id).0
    }

    /// Inserts an event under its identifier; returns false, changing
    /// nothing, if that key is present.
    pub fn insert(&mut self, event: Event) -> (added: bool)
        requires
            old(self).wf(),
            event.wf(),
        ensures
            final(self).wf(),
            added == !old(self)@.contains_key(event.id@),
            final(self)@ == insert_event(old(self)@, event@),
    {
        proof {
            self.lemma_view();
        }
        let (found, pos) = search_sorted(&self.keys, &event.id);
        if found {
            return false;
        }
        let ghost ks = self.keys_view();
        let ghost es = self.events_view();
        let ghost ev = event@;
        let ghost old_view = self@;
        self.keys.insert(pos, event.id.clone());
        self.events.insert(pos, event);
        proof {
            assert(self.keys_view() =~= ks.insert(pos as int, ev.id));
            assert(self.events_view() =~= es.insert(pos as int, ev));
            lemma_sorted_insert(ks, pos as int, ev.id);
            assert forall|i: int| 0 <= i < self.events@.len() implies (
            #[trigger] self.events@[i]).wf() by {
                if i < pos {
                    assert(self.events@[i] == old(self).events@[i]);
                } else if i > pos {
                    assert(self.events@[i] == old(self).events@[i - 1]);
                }
            }
            self.lemma_view();
            let nk = self.keys_view();
            assert forall|k: Seq<char>| #[trigger] self@.contains_key(k) implies old_view.insert(
                ev.id,
                ev,
            ).contains_key(k) && self@[k] == old_view.insert(ev.id, ev)[k] by {
                let i = choose|i: int| 0 <= i < nk.len() && nk[i] == k;
                if i < pos {
                    assert(ks[i] == k);
                } else if i > pos {
                    assert(ks[i - 1] == k);
                }
            }
            assert forall|k: Seq<char>| old_view.insert(ev.id, ev).contains_key(k) implies #[trigger] self@.contains_key(k) by {
                assert(nk.to_set() == ks.to_set().insert(ev.id));
            }
            assert(self@ =~= old_view.insert(ev.id, ev));
        }
        true
    }

    /// Inserts every event of `other` (under each event's identifier; keys
    /// already present keep their event).
    pub fn union_with(&mut self, other: &CausalDag)
        requires
            old(self).wf(),
            other.wf(),
        ensures
            final(self).wf(),
            final(self)@ == insert_events(old(self)@, other.events_view()),
    {
        let n = other.events.len();
        for i in 0..n
            invariant
                n == other.events@.len(),
                other.wf(),
                self.wf(),
                self@ == insert_events(old(self)@, other.events_view().subrange(0, i as int)),
        {
            let e = other.events[i].duplicate();
            assert(other.events@[i as int].wf());
            self.insert(e);
            proof {
                let s = other.events_view().subrange(0, i + 1);
                assert(s.drop_last() =~= other.events_view().subrange(0, i as int));
                assert(s.last() == other.events@[i as int]@);
            }
        }
        assert(other.events_view().subrange(0, n as int) =~= other.events_view());
    }

    /// Every identifier named as a parent by some event.
    pub fn all_parent_ids(&self) -> (r: IdSet)
        requires
            self.wf(),
        ensures
            r.wf(),
            r.set() == parent_ids(self@),
    {
        proof {
            self.lemma_view();
        }
        let mut r = IdSet::new();
        let n = self.events.len();
        let ghost ks = self.keys_view();
        for i in 0..n
            invariant
                n == self.events@.len(),
                self.wf(),
                ks == self.keys_view(),
                ks.len() == n,
                forall|j: int| 0 <= j < n ==> #[trigger] self@[ks[j]] == self.events_view()[j],
                r.wf(),
                forall|p: Seq<char>|
                    r.set().contains(p) <==> exists|j: int|
                        0 <= j < i && (#[trigger] self.events_view()[j]).parents.contains(p),
        {
            let ghost before = r.set();
            r.union_with(&self.events[i].parents);
            proof {
                assert forall|p: Seq<char>| r.set().contains(p) <==> exists|j: int|
                    0 <= j < i + 1 && (#[trigger] self.events_view()[j]).parents.contains(p) by {
                    if r.set().contains(p) && !before.contains(p) {
                        assert(self.events_view()[i as int].parents.contains(p));
                    }
                    if exists|j: int|
                        0 <= j < i + 1 && (#[trigger] self.events_view()[j]).parents.contains(p) {
                        let j = choose|j: int|
                            0 <= j < i + 1 && (#[trigger] self.events_view()[j]).parents.contains(p);
                        if j == i {
                            assert(self.events@[i as int].parents.set().contains(p));
                        }
                    }
                }
            }
        }
        proof {
            assert forall|p: Seq<char>| r.set().contains(p) == parent_ids(self@).contains(p) by {
                if r.set().contains(p) {
                    let j = choose|j: int|
                        0 <= j < n && (#[trigger] self.events_view()[j]).parents.contains(p);
                    assert(parent_of(self@, p, ks[j]));
                }
                if parent_ids(self@).contains(p) {
                    let c = choose|c: Seq<char>| parent_of(self@, p, c);
                    let j = choose|j: int| 0 <= j < ks.len() && ks[j] == c;
                    assert(self.events_view()[j].parents.contains(p));
                }
            }
            assert(r.set() =~= parent_ids(self@));
        }
        r
    }

    /// Frontier: the events that no event names as a parent (the tips).
    pub fn frontier(&self) -> (r: IdSet)
        requires
            self.wf(),
        ensures
            r.wf(),
            r.set() == frontier_set(self@),
    {
        proof {
            self.lemma_view();
        }
        let ps = self.all_parent_ids();
        let mut r = IdSet::new();
        let n = self.keys.len();
        let ghost ks = self.keys_view();
        for i in 0..n
            invariant
                n == self.keys@.len(),
                self.wf(),
                ks == self.keys_view(),
                ks.len() == n,
                ps.wf(),
                ps.set() == parent_ids(self@),
                self@.dom() == ks.to_set(),
                r.wf(),
                r.set() == frontier_set(self@).intersect(ks.subrange(0, i as int).to_set()),
        {
            assert(self.keys@[i as int]@ == ks[i as int]);
            if !ps.contains(&self.keys[i]) {
                r.insert(self.keys[i].clone());
            }
            proof {
                assert(ks.subrange(0, i + 1) =~= ks.subrange(0, i as int).push(ks[i as int]));
                lemma_push_to_set(ks.subrange(0, i as int), ks[i as int]);
                assert(ks.to_set().contains(ks[i as int]));
                assert(r.set() =~= frontier_set(self@).intersect(ks.subrange(0, i + 1).to_set()));
            }
        }
        proof {
            assert(ks.subrange(0, n as int) =~= ks);
            assert(r.set() =~= frontier_set(self@));
        }
        r
    }

    /// Parents named by some event but absent from the DAG.
    pub fn missing_ancestors(&self) -> (r: IdSet)
        requires
            self.wf(),
        ensures
            r.wf(),
            r.set() == missing_set(self@),
    {
        let ps = self.all_parent_ids();
        let mut r = IdSet::new();
        let n = ps.len();
        for i in 0..n
            invariant
                n == ps@.len(),
                ps.wf(),
                ps.set() == parent_ids(self@),
                self.wf(),
                r.wf(),
                r.set() == missing_set(self@).intersect(ps@.subrange(0, i as int).to_set()),
        {
            let p = ps.get(i);
            if !self.contains(p) {
                r.insert(p.clone());
            }
            proof {
                assert(ps@.subrange(0, i + 1) =~= ps@.subrange(0, i as int).push(ps@[i as int]));
                lemma_push_to_set(ps@.subrange(0, i as int), ps@[i as int]);
                assert(ps.set().contains(ps@[i as int]));
                assert(r.set() =~= missing_set(self@).intersect(ps@.subrange(0, i + 1).to_set()));
            }
        }
        proof {
            assert(ps@.subrange(0, n as int) =~= ps@);
            assert(r.set() =~= missing_set(self@));
        }
        r
    }

    /// True iff every parent of every event is present.
    pub fn is_causally_closed(&self) -> (b: bool)
        requires
            self.wf(),
        ensures
            b == causally_closed(self@),
    {
        let missing = self.missing_ancestors();
        let b = missing.is_empty();
        proof {
            if b {
                assert forall|p: Seq<char>, c: Seq<char>| #[trigger]
                    parent_of(self@, p, c) implies self@.contains_key(p) by {
                    assert(parent_ids(self@).contains(p));
                    if !self@.contains_key(p) {
                        assert(missing.set().contains(p));
                        assert(missing@.contains(p));
                    }
                }
            } else {
                assert(missing@.contains(missing@[0]));
                let p = missing@[0];
                assert(missing_set(self@).contains(p));
                let c = choose|c: Seq<char>| parent_of(self@, p, c);
                assert(parent_of(self@, p, c));
            }
        }
        b
    }

    /// Parent identifiers are finitely many.
    pub proof fn lemma_parent_ids_finite(&self)
        requires
            self.wf(),
        ensures
            parent_ids(self@).finite(),
    {
        self.lemma_view();
        let es = self.events_view();
        let ks = self.keys_view();
        assert forall|p: Seq<char>| parent_ids(self@).contains(p) implies flat_parents(es).to_set().contains(p) by {
            let c = choose|c: Seq<char>| parent_of(self@, p, c);
            let j = choose|j: int| 0 <= j < ks.len() && ks[j] == c;
            assert(es[j].parents.contains(p));
            lemma_flat_parents(es, p);
        }
        vstd::set_lib::lemma_set_subset_finite(flat_parents(es).to_set(), parent_ids(self@));
    }

    /// Appends the identifiers of `s` to the work list `w`.
    fn push_all(w: &mut Vec<String>, s: &IdSet)
        ensures
            ids_view(final(w)@) == ids_view(old(w)@) + s@,
    {
        let n = s.len();
        let ghost w0 = ids_view(w@);
        for i in 0..n
            invariant
                n == s@.len(),
                ids_view(w@) == w0 + s@.subrange(0, i as int),
        {
            let ghost before = ids_view(w@);
            let x = s.get(i).clone();
            w.push(x);
            assert(ids_view(w@) =~= before.push(s@[i as int]));
            assert(s@.subrange(0, i + 1) =~= s@.subrange(0, i as int).push(s@[i as int]));
            assert(ids_view(w@) =~= w0 + s@.subrange(0, i + 1));
        }
        assert(s@.subrange(0, n as int) =~= s@);
    }

    /// The set reached from `start` by steps taken only from present events
    /// in `through` (in every present event when `all` holds).
    fn explore(&self, start: &String, through: &IdSet, all: bool) -> (r: IdSet)
        requires
            self.wf(),
            through.wf(),
        ensures
            r.wf(),
            forall|a: Seq<char>|
                r.set().contains(a) <==> reaches(self@, allowed(self@, through.set(), all), start@, a),
    {
        let ghost m = self@;
        let ghost vs = allowed(self@, through.set(), all);
        let ghost u = parent_ids(m);
        proof {
            self.lemma_parent_ids_finite();
        }
        let mut r = IdSet::new();
        let mut w: Vec<String> = Vec::new();
        if all || through.contains(start) {
            match self.get(start) {
                Some(e) => {
                    Self::push_all(&mut w, &e.parents);
                },
                None => {},
            }
        }
        proof {
            assert forall|v: Seq<char>| #[trigger] step(m, vs, start@, v) implies r.set().contains(v)
                || ids_view(w@).contains(v) by {
                assert(self@[start@].parents.contains(v));
            }
            assert forall|k: int| 0 <= k < ids_view(w@).len() implies reaches(
                m,
                vs,
                start@,
                #[trigger] ids_view(w@)[k],
            ) by {
                lemma_reaches_step(m, vs, start@, ids_view(w@)[k]);
            }
        }
        while w.len() > 0
            invariant
                self.wf(),
                through.wf(),
                m == self@,
                vs == allowed(self@, through.set(), all),
                u == parent_ids(m),
                u.finite(),
                r.wf(),
                forall|a: Seq<char>| r.set().contains(a) ==> #[trigger] reaches(m, vs, start@, a),
                forall|k: int|
                    0 <= k < ids_view(w@).len() ==> reaches(m, vs, start@, #[trigger] ids_view(w@)[k]),
                forall|v: Seq<char>| #[trigger]
                    step(m, vs, start@, v) ==> r.set().contains(v) || ids_view(w@).contains(v),
                forall|a: Seq<char>, v: Seq<char>|
                    r.set().contains(a) && #[trigger] step(m, vs, a, v) ==> r.set().contains(v)
                        || ids_view(w@).contains(v),
            decreases u.len() - r@.len(), w@.len(),
        {
            let ghost w_before = ids_view(w@);
            let ghost measure = u.len() - r@.len();
            let x = w.pop().unwrap();
            proof {
                assert(w_before =~= ids_view(w@).push(x@));
                assert(w_before[w_before.len() - 1] == x@);
                r.lemma_len();
                assert forall|a: Seq<char>| r.set().contains(a) implies u.contains(a) by {
                    lemma_reaches_parent_ids(m, vs, start@, a);
                }
                vstd::set_lib::lemma_len_subset(r.set(), u);
            }
            if !r.contains(&x) {
                let ghost r_before = r.set();
                r.insert(x.clone());
                proof {
                    lemma_reaches_parent_ids(m, vs, start@, x@);
                    assert forall|a: Seq<char>| r.set().contains(a) implies u.contains(a) by {
                        if a != x@ {
                            assert(r_before.contains(a));
                            lemma_reaches_parent_ids(m, vs, start@, a);
                        }
                    }
                    r.lemma_len();
                    vstd::set_lib::lemma_len_subset(r.set(), u);
                }
                if all || through.contains(&x) {
                    match self.get(&x) {
                        Some(e) => {
                            let ghost w_mid = ids_view(w@);
                            Self::push_all(&mut w, &e.parents);
                            proof {
                                assert forall|v: Seq<char>| #[trigger]
                                    step(m, vs, x@, v) implies ids_view(w@).contains(v) by {
                                    let k = choose|k: int|
                                        0 <= k < e.parents@.len() && e.parents@[k] == v;
                                    assert(ids_view(w@)[w_mid.len() + k] == v);
                                }
                                assert forall|k: int| 0 <= k < ids_view(w@).len() implies reaches(
                                    m,
                                    vs,
                                    start@,
                                    #[trigger] ids_view(w@)[k],
                                ) by {
                                    if k >= w_mid.len() {
                                        let v = ids_view(w@)[k];
                                        assert(e.parents@[k - w_mid.len()] == v);
                                        assert(step(m, vs, x@, v));
                                        lemma_reaches_extend(m, vs, start@, x@, v);
                                    } else {
                                        assert(ids_view(w@)[k] == w_mid[k]);
                                        assert(w_mid[k] == w_before[k]);
                                    }
                                }
                                assert forall|v: Seq<char>| w_mid.contains(v)
                                    implies #[trigger] ids_view(w@).contains(v) by {
                                    let k = choose|k: int| 0 <= k < w_mid.len() && w_mid[k] == v;
                                    assert(ids_view(w@)[k] == v);
                                }
                            }
                        },
                        None => {
                            proof {
                                assert forall|k: int| 0 <= k < ids_view(w@).len() implies reaches(
                                    m,
                                    vs,
                                    start@,
                                    #[trigger] ids_view(w@)[k],
                                ) by {
                                    assert(ids_view(w@)[k] == w_before[k]);
                                }
                            }
                        },
                    }
                } else {
                    proof {
                        assert forall|k: int| 0 <= k < ids_view(w@).len() implies reaches(
                            m,
                            vs,
                            start@,
                            #[trigger] ids_view(w@)[k],
                        ) by {
                            assert(ids_view(w@)[k] == w_before[k]);
                        }
                    }
                }
                proof {
                    assert forall|v: Seq<char>| w_before.contains(v) implies r.set().contains(v)
                        || #[trigger] ids_view(w@).contains(v) by {
                        let k = choose|k: int| 0 <= k < w_before.len() && w_before[k] == v;
                        if k < w_before.len() - 1 {
                            assert(ids_view(w@).contains(v)) by {
                                let wm = ids_view(w@);
                                assert(wm[k] == v);
                            }
                        }
                    }
                }
            } else {
                proof {
                    assert forall|k: int| 0 <= k < ids_view(w@).len() implies reaches(
                        m,
                        vs,
                        start@,
                        #[trigger] ids_view(w@)[k],
                    ) by {
                        assert(ids_view(w@)[k] == w_before[k]);
                    }
                    assert forall|v: Seq<char>| w_before.contains(v) implies r.set().contains(v)
                        || #[trigger] ids_view(w@).contains(v) by {
                        let k = choose|k: int| 0 <= k < w_before.len() && w_before[k] == v;
                        if k < w_before.len() - 1 {
                            assert(ids_view(w@)[k] == v);
                        }
                    }
                }
            }
        }
        proof {
            lemma_reach_closed(m, vs, start@, r.set());
        }
        r
    }

    /// Every ancestor of `id`: the identifiers reached from it through parent
    /// links of present events.
    pub fn ancestors(&mut self, id: &String) -> (r: IdSet)
        requires
            old(self).wf(),
        ensures
            final(self)@ == old(self)@,
            final(self).wf(),
            r.wf(),
            r.set() == ancestor_set(old(self)@, id@),
    {
        let none = IdSet::new();
        let r = self.explore(id, &none, true);
        assert(r.set() =~= ancestor_set(self@, id@));
        r
    }

    /// Whether `a` is a causal ancestor of `b` (`a ≺ b`).
    pub fn causally_precedes(&mut self, a: &String, b: &String) -> (r: bool)
        requires
            old(self).wf(),
        ensures
            final(self)@ == old(self)@,
            final(self).wf(),
            r == ancestor_set(old(self)@, b@).contains(a@),
    {
        let anc = self.ancestors(b);
        anc.contains(a)
    }

    /// Whether two distinct events are causally independent.
    pub fn are_concurrent(&mut self, a: &String, b: &String) -> (r: bool)
        requires
            old(self).wf(),
        ensures
            final(self)@ == old(self)@,
            final(self).wf(),
            r == (!ancestor_set(old(self)@, b@).contains(a@) && !ancestor_set(old(self)@, a@).contains(b@)
                && a@ != b@),
    {
        let ab = self.causally_precedes(a, b);
        let ba = self.causally_precedes(b, a);
        let same = a.eq(b);
        !ab && !ba && !same
    }

    /// The nearest surviving identifiers behind `p` when the tombstones `t` are
    /// removed.
    fn resolve(&self, p: &String, t: &IdSet) -> (r: IdSet)
        requires
            self.wf(),
            t.wf(),
        ensures
            r.wf(),
            r.set() == resolved_set(self@, t.set(), p@),
    {
        let tp = t.contains(p);
        let pp = self.contains(p);
        proof {
            assert(t.set().contains(p@) == tp);
        }
        if tp && pp {
            let reach = self.explore(p, t, false);
            let mut r = IdSet::new();
            let n = reach.len();
            for i in 0..n
                invariant
                    n == reach@.len(),
                    reach.wf(),
                    self.wf(),
                    t.wf(),
                    forall|a: Seq<char>|
                        reach.set().contains(a) <==> reaches(self@, t.set(), p@, a),
                    t.set().contains(p@),
                    self@.contains_key(p@),
                    r.wf(),
                    r.set() == resolved_set(self@, t.set(), p@).intersect(
                        reach@.subrange(0, i as int).to_set(),
                    ),
            {
                let x = reach.get(i);
                let tx = t.contains(x);
                let px = self.contains(x);
                let keep = !(tx && px);
                let ghost before = r.set();
                if keep {
                    r.insert(x.clone());
                }
                proof {
                    assert(reach@.subrange(0, i + 1) =~= reach@.subrange(0, i as int).push(
                        reach@[i as int],
                    ));
                    lemma_push_to_set(reach@.subrange(0, i as int), reach@[i as int]);
                    assert(reach.set().contains(reach@[i as int]));
                    let rs = resolved_set(self@, t.set(), p@);
                    assert(t.set().contains(p@));
                    assert(t.set().contains(x@) == tx);
                    assert(reaches(self@, t.set(), p@, x@));
                    assert(rs.contains(x@) == keep);
                    assert(r.set() == if keep { before.insert(x@) } else { before });
                    assert(r.set() =~= rs.intersect(reach@.subrange(0, i + 1).to_set()));
                }
            }
            proof {
                assert(reach@.subrange(0, n as int) =~= reach@);
                let rs = resolved_set(self@, t.set(), p@);
                assert forall|x: Seq<char>| rs.contains(x) implies reach.set().contains(x) by {
                    assert(reaches(self@, t.set(), p@, x));
                }
                assert(r.set() =~= rs);
            }
            r
        } else {
            let r = IdSet::singleton(p.clone());
            proof {
                assert(r@[0] == p@);
                assert forall|x: Seq<char>| r.set().contains(x) == set![p@].contains(x) by {
                    if r.set().contains(x) {
                        let k = choose|k: int| 0 <= k < r@.len() && r@[k] == x;
                    }
                    if x == p@ {
                        assert(r@.contains(p@));
                    }
                }
                assert(r.set() =~= set![p@]);
            }
            r
        }
    }

    /// The parents of `e` with every tombstone replaced by its resolution.
    fn rewire(&self, e: &Event, t: &IdSet) -> (r: IdSet)
        requires
            self.wf(),
            t.wf(),
        ensures
            r.wf(),
            r.set() == rewired_parents(self@, t.set(), e.parents@),
    {
        let mut r = IdSet::new();
        let n = e.parents.len();
        let ghost ps = e.parents@;
        for j in 0..n
            invariant
                n == ps.len(),
                ps == e.parents@,
                self.wf(),
                t.wf(),
                r.wf(),
                r.set() == rewired_parents(self@, t.set(), ps.subrange(0, j as int)),
        {
            let rs = self.resolve(e.parents.get(j), t);
            let ghost before = r.set();
            r.union_with(&rs);
            proof {
                let pre = ps.subrange(0, j as int);
                let post = ps.subrange(0, j + 1);
                assert forall|x: Seq<char>| r.set().contains(x) == rewired_parents(self@, t.set(), post).contains(x) by {
                    if r.set().contains(x) {
                        if before.contains(x) {
                            let i = choose|i: int| 0 <= i < pre.len() && resolved_set(self@, t.set(), #[trigger] pre[i]).contains(x);
                            assert(post[i] == pre[i]);
                        } else {
                            assert(post[j as int] == ps[j as int]);
                        }
                    }
                    if rewired_parents(self@, t.set(), post).contains(x) {
                        let i = choose|i: int| 0 <= i < post.len() && resolved_set(self@, t.set(), #[trigger] post[i]).contains(x);
                        if i < j {
                            assert(pre[i] == post[i]);
                        }
                    }
                }
                assert(r.set() =~= rewired_parents(self@, t.set(), post));
            }
        }
        assert(ps.subrange(0, n as int) =~= ps);
        r
    }

    /// Removes a batch of events (tombstones), reconnecting every surviving
    /// event to the nearest surviving ancestors behind its removed parents.
    pub fn compact_tombstones(&mut self, tombstones: &IdSet)
        requires
            old(self).wf(),
            tombstones.wf(),
        ensures
            final(self).wf(),
            final(self)@ == compacted(old(self)@, tombstones.set()),
    {
        proof {
            self.lemma_view();
        }
        let ghost m = self@;
        let ghost t = tombstones.set();
        let mut any = false;
        let nt = tombstones.len();
        for i in 0..nt
            invariant
                nt == tombstones@.len(),
                tombstones.wf(),
                self.wf(),
                self@ == m,
                any == exists|j: int| 0 <= j < i && m.contains_key(#[trigger] tombstones@[j]),
        {
            if self.contains(tombstones.get(i)) {
                any = true;
            }
        }
        if !any {
            proof {
                assert forall|k: Seq<char>| #[trigger] t.contains(k) implies !m.contains_key(k) by {
                    let j = choose|j: int| 0 <= j < tombstones@.len() && tombstones@[j] == k;
                    assert(m.contains_key(tombstones@[j]) == m.contains_key(k));
                }
            }
            return;
        }
        let ghost ks = self.keys_view();
        proof {
            self.lemma_view();
        }
        let mut nk: Vec<String> = Vec::new();
        let mut ne: Vec<Event> = Vec::new();
        let ghost mut origin: Seq<int> = Seq::empty();
        let n = self.keys.len();
        for i in 0..n
            invariant
                n == self.keys@.len(),
                self.wf(),
                self@ == m,
                ks == self.keys_view(),
                ks.len() == n,
                tombstones.wf(),
                t == tombstones.set(),
                forall|j: int| 0 <= j < n ==> #[trigger] m[ks[j]] == self.events_view()[j],
                nk@.len() == ne@.len(),
                strictly_sorted(ids_view(nk@)),
                origin.len() == nk@.len(),
                forall|a: int|
                    0 <= a < nk@.len() ==> 0 <= #[trigger] origin[a] < i && ids_view(nk@)[a]
                        == ks[origin[a]] && !t.contains(ks[origin[a]]),
                forall|b: int|
                    0 <= b < i && !t.contains(#[trigger] ks[b]) ==> ids_view(nk@).contains(ks[b]),
                forall|a: int|
                    0 <= a < ne@.len() ==> (#[trigger] ne@[a])@ == rewired(m, t, m[ids_view(nk@)[a]])
                        && ne@[a].wf(),
                keyed_by_id(m),
        {
            assert(self.keys@[i as int]@ == ks[i as int]);
            if !tombstones.contains(&self.keys[i]) {
                let e = &self.events[i];
                assert(e.wf());
                let np = self.rewire(e, tombstones);
                let mut e2 = e.duplicate();
                proof {
                    lemma_sorted_of(np@);
                }
                e2.parents = np;
                let ghost nk_before = ids_view(nk@);
                let ghost origin_before = origin;
                nk.push(self.keys[i].clone());
                ne.push(e2);
                proof {
                    origin = origin.push(i as int);
                    assert(ids_view(nk@) =~= nk_before.push(ks[i as int]));
                    assert forall|x: int, y: int| 0 <= x < y < ids_view(nk@).len() implies crate::ids::id_lt(
                        #[trigger] ids_view(nk@)[x],
                        #[trigger] ids_view(nk@)[y],
                    ) by {
                        if y == nk_before.len() {
                            assert(origin[x] == origin_before[x]);
                            assert(ids_view(nk@)[x] == nk_before[x]);
                        } else {
                            assert(ids_view(nk@)[x] == nk_before[x]);
                            assert(ids_view(nk@)[y] == nk_before[y]);
                        }
                    }
                    assert forall|a: int| 0 <= a < nk@.len() implies 0 <= #[trigger] origin[a] < i + 1
                        && ids_view(nk@)[a] == ks[origin[a]] && !t.contains(ks[origin[a]]) by {
                        if a < nk_before.len() {
                            assert(ids_view(nk@)[a] == nk_before[a]);
                            assert(origin[a] == origin_before[a]);
                        } else {
                            assert(ids_view(nk@)[a] == ks[i as int]);
                        }
                    }
                    assert forall|b: int| 0 <= b < i + 1 && !t.contains(#[trigger] ks[b]) implies ids_view(
                        nk@,
                    ).contains(ks[b]) by {
                        if b < i {
                            let a = choose|a: int| 0 <= a < nk_before.len() && nk_before[a] == ks[b];
                            assert(ids_view(nk@)[a] == ks[b]);
                        } else {
                            assert(ids_view(nk@)[nk_before.len() as int] == ks[b]);
                        }
                    }
                    assert forall|a: int| 0 <= a < ne@.len() implies (#[trigger] ne@[a])@ == rewired(
                        m,
                        t,
                        m[ids_view(nk@)[a]],
                    ) && ne@[a].wf() by {
                        if a < nk_before.len() {
                            assert(ids_view(nk@)[a] == nk_before[a]);
                        } else {
                            assert(ids_view(nk@)[a] == ks[i as int]);
                            assert(m[ks[i as int]] == self.events@[i as int]@);
                        }
                    }
                }
            }
        }
        proof {
            assert forall|a: int| 0 <= a < ne@.len() implies (#[trigger] ne@[a])@.id == nk@[a]@ by {
                let k = ids_view(nk@)[a];
                assert(ks.to_set().contains(ks[origin[a]]));
                assert(m.contains_key(k));
            }
        }
        self.keys = nk;
        self.events = ne;
        proof {
            self.lemma_view();
            let nks = self.keys_view();
            assert(!(forall|k: Seq<char>| #[trigger] t.contains(k) ==> !m.contains_key(k))) by {
                let j = choose|j: int| 0 <= j < nt && m.contains_key(#[trigger] tombstones@[j]);
                assert(t.contains(tombstones@[j]));
            }
            let c = compacted(m, t);
            assert forall|k: Seq<char>| #[trigger] self@.contains_key(k) implies c.contains_key(k)
                && self@[k] == c[k] by {
                let a = choose|a: int| 0 <= a < nks.len() && nks[a] == k;
                let b = origin[a];
                assert(ks.to_set().contains(ks[b]));
                assert(self.events_view()[a] == self.events@[a]@);
            }
            assert forall|k: Seq<char>| #[trigger] c.contains_key(k) implies self@.contains_key(k) by {
                assert(m.contains_key(k));
                let b = choose|b: int| 0 <= b < ks.len() && ks[b] == k;
                assert(nks.contains(ks[b]));
            }
            assert(self@ =~= c);
        }
    }

    /// One round of depth computation: from the depths within `f` rounds to
    /// those within `f + 1`.
    fn depth_round(&self, prev: &Vec<Option<usize>>, Ghost(f): Ghost<nat>) -> (next: Vec<Option<usize>>)
        requires
            self.wf(),
            f < self.keys_view().len(),
            prev@.len() == self.keys_view().len(),
            forall|i: int|
                0 <= i < prev@.len() ==> opt_nat(#[trigger] prev@[i]) == depth_within(
                    self@,
                    self.keys_view()[i],
                    f,
                ),
        ensures
            next@.len() == prev@.len(),
            forall|i: int|
                0 <= i < next@.len() ==> opt_nat(#[trigger] next@[i]) == depth_within(
                    self@,
                    self.keys_view()[i],
                    f + 1,
                ),
    {
        proof {
            self.lemma_view();
        }
        let ghost m = self@;
        let ghost ks = self.keys_view();
        let n = self.keys.len();
        let mut next: Vec<Option<usize>> = Vec::new();
        for i in 0..n
            invariant
                n == ks.len(),
                self.wf(),
                m == self@,
                ks == self.keys_view(),
                prev@.len() == n,
                forall|j: int| 0 <= j < n ==> #[trigger] m[ks[j]] == self.events_view()[j],
                forall|j: int| 0 <= j < n ==> opt_nat(#[trigger] prev@[j]) == depth_within(m, ks[j], f),
                f < n,
                next@.len() == i,
                forall|j: int|
                    0 <= j < i ==> opt_nat(#[trigger] next@[j]) == depth_within(m, ks[j], f + 1),
        {
            let e = &self.events[i];
            assert(e@ == m[ks[i as int]]);
            let ghost ps = e.parents@;
            let np = e.parents.len();
            let mut acc: Option<usize> = Some(0);
            for j in 0..np
                invariant
                    np == ps.len(),
                    ps == e.parents@,
                    self.wf(),
                    m == self@,
                    ks == self.keys_view(),
                    prev@.len() == n,
                    n == ks.len(),
                    forall|q: int| 0 <= q < n ==> opt_nat(#[trigger] prev@[q]) == depth_within(m, ks[q], f),
                    opt_nat(acc) == parents_depth(m, ps.subrange(0, j as int), f),
            {
                let p = e.parents.get(j);
                let (found, pos) = search_sorted(&self.keys, p);
                let dp: Option<usize> = if found {
                    prev[pos]
                } else {
                    None
                };
                proof {
                    let pre = ps.subrange(0, j + 1);
                    assert(pre.drop_last() =~= ps.subrange(0, j as int));
                    assert(pre.last() == ps[j as int]);
                    if found {
                        assert(ks[pos as int] == p@);
                    } else {
                        assert(!m.contains_key(p@));
                    }
                    assert(opt_nat(dp) == depth_within(m, p@, f));
                }
                acc = match (acc, dp) {
                    (Some(a), Some(b)) => Some(
                        if a >= b {
                            a
                        } else {
                            b
                        },
                    ),
                    _ => None,
                };
            }
            proof {
                assert(ps.subrange(0, np as int) =~= ps);
                lemma_parents_depth_bound(m, ps, f);
            }
            let d: Option<usize> = match acc {
                Some(a) => Some(
                    if np == 0 {
                        0
                    } else {
                        a + 1
                    },
                ),
                None => None,
            };
            next.push(d);
        }
        next
    }

    /// Topological order (parents before children): every event whose
    /// ancestors are all present, by depth, ties broken by identifier.
    pub fn topological_order(&self) -> (r: Vec<EventId>)
        requires
            self.wf(),
        ensures
            is_topological_order(self@, ids_view(r@)),
    {
        proof {
            self.lemma_view();
        }
        let ghost m = self@;
        let ghost ks = self.keys_view();
        let n = self.keys.len();
        let mut cur: Vec<Option<usize>> = Vec::new();
        for i in 0..n
            invariant
                cur@.len() == i,
                forall|j: int| 0 <= j < i ==> #[trigger] cur@[j] == None::<usize>,
        {
            cur.push(None);
        }
        let mut round: usize = 0;
        let mut stable = false;
        while round < n && !stable
            invariant
                self.wf(),
                m == self@,
                ks == self.keys_view(),
                n == ks.len(),
                n == m.len(),
                m.dom() == ks.to_set(),
                round <= n,
                cur@.len() == n,
                forall|j: int|
                    0 <= j < n ==> opt_nat(#[trigger] cur@[j]) == depth_within(m, ks[j], round as nat),
                stable ==> forall|k: Seq<char>| #[trigger]
                    depth_within(m, k, round as nat) == depth_within(m, k, (round + 1) as nat),
            decreases n - round,
        {
            let next = self.depth_round(&cur, Ghost(round as nat));
            let mut same = true;
            for j in 0..n
                invariant
                    n == cur@.len(),
                    n == next@.len(),
                    same == forall|q: int| 0 <= q < j ==> #[trigger] cur@[q] == next@[q],
            {
                if cur[j] != next[j] {
                    same = false;
                }
            }
            proof {
                if same {
                    assert forall|k: Seq<char>| #[trigger]
                        depth_within(m, k, round as nat) == depth_within(m, k, (round + 1) as nat) by {
                        if m.contains_key(k) {
                            assert(ks.to_set().contains(k));
                            let j = choose|j: int| 0 <= j < n && ks[j] == k;
                            assert(cur@[j] == next@[j]);
                            assert(opt_nat(cur@[j]) == depth_within(m, ks[j], round as nat));
                            assert(opt_nat(next@[j]) == depth_within(m, ks[j], (round + 1) as nat));
                        }
                    }
                    lemma_depth_stable(m, round as nat, (round + 1) as nat);
                    lemma_depth_stable(m, round as nat, (round + 2) as nat);
                }
            }
            cur = next;
            round = round + 1;
            stable = same;
        }
        proof {
            if stable {
                lemma_depth_stable(m, round as nat, n as nat);
            }
            assert forall|j: int| 0 <= j < n implies opt_nat(#[trigger] cur@[j]) == depth(m, ks[j]) by {
                if stable {
                    assert(depth_within(m, ks[j], n as nat) == depth_within(m, ks[j], round as nat));
                }
            }
        }
        proof {
            assert forall|j: int| 0 <= j < n implies (#[trigger] cur@[j] matches Some(d) ==> d < n) by {
                lemma_depth_bound(m, ks[j], n as nat);
            }
        }
        // The greatest depth.
        let mut maxd: usize = 0;
        for j in 0..n
            invariant
                n == cur@.len(),
                forall|q: int| 0 <= q < n ==> (#[trigger] cur@[q] matches Some(d) ==> d < n),
                maxd == 0 || maxd < n,
                forall|q: int| 0 <= q < j ==> (#[trigger] cur@[q] matches Some(d) ==> d <= maxd),
        {
            match cur[j] {
                Some(d) => {
                    if d > maxd {
                        maxd = d;
                    }
                },
                None => {},
            }
        }
        let mut out: Vec<String> = Vec::new();
        let mut level: usize = 0;
        while level <= maxd
            invariant
                self.wf(),
                m == self@,
                ks == self.keys_view(),
                n == ks.len(),
                n == m.len(),
                m.dom() == ks.to_set(),
                strictly_sorted(ks),
                cur@.len() == n,
                forall|j: int| 0 <= j < n ==> opt_nat(#[trigger] cur@[j]) == depth(m, ks[j]),
                forall|j: int| 0 <= j < n ==> (#[trigger] cur@[j] matches Some(d) ==> d <= maxd),
                level <= maxd + 1,
                maxd == 0 || maxd < n,
                ids_view(out@).no_duplicates(),
                forall|x: Seq<char>|
                    ids_view(out@).contains(x) <==> (depth(m, x) matches Some(d) && d < level),
                forall|a: int, b: int|
                    0 <= a < b < out@.len() ==> topo_before(
                        m,
                        #[trigger] ids_view(out@)[a],
                        #[trigger] ids_view(out@)[b],
                    ),
            decreases maxd + 1 - level,
        {
            for i in 0..n
                invariant
                    self.wf(),
                    m == self@,
                    ks == self.keys_view(),
                    n == ks.len(),
                    n == m.len(),
                    m.dom() == ks.to_set(),
                    strictly_sorted(ks),
                    cur@.len() == n,
                    forall|j: int| 0 <= j < n ==> opt_nat(#[trigger] cur@[j]) == depth(m, ks[j]),
                    level <= maxd,
                    ids_view(out@).no_duplicates(),
                    forall|x: Seq<char>|
                        ids_view(out@).contains(x) <==> (depth(m, x) matches Some(d) && (d < level || (
                        d == level && exists|j: int| 0 <= j < i && #[trigger] ks[j] == x))),
                    forall|a: int, b: int|
                        0 <= a < b < out@.len() ==> topo_before(
                            m,
                            #[trigger] ids_view(out@)[a],
                            #[trigger] ids_view(out@)[b],
                        ),
            {
                let ghost before = ids_view(out@);
                if cur[i] == Some(level) {
                    out.push(self.keys[i].clone());
                    proof {
                        let k = ks[i as int];
                        assert(self.keys@[i as int]@ == k);
                        assert(ids_view(out@) =~= before.push(k));
                        assert(depth(m, k) == Some(level as nat));
                        assert(!before.contains(k)) by {
                            if before.contains(k) {
                                let j = choose|j: int| 0 <= j < i && #[trigger] ks[j] == k;
                                crate::ids::lemma_id_lt_irrefl(k);
                            }
                        }
                        assert forall|a: int, b: int|
                            0 <= a < b < out@.len() implies topo_before(
                            m,
                            #[trigger] ids_view(out@)[a],
                            #[trigger] ids_view(out@)[b],
                        ) by {
                            if b == before.len() {
                                let x = before[a];
                                assert(ids_view(out@)[a] == x);
                                assert(before.contains(x));
                                if depth(m, x).unwrap() == level {
                                    let j = choose|j: int| 0 <= j < i && #[trigger] ks[j] == x;
                                    assert(crate::ids::id_lt(ks[j], ks[i as int]));
                                }
                            } else {
                                assert(ids_view(out@)[a] == before[a]);
                                assert(ids_view(out@)[b] == before[b]);
                            }
                        }
                        assert forall|x: Seq<char>|
                            ids_view(out@).contains(x) <==> (depth(m, x) matches Some(d) && (d < level || (
                            d == level && exists|j: int| 0 <= j < i + 1 && #[trigger] ks[j] == x))) by {
                            if x == k {
                                assert(ids_view(out@)[before.len() as int] == k);
                            } else {
                                if ids_view(out@).contains(x) {
                                    let a = choose|a: int| 0 <= a < ids_view(out@).len() && ids_view(out@)[a] == x;
                                    assert(before[a] == x);
                                }
                                if before.contains(x) {
                                    let a = choose|a: int| 0 <= a < before.len() && before[a] == x;
                                    assert(ids_view(out@)[a] == x);
                                }
                            }
                        }
                        assert(ids_view(out@).no_duplicates()) by {
                            assert forall|a: int, b: int|
                                0 <= a < ids_view(out@).len() && 0 <= b < ids_view(out@).len() && a != b
                                implies ids_view(out@)[a] != ids_view(out@)[b] by {
                                if a == before.len() {
                                    assert(before[b] == ids_view(out@)[b]);
                                } else if b == before.len() {
                                    assert(before[a] == ids_view(out@)[a]);
                                } else {
                                    assert(before[a] == ids_view(out@)[a]);
                                    assert(before[b] == ids_view(out@)[b]);
                                }
                            }
                        }
                    }
                } else {
                    proof {
                        assert forall|x: Seq<char>|
                            ids_view(out@).contains(x) <==> (depth(m, x) matches Some(d) && (d < level || (
                            d == level && exists|j: int| 0 <= j < i + 1 && #[trigger] ks[j] == x))) by {
                            if depth(m, x) == Some(level as nat) && ks[i as int] == x {
                                assert(opt_nat(cur@[i as int]) == depth(m, ks[i as int]));
                            }
                        }
                    }
                }
            }
            proof {
                assert forall|x: Seq<char>|
                    ids_view(out@).contains(x) <==> (depth(m, x) matches Some(d) && d < level + 1) by {
                    if depth(m, x) == Some(level as nat) {
                        assert(m.contains_key(x)) by {
                            assert(depth_within(m, x, n as nat) is Some);
                        }
                        assert(ks.to_set().contains(x));
                        let j = choose|j: int| 0 <= j < n && ks[j] == x;
                        assert(ks[j] == x);
                    }
                }
            }
            level = level + 1;
        }
        proof {
            assert forall|x: Seq<char>|
                ids_view(out@).contains(x) <==> depth(m, x) is Some by {
                if depth(m, x) is Some {
                    assert(m.contains_key(x)) by {
                        assert(depth_within(m, x, n as nat) is Some);
                    }
                    assert(ks.to_set().contains(x));
                    let j = choose|j: int| 0 <= j < n && ks[j] == x;
                    assert(opt_nat(cur@[j]) == depth(m, ks[j]));
                    assert(cur@[j] matches Some(d) ==> d <= maxd);
                }
            }
        }
        out
    }

    /// Removes the event under `id`, reconnecting its children to its parents
    /// (identifiers, and so keys, are kept: the DAG stays an index from
    /// identifier to event).
    pub fn remove(&mut self, id: &String) -> (r: Option<Event>)
        requires
            old(self).wf(),
        ensures
            final(self).wf(),
            match r {
                Some(e) => old(self)@.contains_key(id@) && e@ == old(self)@[id@] && final(self)@
                    == removed(old(self)@, id@),
                None => !old(self)@.contains_key(id@) && final(self)@ == old(self)@,
            },
    {
        proof {
            self.lemma_view();
        }
        let ghost m = self@;
        let ghost ks0 = self.keys_view();
        let (found, pos) = search_sorted(&self.keys, id);
        if !found {
            return None;
        }
        let ghost es0 = self.events_view();
        let ev = self.events.remove(pos);
        let _k = self.keys.remove(pos);
        proof {
            assert(self.keys_view() =~= ks0.remove(pos as int));
            assert(self.events_view() =~= es0.remove(pos as int));
            crate::ids::lemma_sorted_remove(ks0, pos as int);
            assert(ev@ == m[id@]);
            assert(ev.wf()) by {
                assert(old(self).events@[pos as int].wf());
            }
        }
        let ghost ks = self.keys_view();
        let n = self.keys.len();
        let mut ne: Vec<Event> = Vec::new();
        for i in 0..n
            invariant
                n == ks.len(),
                ks == self.keys_view(),
                self.keys@.len() == self.events@.len(),
                n == self.events@.len(),
                ev.wf(),
                pos < ks0.len(),
                ks0[pos as int] == id@,
                m.contains_key(id@),
                m.dom() == ks0.to_set(),
                strictly_sorted(ks0),
                ev@ == m[id@],
                ks == ks0.remove(pos as int),
                self.events_view() == es0.remove(pos as int),
                ks0.len() == es0.len(),
                forall|j: int| 0 <= j < ks0.len() ==> #[trigger] m[ks0[j]] == es0[j],
                forall|j: int| 0 <= j < n ==> (#[trigger] self.events@[j]).wf(),
                ne@.len() == i,
                forall|j: int|
                    0 <= j < i ==> (#[trigger] ne@[j])@ == removed(m, id@)[ks[j]] && ne@[j].wf(),
        {
            let e = &self.events[i];
            assert(e@ == es0.remove(pos as int)[i as int]);
            proof {
                if i < pos {
                    assert(ks[i as int] == ks0[i as int]);
                    assert(es0.remove(pos as int)[i as int] == es0[i as int]);
                } else {
                    assert(ks[i as int] == ks0[i + 1]);
                    assert(es0.remove(pos as int)[i as int] == es0[i + 1]);
                }
                assert(e@ == m[ks[i as int]]);
                assert(ks[i as int] != id@) by {
                    crate::ids::lemma_sorted_no_duplicates(ks0);
                }
                if i < pos {
                    assert(ks0.to_set().contains(ks0[i as int]));
                } else {
                    assert(ks0.to_set().contains(ks0[i + 1]));
                }
                assert(m.contains_key(ks[i as int]));
            }
            if e.parents.contains(id) {
                let mut np = e.parents.duplicate();
                np.remove(id);
                np.union_with(&ev.parents);
                let mut e2 = e.duplicate();
                proof {
                    crate::ids::lemma_sorted_of(np@);
                    assert(np.set() =~= e@.parents.to_set().remove(id@).union(ev@.parents.to_set()));
                }
                e2.parents = np;
                ne.push(e2);
            } else {
                ne.push(e.duplicate());
            }
        }
        self.events = ne;
        proof {
            self.lemma_view();
            let r = removed(m, id@);
            assert forall|k: Seq<char>| #[trigger] self@.contains_key(k) implies r.contains_key(k)
                && self@[k] == r[k] by {
                let j = choose|j: int| 0 <= j < ks.len() && ks[j] == k;
                assert(self.events_view()[j] == ne@[j]@);
                if j < pos {
                    assert(ks[j] == ks0[j]);
                } else {
                    assert(ks[j] == ks0[j + 1]);
                }
                crate::ids::lemma_sorted_no_duplicates(ks0);
            }
            assert forall|k: Seq<char>| #[trigger] r.contains_key(k) implies self@.contains_key(k) by {
                let j = choose|j: int| 0 <= j < ks0.len() && ks0[j] == k;
                if j < pos {
                    assert(ks[j] == k);
                } else if j > pos {
                    assert(ks[j - 1] == k);
                }
                assert(ks.to_set().contains(k));
            }
            assert(self@ =~= r);
        }
        Some(ev)
    }

    /// The identifiers of `ids` that are not keys, in increasing order.
    pub fn missing_from(&self, ids: &IdSet) -> (r: Vec<EventId>)
        requires
            self.wf(),
            ids.wf(),
        ensures
            ids_view(r@) == sorted_of(ids.set().difference(self@.dom())),
    {
        let mut out: Vec<EventId> = Vec::new();
        let n = ids.len();
        let mut i: usize = 0;
        while i < n
            invariant
                i <= n,
                self.wf(),
                ids.wf(),
                n == ids@.len(),
                strictly_sorted(ids_view(out@)),
                forall|t: int| 0 <= t < ids_view(out@).len() ==> exists|q: int|
                    0 <= q < i && ids@[q] == #[trigger] ids_view(out@)[t],
                ids_view(out@).to_set() == ids@.subrange(0, i as int).to_set().difference(self@.dom()),
            decreases n - i,
        {
            let id = ids.get(i);
            let ghost ob = ids_view(out@);
            if !self.contains(id) {
                out.push(id.clone());
                proof {
                    let on = ids_view(out@);
                    assert(on =~= ob.push(id@));
                    assert forall|a: int, b: int| 0 <= a < b < on.len() implies crate::ids::id_lt(#[trigger] on[a], #[trigger] on[b]) by {
                        if b == ob.len() {
                            let q = choose|q: int| 0 <= q < i && ids@[q] == #[trigger] ob[a];
                            assert(crate::ids::id_lt(ids@[q], ids@[i as int]));
                        } else {
                            assert(crate::ids::id_lt(ob[a], ob[b]));
                        }
                    }
                    assert forall|t: int| 0 <= t < on.len() implies exists|q: int| 0 <= q < i + 1 && ids@[q] == #[trigger] on[t] by {
                        if t < ob.len() {
                            let q = choose|q: int| 0 <= q < i && ids@[q] == #[trigger] ob[t];
                            assert(ids@[q] == on[t]);
                        } else {
                            assert(ids@[i as int] == on[t]);
                        }
                    }
                    crate::ids::lemma_push_to_set(ob, id@);
                }
            }
            proof {
                assert(ids@.subrange(0, i + 1) =~= ids@.subrange(0, i as int).push(ids@[i as int]));
                crate::ids::lemma_push_to_set(ids@.subrange(0, i as int), ids@[i as int]);
                assert(ids_view(out@).to_set() =~= ids@.subrange(0, i + 1).to_set().difference(self@.dom()));
                assert forall|t: int| 0 <= t < ids_view(out@).len() implies exists|q: int| 0 <= q < i + 1 && ids@[q] == #[trigger] ids_view(out@)[t] by {
                    if !(exists|q: int| 0 <= q < i && ids@[q] == #[trigger] ids_view(out@)[t]) {
                        assert(ids@[i as int] == ids_view(out@)[t]);
                    } else {
                        let q = choose|q: int| 0 <= q < i && ids@[q] == #[trigger] ids_view(out@)[t];
                        assert(ids@[q] == ids_view(out@)[t]);
                    }
                }
            }
            i = i + 1;
        }
        proof {
            assert(ids@.subrange(0, n as int) =~= ids@);
            crate::ids::lemma_sorted_of(ids_view(out@));
        }
        out
    }

    /// A copy of this DAG.
    pub fn duplicate(&self) -> (r: CausalDag)
        requires
            self.wf(),
        ensures
            r.wf(),
            r@ == self@,
            r.events_view() == self.events_view(),
    {
        let mut keys: Vec<String> = Vec::new();
        let mut events: Vec<Event> = Vec::new();
        let n = self.keys.len();
        for i in 0..n
            invariant
                self.wf(),
                n == self.keys@.len(),
                keys@.len() == i,
                events@.len() == i,
                forall|k: int| 0 <= k < i ==> #[trigger] keys@[k]@ == self.keys@[k]@,
                forall|k: int| 0 <= k < i ==> (#[trigger] events@[k])@ == self.events@[k]@ && events@[k].wf(),
        {
            keys.push(self.keys[i].clone());
            assert(self.events@[i as int].wf());
            events.push(self.events[i].duplicate());
        }
        let r = CausalDag { keys, events };
        proof {
            assert(r.keys_view() =~= self.keys_view());
            assert(r.events_view() =~= self.events_view());
            assert(r@ =~= self@);
        }
        r
    }

    /// Replaces the parent `from` of the event under `child` by `to`, keeping
    /// its identifier; false, changing nothing, if there is no such event or
    /// it does not have that parent.
    pub fn redirect_parent(&mut self, child: &String, from: &String, to: &String) -> (r: bool)
        requires
            old(self).wf(),
        ensures
            final(self).wf(),
            r == (old(self)@.contains_key(child@) && old(self)@[child@].parents.contains(from@)),
            r ==> final(self)@ == old(self)@.insert(child@, redirected(old(self)@[child@], from@, to@)),
            !r ==> final(self)@ == old(self)@,
    {
        proof {
            self.lemma_view();
        }
        let ghost m = self@;
        let ghost ks = self.keys_view();
        let ghost es = self.events_view();
        let (found, pos) = search_sorted(&self.keys, child);
        if !found {
            return false;
        }
        assert(self.events@[pos as int].wf());
        if !self.events[pos].parents.contains(from) {
            assert(self.events@[pos as int]@ == m[child@]);
            return false;
        }
        let mut np = self.events[pos].parents.duplicate();
        np.remove(from);
        np.insert(to.clone());
        let mut e2 = self.events[pos].duplicate();
        proof {
            crate::ids::lemma_sorted_of(np@);
            assert(np.set() =~= m[child@].parents.to_set().remove(from@).insert(to@));
        }
        e2.parents = np;
        self.events.set(pos, e2);
        proof {
            assert(self.keys_view() == ks);
            assert(self.events_view() =~= es.update(pos as int, e2@));
            assert forall|i: int| 0 <= i < self.events@.len() implies (#[trigger] self.events@[i]).wf() by {
                if i != pos {
                    assert(old(self).events@[i].wf());
                }
            }
            self.lemma_view();
            let t = m.insert(child@, redirected(m[child@], from@, to@));
            assert forall|k: Seq<char>| #[trigger] self@.contains_key(k) <==> t.contains_key(k) by {
                assert(self@.dom() == ks.to_set());
                assert(m.dom() == ks.to_set());
            }
            assert forall|k: Seq<char>| #[trigger] self@.contains_key(k) implies self@[k] == t[k] by {
                let j = choose|j: int| 0 <= j < ks.len() && ks[j] == k;
                assert(self@[ks[j]] == self.events_view()[j]);
                assert(m[ks[j]] == es[j]);
                crate::ids::lemma_sorted_no_duplicates(ks);
            }
            assert(self@ =~= t);
        }
        true
    }

    /// Drops the event under `id`, touching no other event.
    pub fn discard(&mut self, id: &String) -> (r: Option<Event>)
        requires
            old(self).wf(),
        ensures
            final(self).wf(),
            final(self)@ == old(self)@.remove(id@),
            match r {
                Some(e) => old(self)@.contains_key(id@) && e@ == old(self)@[id@],
                None => !old(self)@.contains_key(id@),
            },
    {
        proof {
            self.lemma_view();
        }
        let ghost m = self@;
        let ghost ks0 = self.keys_view();
        let ghost es0 = self.events_view();
        let (found, pos) = search_sorted(&self.keys, id);
        if !found {
            assert(self@ =~= m.remove(id@));
            return None;
        }
        let ev = self.events.remove(pos);
        let _k = self.keys.remove(pos);
        proof {
            assert(self.keys_view() =~= ks0.remove(pos as int));
            assert(self.events_view() =~= es0.remove(pos as int));
            crate::ids::lemma_sorted_remove(ks0, pos as int);
            assert forall|i: int| 0 <= i < self.events@.len() implies (#[trigger] self.events@[i]).wf() by {
                if i < pos {
                    assert(self.events@[i] == old(self).events@[i]);
                    assert(old(self).events@[i].wf());
                } else {
                    assert(self.events@[i] == old(self).events@[i + 1]);
                    assert(old(self).events@[i + 1].wf());
                }
            }
            self.lemma_view();
            let ks = self.keys_view();
            crate::ids::lemma_sorted_no_duplicates(ks0);
            let t = m.remove(id@);
            assert forall|k: Seq<char>| #[trigger] self@.contains_key(k) <==> t.contains_key(k) by {
                if t.contains_key(k) {
                    let j = choose|j: int| 0 <= j < ks0.len() && ks0[j] == k;
                    if j < pos {
                        assert(ks[j] == k);
                    } else {
                        assert(j != pos);
                        assert(ks[j - 1] == k);
                    }
                    assert(ks.to_set().contains(k));
                }
                if self@.contains_key(k) {
                    let j = choose|j: int| 0 <= j < ks.len() && ks[j] == k;
                    if j < pos {
                        assert(ks0[j] == k);
                    } else {
                        assert(ks0[j + 1] == k);
                    }
                    assert(ks0.to_set().contains(k));
                }
            }
            assert forall|k: Seq<char>| #[trigger] self@.contains_key(k) implies self@[k] == t[k] by {
                let j = choose|j: int| 0 <= j < ks.len() && ks[j] == k;
                assert(self@[ks[j]] == self.events_view()[j]);
                if j < pos {
                    assert(ks[j] == ks0[j]);
                    assert(m[ks0[j]] == es0[j]);
                } else {
                    assert(ks[j] == ks0[j + 1]);
                    assert(m[ks0[j + 1]] == es0[j + 1]);
                }
            }
            assert(self@ =~= t);
            assert(ev@ == m[id@]);
        }
        Some(ev)
    }

    /// The keys of the events that name `id` as a parent.
    pub fn children_of(&self, id: &String) -> (r: IdSet)
        requires
            self.wf(),
        ensures
            r.wf(),
            r.set() == children_set(self@, id@),
    {
        proof {
            self.lemma_view();
        }
        let mut r = IdSet::new();
        let n = self.keys.len();
        let ghost ks = self.keys_view();
        for i in 0..n
            invariant
                n == self.keys@.len(),
                self.wf(),
                ks == self.keys_view(),
                ks.len() == n,
                self@.dom() == ks.to_set(),
                forall|j: int| 0 <= j < n ==> #[trigger] self@[ks[j]] == self.events_view()[j],
                r.wf(),
                r.set() == children_set(self@, id@).intersect(ks.subrange(0, i as int).to_set()),
        {
            assert(self.keys@[i as int]@ == ks[i as int]);
            assert(self.events@[i as int].wf());
            if self.events[i].parents.contains(id) {
                r.insert(self.keys[i].clone());
            }
            proof {
                assert(ks.subrange(0, i + 1) =~= ks.subrange(0, i as int).push(ks[i as int]));
                lemma_push_to_set(ks.subrange(0, i as int), ks[i as int]);
                assert(ks.to_set().contains(ks[i as int]));
                assert(self@[ks[i as int]] == self.events@[i as int]@);
                assert(r.set() =~= children_set(self@, id@).intersect(
                    ks.subrange(0, i + 1).to_set(),
                ));
            }
        }
        proof {
            assert(ks.subrange(0, n as int) =~= ks);
            assert(r.set() =~= children_set(self@, id@));
        }
        r
    }
}

} // verus!
