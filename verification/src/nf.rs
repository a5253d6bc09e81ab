//! Normal-form reduction: rewrites a causal DAG until nothing changes.
//!
//! Each round runs, in this order:
//! - C3: remove every no-op event, reconnecting its children to the nearest
//!   surviving ancestors;
//! - C1: merge events whose cones are isomorphic (equal cone hashes, from a
//!   table computed for the DAG being merged) into the least of them,
//!   redirecting the children of the others (identifiers, and so keys, stay
//!   as they are);
//! - C2: contract linear chains of pass-through events (no payload kind is a
//!   pass-through, so nothing is ever contracted);
//! - D: when C1, C2 and C3 are all disabled, recompute every cone hash.
//!
//! The rounds stop when a round leaves the number of events unchanged, or
//! when only C3 changed anything and no no-op is left.

use vstd::prelude::*;
use crate::ids::{EventId, IdSet, ids_view};
use crate::event::{Event, EventView, PayloadView};
use crate::dag::{CausalDag, compacted, redirected, children_set};
use crate::cone::{ConeHasher, sort_ids, id_le_rel, lemma_id_le_total, is_cone_table};

verus! {

/// Configuration of the reduction.
#[derive(Debug, Clone, Copy, PartialEq, Eq)]
pub struct NfConfig {
    /// Maximum number of rounds.
    pub max_iterations: usize,
    /// Whether to merge isomorphic cones (C1).
    pub enable_cone_merge: bool,
    /// Whether to contract linear chains (C2).
    pub enable_chain_contract: bool,
    /// Whether to remove no-ops (C3).
    pub enable_noop_elim: bool,
    /// Whether to look for missing ancestors in each round (a diagnostic that
    /// changes nothing).
    pub enable_closure_check: bool,
    /// Whether events are taken to be content-addressed: then C1 only runs
    /// while no-ops are present.
    pub assume_content_addressed: bool,
}

impl Default for NfConfig {
    fn default() -> (r: Self)
        ensures
            r.max_iterations == 1000,
            r.enable_cone_merge,
            r.enable_chain_contract,
            r.enable_noop_elim,
            r.enable_closure_check,
            r.assume_content_addressed,
    {
        NfConfig {
            max_iterations: 1000,
            enable_cone_merge: true,
            assume_content_addressed: true,
            enable_chain_contract: true,
            enable_noop_elim: true,
            enable_closure_check: true,
        }
    }
}

/// The default configuration.
pub open spec fn default_config() -> NfConfig {
    NfConfig {
        max_iterations: 1000,
        enable_cone_merge: true,
        enable_chain_contract: true,
        enable_noop_elim: true,
        enable_closure_check: true,
        assume_content_addressed: true,
    }
}

/// The normal form under the default configuration: the history without its
/// no-ops.
pub open spec fn nf_of(m: Map<Seq<char>, EventView>) -> Map<Seq<char>, EventView> {
    compacted(m, noop_keys(m))
}

/// Under the default configuration a reduction yields `nf_of`.
pub proof fn lemma_default_reduction(before: Map<Seq<char>, EventView>, after: Map<Seq<char>, EventView>, stats: NfStats)
    requires
        reduction(default_config(), before, after, stats),
    ensures
        after == nf_of(before),
        stats.iterations == 1,
        stats.cones_merged == 0,
        !has_noop(after),
{
}

/// A history without no-ops is its own normal form.
pub proof fn lemma_nf_of_noop_free(m: Map<Seq<char>, EventView>)
    requires
        !has_noop(m),
    ensures
        nf_of(m) == m,
{
    assert forall|k: Seq<char>| #[trigger] noop_keys(m).contains(k) implies !m.contains_key(k) by {
        assert(has_noop(m));
    }
}

/// The normal form is idempotent: reducing a reduced history changes
/// nothing, for every configuration under which cone merging cannot fire.
pub proof fn lemma_reduction_idempotent(cfg: NfConfig, m: Map<Seq<char>, EventView>)
    requires
        !cone_merge_may_fire(cfg, m),
    ensures
        !cone_merge_may_fire(cfg, reduced_without_merging(cfg, m)),
        reduced_without_merging(cfg, reduced_without_merging(cfg, m)) == reduced_without_merging(cfg, m),
{
    if cfg.enable_noop_elim {
        lemma_compacted_noop_free(m);
        lemma_nf_of_noop_free(compacted(m, noop_keys(m)));
    }
}

/// A reduction in which cone merging cannot fire keeps a causally closed
/// history causally closed.
pub proof fn lemma_reduction_keeps_closure(cfg: NfConfig, m: Map<Seq<char>, EventView>)
    requires
        m.dom().finite(),
        crate::dag::causally_closed(m),
    ensures
        crate::dag::causally_closed(reduced_without_merging(cfg, m)),
{
    crate::dag::lemma_compaction_keeps_closure(m, noop_keys(m));
}

/// Counts from one reduction.
#[derive(Debug, Clone, Copy, PartialEq, Eq)]
pub struct NfStats {
    pub iterations: usize,
    pub cones_merged: usize,
    pub chains_contracted: usize,
    pub noops_eliminated: usize,
    pub events_before: usize,
    pub events_after: usize,
}

/// The keys of the no-op events.
pub open spec fn noop_keys(m: Map<Seq<char>, EventView>) -> Set<Seq<char>> {
    Set::new(|k: Seq<char>| m.contains_key(k) && m[k].payload is Noop)
}

/// Some event is a no-op.
pub open spec fn has_noop(m: Map<Seq<char>, EventView>) -> bool {
    exists|k: Seq<char>| #[trigger] noop_keys(m).contains(k)
}

/// The events that are not no-ops and have a no-op parent.
pub open spec fn noop_children(m: Map<Seq<char>, EventView>) -> Set<Seq<char>> {
    Set::new(
        |k: Seq<char>|
            m.contains_key(k) && !(m[k].payload is Noop) && exists|p: Seq<char>|
                #[trigger] m[k].parents.contains(p) && noop_keys(m).contains(p),
    )
}

/// Merging `d` into `c`: every child of `d` has `d` replaced by `c` among
/// its parents (its identifier, and so its key, kept), and `d` itself is
/// dropped.
pub open spec fn merged_dup(m: Map<Seq<char>, EventView>, d: Seq<char>, c: Seq<char>) -> Map<Seq<char>, EventView> {
    Map::new(
        |k: Seq<char>| m.contains_key(k) && k != d,
        |k: Seq<char>|
            if m[k].parents.contains(d) {
                redirected(m[k], d, c)
            } else {
                m[k]
            },
    )
}

/// Merging each of `ds` into `c`, in order.
pub open spec fn merged_dups(m: Map<Seq<char>, EventView>, ds: Seq<Seq<char>>, c: Seq<char>) -> Map<Seq<char>, EventView>
    decreases ds.len(),
{
    if ds.len() == 0 {
        m
    } else {
        merged_dup(merged_dups(m, ds.drop_last(), c), ds.last(), c)
    }
}

/// The children redirected while merging each of `ds` into `c`.
pub open spec fn dups_dirty(m: Map<Seq<char>, EventView>, ds: Seq<Seq<char>>, c: Seq<char>) -> Set<Seq<char>>
    decreases ds.len(),
{
    if ds.len() == 0 {
        Set::empty()
    } else {
        dups_dirty(m, ds.drop_last(), c).union(children_set(merged_dups(m, ds.drop_last(), c), ds.last()))
    }
}

/// A group in increasing order.
pub open spec fn group_sorted(g: Seq<Seq<char>>) -> Seq<Seq<char>> {
    g.sort_by(id_le_rel())
}

/// Merging a group: with two members or more, every member but the least is
/// merged into the least, in increasing order; a smaller group changes
/// nothing.
pub open spec fn merged_group(m: Map<Seq<char>, EventView>, g: Seq<Seq<char>>) -> Map<Seq<char>, EventView> {
    let s = group_sorted(g);
    if g.len() < 2 {
        m
    } else {
        merged_dups(m, s.subrange(1, s.len() as int), s[0])
    }
}

/// The children redirected while merging a group.
pub open spec fn group_dirty(m: Map<Seq<char>, EventView>, g: Seq<Seq<char>>) -> Set<Seq<char>> {
    let s = group_sorted(g);
    if g.len() < 2 {
        Set::empty()
    } else {
        dups_dirty(m, s.subrange(1, s.len() as int), s[0])
    }
}

/// Merging the groups one after another.
pub open spec fn merged_groups(m: Map<Seq<char>, EventView>, gs: Seq<Seq<Seq<char>>>) -> Map<Seq<char>, EventView>
    decreases gs.len(),
{
    if gs.len() == 0 {
        m
    } else {
        merged_group(merged_groups(m, gs.drop_last()), gs.last())
    }
}

/// The children redirected while merging the groups.
pub open spec fn groups_dirty(m: Map<Seq<char>, EventView>, gs: Seq<Seq<Seq<char>>>) -> Set<Seq<char>>
    decreases gs.len(),
{
    if gs.len() == 0 {
        Set::empty()
    } else {
        groups_dirty(m, gs.drop_last()).union(group_dirty(merged_groups(m, gs.drop_last()), gs.last()))
    }
}

/// A count capped at the largest `usize`.
pub open spec fn capped(x: int) -> int {
    if x > usize::MAX {
        usize::MAX as int
    } else {
        x
    }
}

/// A count capped at the largest `u64`.
pub open spec fn capped_u64(x: int) -> int {
    if x > u64::MAX {
        u64::MAX as int
    } else {
        x
    }
}

/// The identifiers of a vector of groups.
pub open spec fn groups_view(gs: Seq<Vec<EventId>>) -> Seq<Seq<Seq<char>>> {
    gs.map_values(|g: Vec<EventId>| ids_view(g@))
}

/// Merges each group of isomorphic events, in order: the least member of a
/// group of two or more stays, every other member is merged into it.
/// Returns how many events were merged away (members no longer present are
/// not counted) and the keys of the events whose parents were redirected.
pub fn merge_cone_groups(dag: &mut CausalDag, groups: &Vec<Vec<EventId>>) -> (r: (usize, IdSet))
    requires
        old(dag).wf(),
    ensures
        final(dag).wf(),
        final(dag)@ == merged_groups(old(dag)@, groups_view(groups@)),
        r.1.wf(),
        r.1.set() == groups_dirty(old(dag)@, groups_view(groups@)),
        r.0 == old(dag)@.len() - final(dag)@.len(),
{
    let ghost m0 = dag@;
    let _size = dag.len();
    proof {
        dag.lemma_view();
    }
    let ghost gv = groups_view(groups@);
    let mut merged: usize = 0;
    let mut dirty = IdSet::new();
    let n = groups.len();
    for i in 0..n
        invariant
            n == groups@.len(),
            gv == groups_view(groups@),
            dag.wf(),
            dag@ == merged_groups(m0, gv.subrange(0, i as int)),
            dirty.wf(),
            dirty.set() == groups_dirty(m0, gv.subrange(0, i as int)),
            m0.dom().finite(),
            m0.len() <= usize::MAX,
            merged == m0.len() - dag@.len(),
    {
        let ghost pre = gv.subrange(0, i as int);
        let ghost gi = gv[i as int];
        proof {
            let nxt = gv.subrange(0, i + 1);
            assert(nxt.drop_last() =~= pre);
            assert(nxt.last() == gi);
            assert(ids_view(groups@[i as int]@) == gi);
        }
        let group = &groups[i];
        if group.len() >= 2 {
            let sorted = sort_ids(group);
            let ghost s = ids_view(sorted@);
            let ghost mi = dag@;
            let ghost di = dirty.set();
            proof {
                assert(s == group_sorted(gi));
                lemma_id_le_total();
                gi.lemma_sort_by_ensures(id_le_rel());
                gi.to_multiset_ensures();
                s.to_multiset_ensures();
                assert(s.len() == gi.len());
                assert(gi.len() == group@.len());
            }
            let ns = sorted.len();
            let canonical = &sorted[0];
            for j in 1..ns
                invariant
                    ns == s.len(),
                    s == ids_view(sorted@),
                    ns >= 2,
                    canonical@ == s[0],
                    dag.wf(),
                    dag@ == merged_dups(mi, s.subrange(1, j as int), s[0]),
                    dirty.wf(),
                    dirty.set() == di.union(dups_dirty(mi, s.subrange(1, j as int), s[0])),
                    m0.dom().finite(),
                    m0.len() <= usize::MAX,
                    merged == m0.len() - dag@.len(),
            {
                let dup = &sorted[j];
                let ghost mb = dag@;
                let ghost db = dirty.set();
                let kids = dag.children_of(dup);
                let nk = kids.len();
                proof {
                    kids.lemma_len();
                }
                for q in 0..nk
                    invariant
                        nk == kids@.len(),
                        kids.wf(),
                        kids.set() == children_set(mb, dup@),
                        dag.wf(),
                        dag@ == Map::new(
                            |k: Seq<char>| mb.contains_key(k),
                            |k: Seq<char>|
                                if kids@.subrange(0, q as int).contains(k) {
                                    redirected(mb[k], dup@, canonical@)
                                } else {
                                    mb[k]
                                },
                        ),
                        dirty.wf(),
                        dirty.set() == db.union(kids@.subrange(0, q as int).to_set()),
                {
                    let k = kids.get(q);
                    let ghost cur = dag@;
                    proof {
                        assert(kids.set().contains(k@));
                        assert(!kids@.subrange(0, q as int).contains(k@)) by {
                            crate::ids::lemma_sorted_no_duplicates(kids@);
                            if kids@.subrange(0, q as int).contains(k@) {
                                let t = choose|t: int| 0 <= t < q && kids@.subrange(0, q as int)[t] == k@;
                                assert(kids@[t] == kids@[q as int]);
                            }
                        }
                        assert(cur[k@] == mb[k@]);
                    }
                    let changed = dag.redirect_parent(k, dup, canonical);
                    assert(changed);
                    dirty.insert(k.clone());
                    proof {
                        let nx = kids@.subrange(0, q + 1);
                        assert(nx =~= kids@.subrange(0, q as int).push(k@));
                        assert forall|x: Seq<char>| nx.contains(x) <==> kids@.subrange(0, q as int).contains(x) || x == k@ by {
                                if nx.contains(x) {
                                    let t = choose|t: int| 0 <= t < nx.len() && nx[t] == x;
                                    if t < q {
                                        assert(kids@.subrange(0, q as int)[t] == x);
                                    }
                                }
                                if kids@.subrange(0, q as int).contains(x) {
                                    let t = choose|t: int| 0 <= t < q && kids@.subrange(0, q as int)[t] == x;
                                    assert(nx[t] == x);
                                }
                                if x == k@ {
                                    assert(nx[q as int] == x);
                                }
                        }
                        assert(dag@ =~= Map::new(
                            |k: Seq<char>| mb.contains_key(k),
                            |k: Seq<char>|
                                if nx.contains(k) {
                                    redirected(mb[k], dup@, canonical@)
                                } else {
                                    mb[k]
                                },
                        ));
                        assert(dirty.set() =~= db.union(nx.to_set()));
                    }
                }
                let ghost before_discard = dag@;
                proof {
                    dag.lemma_view();
                    assert(dag@.dom() =~= mb.dom());
                }
                let gone = dag.discard(dup);
                proof {
                    dag.lemma_view();
                }
                if gone.is_some() {
                    proof {
                        assert(dag@.len() == before_discard.len() - 1);
                    }
                    merged = merged + 1;
                } else {
                    proof {
                        assert(dag@ =~= before_discard);
                    }
                }
                proof {
                    let sj = s.subrange(1, j + 1);
                    assert(sj.drop_last() =~= s.subrange(1, j as int));
                    assert(sj.last() == dup@);
                    assert(kids@.subrange(0, nk as int) =~= kids@);
                    assert(dag@ =~= merged_dup(mb, dup@, canonical@)) by {
                        assert forall|k: Seq<char>| #[trigger] kids@.contains(k) <==> mb.contains_key(k) && mb[k].parents.contains(dup@) by {
                            assert(kids.set().contains(k) == kids@.contains(k));
                        }
                    }
                    assert(kids.set() == kids@.to_set());
                    assert(dirty.set() =~= di.union(dups_dirty(mi, sj, s[0])));
                }
            }
            proof {
                assert(s.subrange(1, ns as int) == s.subrange(1, s.len() as int));
                assert(dag@ == merged_group(mi, gi));
                assert(dirty.set() == di.union(group_dirty(mi, gi)));
            }
        } else {
            proof {
                assert(gi.len() == group@.len()) by {
                    assert(ids_view(group@).len() == group@.len());
                }
            }
        }
    }
    proof {
        assert(gv.subrange(0, n as int) =~= gv);
    }
    (merged, dirty)
}


/// The keys of the no-ops form a finite set no larger than the DAG.
pub proof fn lemma_noop_keys_bounded(m: Map<Seq<char>, EventView>)
    requires
        m.dom().finite(),
    ensures
        noop_keys(m).finite(),
        noop_keys(m).len() <= m.len(),
        has_noop(m) <==> noop_keys(m).len() > 0,
{
    assert(noop_keys(m).subset_of(m.dom()));
    vstd::set_lib::lemma_len_subset(noop_keys(m), m.dom());
    if has_noop(m) {
        let k = choose|k: Seq<char>| #[trigger] noop_keys(m).contains(k);
        vstd::set::axiom_set_remove_len(noop_keys(m), k);
    }
    if noop_keys(m).len() > 0 {
        let k = noop_keys(m).choose();
        assert(noop_keys(m).contains(k));
    }
}

/// Removing the no-ops removes exactly as many events as there are no-ops.
pub proof fn lemma_compacted_len(m: Map<Seq<char>, EventView>)
    requires
        m.dom().finite(),
    ensures
        compacted(m, noop_keys(m)).len() + noop_keys(m).len() == m.len(),
{
    let t = noop_keys(m);
    lemma_noop_keys_bounded(m);
    if forall|k: Seq<char>| #[trigger] t.contains(k) ==> !m.contains_key(k) {
        assert(t =~= Set::empty());
    } else {
        let c = compacted(m, t);
        assert(c.dom() =~= m.dom().difference(t));
        vstd::set_lib::lemma_set_difference_len(m.dom(), t);
        assert(m.dom().intersect(t) =~= t);
    }
}

/// A DAG whose events all come, with their payloads, from a DAG without
/// no-ops has no no-op either.
pub proof fn lemma_no_noop_kept(a: Map<Seq<char>, EventView>, b: Map<Seq<char>, EventView>)
    requires
        !has_noop(a),
        forall|k: Seq<char>| #[trigger] b.contains_key(k) ==> a.contains_key(k) && b[k].payload == a[k].payload,
    ensures
        !has_noop(b),
{
    if has_noop(b) {
        let k = choose|k: Seq<char>| #[trigger] noop_keys(b).contains(k);
        assert(noop_keys(a).contains(k));
    }
}

/// Compaction keeps a subset of the events, with their payloads.
pub proof fn lemma_compacted_keeps_payloads(m: Map<Seq<char>, EventView>, t: Set<Seq<char>>)
    ensures
        forall|k: Seq<char>| #[trigger] compacted(m, t).contains_key(k) ==> m.contains_key(k)
            && compacted(m, t)[k].payload == m[k].payload,
{
}

/// Removing every no-op leaves none.
pub proof fn lemma_compacted_noop_free(m: Map<Seq<char>, EventView>)
    ensures
        !has_noop(compacted(m, noop_keys(m))),
{
    let c = compacted(m, noop_keys(m));
    if has_noop(c) {
        let k = choose|k: Seq<char>| #[trigger] noop_keys(c).contains(k);
        assert(noop_keys(m).contains(k));
    }
}

/// Merging keeps a subset of the events, with their payloads.
pub proof fn lemma_merged_dups_keeps_payloads(m: Map<Seq<char>, EventView>, ds: Seq<Seq<char>>, c: Seq<char>)
    ensures
        forall|k: Seq<char>| #[trigger] merged_dups(m, ds, c).contains_key(k) ==> m.contains_key(k)
            && merged_dups(m, ds, c)[k].payload == m[k].payload,
    decreases ds.len(),
{
    if ds.len() > 0 {
        lemma_merged_dups_keeps_payloads(m, ds.drop_last(), c);
    }
}

/// Merging groups keeps a subset of the events, with their payloads.
pub proof fn lemma_merged_groups_keeps_payloads(m: Map<Seq<char>, EventView>, gs: Seq<Seq<Seq<char>>>)
    ensures
        forall|k: Seq<char>| #[trigger] merged_groups(m, gs).contains_key(k) ==> m.contains_key(k)
            && merged_groups(m, gs)[k].payload == m[k].payload,
    decreases gs.len(),
{
    if gs.len() > 0 {
        lemma_merged_groups_keeps_payloads(m, gs.drop_last());
        let m1 = merged_groups(m, gs.drop_last());
        let g = group_sorted(gs.last());
        if gs.last().len() >= 2 {
            lemma_merged_dups_keeps_payloads(m1, g.subrange(1, g.len() as int), g[0]);
        }
    }
}

/// A group already in strictly increasing order is its own sorted form.
proof fn lemma_group_sorted_id(g: Seq<Seq<char>>)
    requires
        crate::ids::strictly_sorted(g),
    ensures
        group_sorted(g) == g,
{
    let s = group_sorted(g);
    lemma_id_le_total();
    g.lemma_sort_by_ensures(id_le_rel());
    g.to_multiset_ensures();
    s.to_multiset_ensures();
    crate::ids::lemma_sorted_no_duplicates(g);
    g.lemma_multiset_has_no_duplicates();
    s.lemma_multiset_has_no_duplicates_conv();
    assert(s.to_set() =~= g.to_set()) by {
        assert forall|x: Seq<char>| s.to_set().contains(x) <==> g.to_set().contains(x) by {
            assert(s.contains(x) <==> s.to_multiset().count(x) > 0);
            assert(g.contains(x) <==> g.to_multiset().count(x) > 0);
        }
    }
    assert(crate::ids::strictly_sorted(s)) by {
        assert forall|i: int, j: int| 0 <= i < j < s.len() implies crate::ids::id_lt(#[trigger] s[i], #[trigger] s[j]) by {
            assert(id_le_rel()(s[i], s[j]));
            assert(s[i] != s[j]);
        }
    }
    crate::ids::lemma_sorted_unique(s, g);
}

/// Merging `d` into a present `c` keeps a causally closed DAG closed.
proof fn lemma_merged_dup_keeps_closure(m: Map<Seq<char>, EventView>, d: Seq<char>, c: Seq<char>)
    requires
        m.contains_key(c),
        c != d,
        forall|k: Seq<char>| #[trigger] m.contains_key(k) ==> m[k].parents.to_set().finite(),
    ensures
        crate::dag::causally_closed(m) ==> crate::dag::causally_closed(merged_dup(m, d, c)),
{
    let r = merged_dup(m, d, c);
    assert forall|p: Seq<char>, k: Seq<char>| crate::dag::causally_closed(m) && #[trigger] crate::dag::parent_of(r, p, k) implies r.contains_key(p) by {
        let ps = m[k].parents;
        if ps.contains(d) {
            let s2 = ps.to_set().remove(d).insert(c);
            crate::ids::lemma_sorted_of_finite(s2);
            assert(r[k].parents.to_set().contains(p));
            assert(s2.contains(p));
            if p != c {
                assert(crate::dag::parent_of(m, p, k));
            }
        } else {
            assert(crate::dag::parent_of(m, p, k));
        }
    }
}

/// Merging each of `ds` into `c`, which is present and not among them,
/// keeps a causally closed DAG closed, and `c` present.
proof fn lemma_merged_dups_keeps_closure(m: Map<Seq<char>, EventView>, ds: Seq<Seq<char>>, c: Seq<char>)
    requires
        m.contains_key(c),
        !ds.contains(c),
        forall|k: Seq<char>| #[trigger] m.contains_key(k) ==> m[k].parents.to_set().finite(),
    ensures
        crate::dag::causally_closed(m) ==> crate::dag::causally_closed(merged_dups(m, ds, c)),
        merged_dups(m, ds, c).contains_key(c),
        forall|k: Seq<char>| #[trigger] merged_dups(m, ds, c).contains_key(k) ==> merged_dups(m, ds, c)[k].parents.to_set().finite(),
        forall|k: Seq<char>| #[trigger] merged_dups(m, ds, c).contains_key(k) <==> m.contains_key(k) && !ds.contains(k),
    decreases ds.len(),
{
    if ds.len() > 0 {
        let p = ds.drop_last();
        assert(!p.contains(c)) by {
            if p.contains(c) {
                let i = choose|i: int| 0 <= i < p.len() && p[i] == c;
                assert(ds[i] == c);
            }
        }
        lemma_merged_dups_keeps_closure(m, p, c);
        let m1 = merged_dups(m, p, c);
        assert(ds.last() != c) by {
            assert(ds[ds.len() - 1] == ds.last());
        }
        lemma_merged_dup_keeps_closure(m1, ds.last(), c);
        let r = merged_dups(m, ds, c);
        assert forall|k: Seq<char>| #[trigger] r.contains_key(k) implies r[k].parents.to_set().finite() by {
            if m1[k].parents.contains(ds.last()) {
                crate::ids::lemma_sorted_of_finite(m1[k].parents.to_set().remove(ds.last()).insert(c));
            }
        }
        assert forall|k: Seq<char>| #[trigger] r.contains_key(k) <==> m.contains_key(k) && !ds.contains(k) by {
            if ds.contains(k) {
                let i = choose|i: int| 0 <= i < ds.len() && ds[i] == k;
                if i < p.len() {
                    assert(p[i] == k);
                }
            }
            if p.contains(k) {
                let i = choose|i: int| 0 <= i < p.len() && p[i] == k;
                assert(ds[i] == k);
            }
        }
    }
}

/// `k` is a member, other than the least, of one of the groups `gs`.
pub open spec fn merged_away(gs: Seq<Seq<Seq<char>>>, k: Seq<char>) -> bool {
    exists|j: int, t: int| 0 <= j < gs.len() && 1 <= t < gs[j].len() && #[trigger] gs[j][t] == k
}

/// Merging whole classes of events sharing a cached hash, all of them
/// present, keeps a causally closed DAG closed; exactly the members other
/// than the least of each group are dropped.
proof fn lemma_merged_groups_keeps_closure(m: Map<Seq<char>, EventView>, c: Map<Seq<char>, Seq<char>>, gs: Seq<Seq<Seq<char>>>)
    requires
        forall|k: Seq<char>| #[trigger] m.contains_key(k) ==> m[k].parents.to_set().finite(),
        forall|k: Seq<char>| #[trigger] c.contains_key(k) ==> m.contains_key(k),
        forall|i: int| 0 <= i < gs.len() ==> crate::cone::is_hash_group(c, #[trigger] gs[i]),
        forall|i: int, j: int| 0 <= i < j < gs.len() ==> crate::ids::id_lt(gs[i][0], gs[j][0]),
    ensures
        crate::dag::causally_closed(m) ==> crate::dag::causally_closed(merged_groups(m, gs)),
        forall|k: Seq<char>| #[trigger] merged_groups(m, gs).contains_key(k) ==> merged_groups(m, gs)[k].parents.to_set().finite(),
        forall|k: Seq<char>| #[trigger] merged_groups(m, gs).contains_key(k) <==> m.contains_key(k) && !merged_away(gs, k),
    decreases gs.len(),
{
    if gs.len() > 0 {
        let p = gs.drop_last();
        let n = p.len() as int;
        let g = gs[n];
        assert(g == gs.last());
        assert forall|i: int| 0 <= i < p.len() implies crate::cone::is_hash_group(c, #[trigger] p[i]) by {
            assert(p[i] == gs[i]);
        }
        assert forall|i: int, j: int| 0 <= i < j < p.len() implies crate::ids::id_lt(p[i][0], p[j][0]) by {
            assert(p[i] == gs[i] && p[j] == gs[j]);
        }
        lemma_merged_groups_keeps_closure(m, c, p);
        let m1 = merged_groups(m, p);
        assert(crate::cone::is_hash_group(c, g));
        lemma_group_sorted_id(g);
        let ds = g.subrange(1, g.len() as int);
        // the least member is still present
        assert(m.contains_key(g[0]));
        assert(!merged_away(p, g[0])) by {
            if merged_away(p, g[0]) {
                let (j, t) = choose|j: int, t: int| 0 <= j < p.len() && 1 <= t < p[j].len() && #[trigger] p[j][t] == g[0];
                let h = p[j];
                assert(h == gs[j]);
                assert(crate::cone::is_hash_group(c, h));
                assert(h.contains(g[0]));
                assert(g.contains(g[0]));
                assert(h.to_set() =~= g.to_set()) by {
                    assert forall|x: Seq<char>| h.to_set().contains(x) <==> g.to_set().contains(x) by {
                        assert(h.contains(x) <==> c.contains_key(x) && c[x] == c[h[0]]);
                        assert(g.contains(x) <==> c.contains_key(x) && c[x] == c[g[0]]);
                    }
                }
                crate::ids::lemma_sorted_unique(h, g);
                assert(crate::ids::id_lt(gs[j][0], gs[n][0]));
                crate::ids::lemma_id_lt_irrefl(g[0]);
            }
        }
        assert(!ds.contains(g[0])) by {
            if ds.contains(g[0]) {
                let t = choose|t: int| 0 <= t < ds.len() && ds[t] == g[0];
                assert(g[t + 1] == g[0]);
                assert(crate::ids::id_lt(g[0], g[t + 1]));
                crate::ids::lemma_id_lt_irrefl(g[0]);
            }
        }
        lemma_merged_dups_keeps_closure(m1, ds, g[0]);
        assert(merged_groups(m, gs) == merged_dups(m1, ds, g[0]));
        let r = merged_groups(m, gs);
        assert forall|k: Seq<char>| #[trigger] r.contains_key(k) <==> m.contains_key(k) && !merged_away(gs, k) by {
            if merged_away(gs, k) {
                let (j, t) = choose|j: int, t: int| 0 <= j < gs.len() && 1 <= t < gs[j].len() && #[trigger] gs[j][t] == k;
                if j < n {
                    assert(p[j] == gs[j]);
                    assert(merged_away(p, k));
                } else {
                    assert(ds[t - 1] == k);
                }
            }
            if merged_away(p, k) {
                let (j, t) = choose|j: int, t: int| 0 <= j < p.len() && 1 <= t < p[j].len() && #[trigger] p[j][t] == k;
                assert(gs[j] == p[j]);
                assert(merged_away(gs, k));
            }
            if ds.contains(k) {
                let t = choose|t: int| 0 <= t < ds.len() && ds[t] == k;
                assert(gs[n][t + 1] == k);
                assert(merged_away(gs, k));
            }
        }
    }
}

/// True iff some event of `dag` is a no-op.
pub fn has_noop_event(dag: &CausalDag) -> (b: bool)
    requires
        dag.wf(),
    ensures
        b == has_noop(dag@),
{
    proof {
        dag.lemma_view();
    }
    let n = dag.len();
    for i in 0..n
        invariant
            dag.wf(),
            n == dag@.len(),
            dag@.dom() == dag.keys_view().to_set(),
            n == dag.keys_view().len(),
            forall|q: int| 0 <= q < i ==> !(dag@[#[trigger] dag.keys_view()[q]].payload is Noop),
    {
        let e = dag.event_at(i);
        if e.payload.is_noop() {
            proof {
                let k = dag.keys_view()[i as int];
                assert(dag.keys_view().to_set().contains(k));
                assert(noop_keys(dag@).contains(k));
            }
            return true;
        }
    }
    proof {
        if has_noop(dag@) {
            let k = choose|k: Seq<char>| #[trigger] noop_keys(dag@).contains(k);
            assert(dag.keys_view().to_set().contains(k));
            let q = choose|q: int| 0 <= q < dag.keys_view().len() && dag.keys_view()[q] == k;
        }
    }
    false
}

/// The keys of the no-op events, in increasing order.
fn noop_tombstones(dag: &CausalDag) -> (r: IdSet)
    requires
        dag.wf(),
    ensures
        r.wf(),
        r.set() == noop_keys(dag@),
{
    proof {
        dag.lemma_view();
    }
    let n = dag.len();
    let mut t = IdSet::new();
    for i in 0..n
        invariant
            dag.wf(),
            n == dag@.len(),
            dag@.dom() == dag.keys_view().to_set(),
            n == dag.keys_view().len(),
            t.wf(),
            t.set() == noop_keys(dag@).intersect(dag.keys_view().subrange(0, i as int).to_set()),
    {
        let k = dag.key_at(i);
        let e = dag.event_at(i);
        let ghost tb = t.set();
        if e.payload.is_noop() {
            t.insert(k.clone());
        }
        proof {
            let ks = dag.keys_view();
            assert(ks.subrange(0, i + 1) =~= ks.subrange(0, i as int).push(ks[i as int]));
            crate::ids::lemma_push_to_set(ks.subrange(0, i as int), ks[i as int]);
            assert(t.set() =~= noop_keys(dag@).intersect(ks.subrange(0, i + 1).to_set()));
        }
    }
    proof {
        assert(dag.keys_view().subrange(0, n as int) =~= dag.keys_view());
        assert(t.set() =~= noop_keys(dag@));
    }
    t
}

/// The events that are not no-ops and have a parent among `t`, the no-op
/// keys.
fn noop_children_of(dag: &CausalDag, t: &IdSet) -> (r: IdSet)
    requires
        dag.wf(),
        t.wf(),
        t.set() == noop_keys(dag@),
    ensures
        r.wf(),
        r.set() == noop_children(dag@),
{
    proof {
        dag.lemma_view();
    }
    let ghost m = dag@;
    let n = dag.len();
    let mut r = IdSet::new();
    for i in 0..n
        invariant
            dag.wf(),
            m == dag@,
            t.wf(),
            t.set() == noop_keys(m),
            n == m.len(),
            m.dom() == dag.keys_view().to_set(),
            n == dag.keys_view().len(),
            r.wf(),
            r.set() == noop_children(m).intersect(dag.keys_view().subrange(0, i as int).to_set()),
    {
        let k = dag.key_at(i);
        let e = dag.event_at(i);
        let ghost rb = r.set();
        if !e.payload.is_noop() {
            let np = e.parents.len();
            let mut hit = false;
            for j in 0..np
                invariant
                    np == e@.parents.len(),
                    t.wf(),
                    hit == exists|q: int| 0 <= q < j && t.set().contains(#[trigger] e@.parents[q]),
            {
                let p = e.parents.get(j);
                if t.contains(p) {
                    hit = true;
                }
            }
            if hit {
                r.insert(k.clone());
            }
            proof {
                assert(hit == exists|p: Seq<char>| #[trigger] m[k@].parents.contains(p) && noop_keys(m).contains(p)) by {
                    if hit {
                        let q = choose|q: int| 0 <= q < np && t.set().contains(#[trigger] e@.parents[q]);
                        assert(m[k@].parents.contains(e@.parents[q]));
                    }
                    if exists|p: Seq<char>| #[trigger] m[k@].parents.contains(p) && noop_keys(m).contains(p) {
                        let p = choose|p: Seq<char>| #[trigger] m[k@].parents.contains(p) && noop_keys(m).contains(p);
                        let q = choose|q: int| 0 <= q < np && e@.parents[q] == p;
                        assert(t.set().contains(e@.parents[q]));
                    }
                }
            }
        }
        proof {
            let ks = dag.keys_view();
            assert(ks.subrange(0, i + 1) =~= ks.subrange(0, i as int).push(ks[i as int]));
            crate::ids::lemma_push_to_set(ks.subrange(0, i as int), ks[i as int]);
            assert(r.set() =~= noop_children(m).intersect(ks.subrange(0, i + 1).to_set()));
        }
    }
    proof {
        assert(dag.keys_view().subrange(0, n as int) =~= dag.keys_view());
        assert(r.set() =~= noop_children(m));
    }
    r
}

/// Cone merging can fire during a reduction of `m` under `cfg`: cone merging
/// is enabled, and either events are not taken to be content-addressed, or
/// no-ops are kept and present.
pub open spec fn cone_merge_may_fire(cfg: NfConfig, m: Map<Seq<char>, EventView>) -> bool {
    cfg.enable_cone_merge && (!cfg.assume_content_addressed || (!cfg.enable_noop_elim && has_noop(m)))
}

/// What a reduction in which cone merging cannot fire yields: the DAG without
/// its no-ops where C3 is enabled, else the DAG unchanged.
pub open spec fn reduced_without_merging(cfg: NfConfig, m: Map<Seq<char>, EventView>) -> Map<Seq<char>, EventView> {
    if cfg.enable_noop_elim {
        compacted(m, noop_keys(m))
    } else {
        m
    }
}

/// What a reduction under `cfg` of `before` into `after` with counts `stats`
/// guarantees: the counts add up; closure is kept; without cone merging the
/// result is `reduced_without_merging`; with it, the result is reached by
/// merging rounds and, unless the iteration cap was reached, is a fixpoint of
/// a round (a normal form).
pub open spec fn reduction(
    cfg: NfConfig,
    before: Map<Seq<char>, EventView>,
    after: Map<Seq<char>, EventView>,
    stats: NfStats,
) -> bool {
    &&& stats.events_before == before.len()
    &&& stats.events_after == after.len()
    &&& stats.chains_contracted == 0
    &&& stats.events_before == stats.events_after + stats.cones_merged + stats.chains_contracted
        + stats.noops_eliminated
    &&& crate::dag::causally_closed(before) ==> crate::dag::causally_closed(after)
    &&& cfg.max_iterations == 0 ==> after == before && stats.iterations == 0 && stats.noops_eliminated == 0
        && stats.cones_merged == 0
    &&& cfg.max_iterations > 0 ==> 1 <= stats.iterations <= cfg.max_iterations
    &&& forall|k: Seq<char>|
        #[trigger] after.contains_key(k) ==> before.contains_key(k) && after[k].payload == before[k].payload
    &&& cfg.enable_noop_elim && cfg.max_iterations > 0 ==> !has_noop(after) && stats.noops_eliminated
        == noop_keys(before).len()
    &&& !cfg.enable_noop_elim ==> stats.noops_eliminated == 0
    &&& cfg.max_iterations > 0 && cone_merge_may_fire(cfg, before) ==> exists|ms: Seq<Map<Seq<char>, EventView>>|
        #[trigger] merge_run(cfg, ms, stats.iterations as nat) && ms[0] == before && ms.last() == after
    &&& cfg.max_iterations > 0 && cone_merge_may_fire(cfg, before) ==> stats.iterations == cfg.max_iterations
        || merge_round(cfg, after, after)
    &&& cfg.max_iterations > 0 && !cone_merge_may_fire(cfg, before) ==> {
        &&& stats.iterations == 1
        &&& stats.cones_merged == 0
        &&& after == reduced_without_merging(cfg, before)
    }
}

/// One merging round under `cfg` from `m` to `m2`: the no-ops are removed
/// where C3 is enabled, then every group of events sharing a cone hash in
/// that DAG is merged into its least member.
pub open spec fn merge_round(cfg: NfConfig, m: Map<Seq<char>, EventView>, m2: Map<Seq<char>, EventView>) -> bool {
    let m3 = reduced_without_merging(cfg, m);
    exists|c: Map<Seq<char>, Seq<char>>, gs: Seq<Seq<Seq<char>>>|
        #[trigger] crate::cone::is_cone_table(m3, c) && #[trigger] hash_groups_of(c, gs) && m2 == merged_groups(m3, gs)
}

/// `ms` are the DAGs met in `n` merging rounds under `cfg`, from `ms[0]`.
pub open spec fn merge_run(cfg: NfConfig, ms: Seq<Map<Seq<char>, EventView>>, n: nat) -> bool {
    &&& ms.len() == n + 1
    &&& forall|i: int| 0 <= i < n ==> #[trigger] merge_round(cfg, ms[i], ms[i + 1])
}

/// `gs` is what `ConeHasher::isomorphic_groups` gives for the hashes `c`.
pub open spec fn hash_groups_of(c: Map<Seq<char>, Seq<char>>, gs: Seq<Seq<Seq<char>>>) -> bool {
    &&& forall|i: int| 0 <= i < gs.len() ==> crate::cone::is_hash_group(c, #[trigger] gs[i])
    &&& forall|k: Seq<char>| #[trigger] crate::cone::shares_hash(c, k) ==> exists|i: int|
        0 <= i < gs.len() && #[trigger] gs[i].contains(k)
    &&& forall|i: int, j: int| 0 <= i < j < gs.len() ==> crate::ids::id_lt(gs[i][0], gs[j][0])
}

/// The normal-form operator, with the cone hashes it keeps between phases.
pub struct NormalForm {
    pub config: NfConfig,
    cone_hasher: ConeHasher,
}

impl NormalForm {
    /// Well-formedness of the cached cone hashes.
    pub closed spec fn wf(&self) -> bool {
        self.cone_hasher.wf()
    }

    /// The configuration.
    pub closed spec fn settings(&self) -> NfConfig {
        self.config
    }

    /// An operator with the given configuration and no cached hashes.
    pub fn new(config: NfConfig) -> (r: Self)
        ensures
            r.settings() == config,
            r.wf(),
    {
        NormalForm { config, cone_hasher: ConeHasher::new() }
    }

    /// Computes the normal form of `dag` in place and returns counts.
    pub fn reduce(&mut self, dag: &mut CausalDag) -> (stats: NfStats)
        requires
            old(self).wf(),
            old(dag).wf(),
        ensures
            final(self).wf(),
            final(self).settings() == old(self).settings(),
            final(dag).wf(),
            reduction(old(self).settings(), old(dag)@, final(dag)@, stats),
    {
        let ghost m0 = dag@;
        let ghost cfg = self.config;
        let ghost fires = cone_merge_may_fire(cfg, m0);
        proof {
            dag.lemma_view();
            lemma_noop_keys_bounded(m0);
        }
        let events_before = dag.len();
        let mut stats = NfStats {
            iterations: 0,
            cones_merged: 0,
            chains_contracted: 0,
            noops_eliminated: 0,
            events_before,
            events_after: 0,
        };
        let mut has_noops = self.config.enable_cone_merge && has_noop_event(dag);
        let max_iter = self.config.max_iterations;
        let mut iter: usize = 0;
        let ghost mut ms: Seq<Map<Seq<char>, EventView>> = seq![m0];
        while iter < max_iter
            invariant_except_break
                stats.iterations == iter,
                !fires ==> iter == 0,
            invariant
                self.wf(),
                self.config == cfg,
                fires == cone_merge_may_fire(cfg, m0),
                dag.wf(),
                max_iter == cfg.max_iterations,
                iter <= max_iter,
                m0.dom().finite(),
                noop_keys(m0).len() <= m0.len(),
                stats.events_before == m0.len(),
                stats.chains_contracted == 0,
                m0.len() == dag@.len() + stats.cones_merged + stats.noops_eliminated,
                stats.iterations <= max_iter,
                stats.iterations == 0 ==> dag@ == m0 && stats.noops_eliminated == 0 && stats.cones_merged == 0
                    && has_noops == (cfg.enable_cone_merge && has_noop(m0)),
                forall|k: Seq<char>|
                    #[trigger] dag@.contains_key(k) ==> m0.contains_key(k) && dag@[k].payload == m0[k].payload,
                cfg.enable_noop_elim && stats.iterations > 0 ==> !has_noop(dag@),
                stats.noops_eliminated == (if cfg.enable_noop_elim && stats.iterations > 0 {
                    noop_keys(m0).len() as int
                } else {
                    0int
                }),
                has_noops ==> cfg.enable_cone_merge,
                fires ==> cfg.enable_cone_merge && (!cfg.assume_content_addressed || has_noops),
                crate::dag::causally_closed(m0) ==> crate::dag::causally_closed(dag@),
                fires ==> merge_run(cfg, ms, stats.iterations as nat) && ms[0] == m0 && ms.last() == dag@,
                !fires && stats.iterations > 0 ==> dag@ == reduced_without_merging(cfg, m0) && stats.cones_merged
                    == 0,
            ensures
                iter < max_iter ==> 1 <= stats.iterations <= max_iter,
                iter == max_iter ==> stats.iterations == max_iter,
                !fires ==> stats.iterations <= 1,
                fires && iter < max_iter ==> merge_round(cfg, dag@, dag@),
            decreases max_iter - iter,
        {
            let ghost first = stats.iterations == 0;
            let ghost mb = dag@;
            let ghost hb = has_noops;
            stats.iterations = iter + 1;
            let size_before = dag.len();
            proof {
                dag.lemma_view();
                lemma_noop_keys_bounded(mb);
                if !first {
                    assert(cfg.enable_noop_elim ==> noop_keys(mb).len() == 0);
                }
            }
            let (c3_eliminated, c1_merged, c2_contracted, hn) = self.run_round(dag, has_noops);
            has_noops = hn;
            proof {
                if fires {
                    let ms0 = ms;
                    ms = ms.push(dag@);
                    assert forall|i: int| 0 <= i < stats.iterations as nat implies #[trigger] merge_round(
                        cfg,
                        ms[i],
                        ms[i + 1],
                    ) by {
                        if i + 1 < ms0.len() {
                            assert(merge_round(cfg, ms0[i], ms0[i + 1]));
                        }
                    }
                }
            }
            stats.noops_eliminated = stats.noops_eliminated + c3_eliminated;
            stats.cones_merged = stats.cones_merged + c1_merged;
            stats.chains_contracted = stats.chains_contracted + c2_contracted;
            proof {
                dag.lemma_view();
                if first && !fires {
                    let m3 = reduced_without_merging(cfg, m0);
                    assert(mb == m0);
                    assert(hb == (cfg.enable_cone_merge && has_noop(m0)));
                    if cfg.enable_noop_elim && has_noop(m0) {
                        lemma_compacted_noop_free(m0);
                        assert(c3_eliminated > 0);
                        assert(!has_noop(m3));
                    }
                    assert(hn == (if c3_eliminated > 0 && hb { has_noop(m3) } else { hb }));
                    assert(!hb || (c3_eliminated > 0 && !has_noop(m3)));
                    assert(!hn);
                    if cfg.enable_noop_elim && !has_noop(m0) {
                        assert(noop_keys(m0) =~= Set::empty());
                        assert(compacted(m0, noop_keys(m0)) == m0);
                    }
                    assert(!has_noops);
                    assert(dag@ == m3);
                    assert(c1_merged == 0);
                }
            }
            if dag.len() == size_before {
                break;
            }
            if c3_eliminated > 0 && c1_merged == 0 && c2_contracted == 0 && !has_noops {
                break;
            }
            proof {
                if !fires {
                    if !(cfg.enable_noop_elim && noop_keys(m0).len() > 0) {
                        if cfg.enable_noop_elim {
                            assert(noop_keys(m0) =~= Set::empty());
                            assert(compacted(m0, noop_keys(m0)) == m0);
                        }
                        assert(dag@ == m0);
                    }
                    assert(false);
                }
            }
            iter = iter + 1;
        }
        stats.events_after = dag.len();
        stats
    }

    /// One round of C3, C1, C2 and D. Takes whether no-ops may still be
    /// present (for C1); returns the counts of C3, C1 and C2 and that flag
    /// afterwards. C1 works on a cone-hash table computed afresh for the DAG
    /// it merges, so no hash of an event merged away in an earlier round is
    /// ever grouped.
    fn run_round(&mut self, dag: &mut CausalDag, has_noops: bool) -> (r: (usize, usize, usize, bool))
        requires
            old(self).wf(),
            old(dag).wf(),
            has_noops ==> old(self).config.enable_cone_merge,
        ensures
            final(self).wf(),
            final(self).config == old(self).config,
            final(dag).wf(),
            forall|k: Seq<char>|
                #[trigger] final(dag)@.contains_key(k) ==> old(dag)@.contains_key(k) && final(dag)@[k].payload
                    == old(dag)@[k].payload,
            old(self).config.enable_noop_elim ==> !has_noop(final(dag)@) && r.0 == noop_keys(old(dag)@).len(),
            !old(self).config.enable_noop_elim ==> r.0 == 0,
            r.2 == 0,
            r.3 ==> old(self).config.enable_cone_merge,
            r.3 == (if r.0 > 0 && has_noops {
                has_noop(reduced_without_merging(old(self).config, old(dag)@))
            } else {
                has_noops
            }),
            !(old(self).config.enable_cone_merge && (!old(self).config.assume_content_addressed || r.3))
                ==> final(dag)@ == reduced_without_merging(old(self).config, old(dag)@) && r.1 == 0,
            old(self).config.enable_cone_merge && (!old(self).config.assume_content_addressed || r.3)
                ==> merge_round(old(self).config, old(dag)@, final(dag)@),
            old(dag)@.len() == final(dag)@.len() + r.0 + r.1 + r.2,
            crate::dag::causally_closed(old(dag)@) ==> crate::dag::causally_closed(final(dag)@),
            old(self).config.enable_cone_merge && (!old(self).config.assume_content_addressed || r.3) && r.1 == 0
                ==> merge_round(old(self).config, final(dag)@, final(dag)@),
    {
        let ghost mb = dag@;
        let ghost cfg = self.config;
        proof {
            dag.lemma_view();
        }
        let mut has_noops = has_noops;
        // C3: remove every no-op.
        let c3_eliminated = if self.config.enable_noop_elim {
            let (eliminated, _dirty) = Self::phase_c3_remove_noops(dag);
            proof {
                lemma_compacted_keeps_payloads(mb, noop_keys(mb));
                lemma_compacted_noop_free(mb);
                dag.lemma_view();
                lemma_compacted_len(mb);
            }
            eliminated
        } else {
            0
        };
        let ghost m3 = dag@;
        assert(m3 == reduced_without_merging(cfg, mb));
        proof {
            if crate::dag::causally_closed(mb) {
                lemma_reduction_keeps_closure(cfg, mb);
            }
        }
        if c3_eliminated > 0 && has_noops {
            if !has_noop_event(dag) {
                has_noops = false;
            }
        }
        // C1: merge isomorphic cones.
        let should_run_c1 = self.config.enable_cone_merge && (!self.config.assume_content_addressed || has_noops);
        let c1_merged = if should_run_c1 {
            self.cone_hasher.compute_all(dag);
            let ghost table = self.cone_hasher@;
            let (merged, _dirty) = self.phase_c1_merge_cones(dag);
            proof {
                let gs = choose|gs: Seq<Seq<Seq<char>>>|
                    #[trigger] hash_groups_of(self.cone_hasher@, gs) && dag@ == merged_groups(m3, gs);
                lemma_merged_groups_keeps_payloads(m3, gs);
                if cfg.enable_noop_elim {
                    lemma_no_noop_kept(m3, dag@);
                }
                assert(is_cone_table(m3, table) && hash_groups_of(table, gs));
                assert forall|k: Seq<char>| #[trigger] m3.contains_key(k) implies m3[k].parents.to_set().finite() by {
                    vstd::seq_lib::seq_to_set_is_finite(m3[k].parents);
                }
                assert forall|k: Seq<char>| #[trigger] table.contains_key(k) implies m3.contains_key(k) by {
                    assert(crate::dag::depth(m3, k) is Some);
                    assert(crate::dag::depth_within(m3, k, m3.len()) is Some);
                }
                lemma_merged_groups_keeps_closure(m3, table, gs);
                dag.lemma_view();
                if merged == 0 {
                    if gs.len() > 0 {
                        let g = gs[0];
                        assert(crate::cone::is_hash_group(table, g));
                        let x = g[1];
                        assert(g.contains(x));
                        assert(table.contains_key(x));
                        assert(merged_away(gs, x));
                        assert(dag@.dom().subset_of(m3.dom().remove(x)));
                        vstd::set_lib::lemma_len_subset(dag@.dom(), m3.dom().remove(x));
                        assert(false);
                    }
                    assert(gs =~= Seq::<Seq<Seq<char>>>::empty());
                    assert(dag@ == m3);
                    if cfg.enable_noop_elim {
                        lemma_compacted_noop_free(mb);
                        lemma_nf_of_noop_free(m3);
                    }
                    assert(reduced_without_merging(cfg, m3) == m3);
                    assert(crate::cone::is_cone_table(reduced_without_merging(cfg, dag@), table)
                        && hash_groups_of(table, gs) && dag@ == merged_groups(reduced_without_merging(cfg, dag@), gs));
                    assert(merge_round(cfg, dag@, dag@));
                }
            }
            merged
        } else {
            0
        };
        // C2: contract linear chains.
        let c2_contracted = if self.config.enable_chain_contract {
            let (contracted, _dirty) = self.phase_c2_collapse_chains(dag);
            contracted
        } else {
            0
        };
        // D: with every rewriting phase disabled, refresh all cone hashes.
        if !self.config.enable_cone_merge && !self.config.enable_chain_contract && !self.config.enable_noop_elim {
            self.cone_hasher.compute_all(dag);
        }
        (c3_eliminated, c1_merged, c2_contracted, has_noops)
    }

    /// C3: removes every no-op, reconnecting its children to the nearest
    /// surviving ancestors. Returns how many were removed and the surviving
    /// children of removed no-ops.
    fn phase_c3_remove_noops(dag: &mut CausalDag) -> (r: (usize, IdSet))
        requires
            old(dag).wf(),
        ensures
            final(dag).wf(),
            final(dag)@ == compacted(old(dag)@, noop_keys(old(dag)@)),
            r.0 == noop_keys(old(dag)@).len(),
            r.1.wf(),
            r.1.set() == noop_children(old(dag)@),
    {
        proof {
            dag.lemma_view();
        }
        let ghost m = dag@;
        let tombstones = noop_tombstones(dag);
        let count = tombstones.len();
        proof {
            tombstones.lemma_len();
        }
        if count == 0 {
            proof {
                assert(noop_keys(m) =~= Set::empty());
                assert(noop_children(m) =~= Set::empty()) by {
                    assert forall|k: Seq<char>| !noop_children(m).contains(k) by {
                        if noop_children(m).contains(k) {
                            let p = choose|p: Seq<char>| #[trigger] m[k].parents.contains(p) && noop_keys(m).contains(p);
                        }
                    }
                }
            }
            let empty = IdSet::new();
            proof {
                assert(empty.set() =~= Set::empty());
            }
            return (0, empty);
        }
        let dirty = noop_children_of(dag, &tombstones);
        dag.compact_tombstones(&tombstones);
        (count, dirty)
    }

    /// Whether an event only relays causality, with no payload effect: no
    /// payload kind does.
    fn is_passthrough(&self, _event: &Event) -> (b: bool)
        ensures
            !b,
    {
        false
    }

    /// C2: contracts every pass-through event with one parent and one child.
    /// No event is a pass-through, so nothing changes.
    fn phase_c2_collapse_chains(&self, dag: &mut CausalDag) -> (r: (usize, IdSet))
        requires
            old(dag).wf(),
        ensures
            final(dag).wf(),
            final(dag)@ == old(dag)@,
            r.0 == 0,
            r.1.wf(),
            r.1@.len() == 0,
    {
        let n = dag.len();
        let mut candidates: Vec<EventId> = Vec::new();
        for i in 0..n
            invariant
                dag.wf(),
                n == dag@.len(),
                candidates@.len() == 0,
        {
            let e = dag.event_at(i);
            if self.is_passthrough(e) && e.parents.len() == 1 && dag.children_of(dag.key_at(i)).len() == 1 {
                candidates.push(dag.key_at(i).clone());
            }
        }
        let mut contracted: usize = 0;
        let mut dirty = IdSet::new();
        let ghost m = dag@;
        let nc = candidates.len();
        for c in 0..nc
            invariant
                nc == candidates@.len(),
                nc == 0,
                dag.wf(),
                dag@ == m,
                contracted == 0,
                dirty.wf(),
                dirty@.len() == 0,
        {
            let id = &candidates[c];
            let kids = dag.children_of(id);
            dirty.union_with(&kids);
            dag.remove(id);
            contracted = contracted + 1;
        }
        (contracted, dirty)
    }

    /// C1: merges each group of events with equal cone hashes into its least
    /// member. Returns how many events were merged away and the events whose
    /// parents were redirected.
    fn phase_c1_merge_cones(&self, dag: &mut CausalDag) -> (r: (usize, IdSet))
        requires
            self.wf(),
            old(dag).wf(),
        ensures
            final(dag).wf(),
            r.1.wf(),
            exists|gs: Seq<Seq<Seq<char>>>|
                #[trigger] hash_groups_of(self.cone_hasher@, gs) && final(dag)@ == merged_groups(old(dag)@, gs)
                    && r.1.set() == groups_dirty(old(dag)@, gs),
            r.0 == old(dag)@.len() - final(dag)@.len(),
    {
        let groups = self.cone_hasher.isomorphic_groups();
        let r = merge_cone_groups(dag, &groups);
        proof {
            let gs = groups_view(groups@);
            assert forall|i: int| 0 <= i < gs.len() implies crate::cone::is_hash_group(self.cone_hasher@, #[trigger] gs[i]) by {
                assert(gs[i] == ids_view(groups@[i]@));
            }
            assert forall|k: Seq<char>| #[trigger] crate::cone::shares_hash(self.cone_hasher@, k) implies exists|i: int|
                0 <= i < gs.len() && #[trigger] gs[i].contains(k) by {
                let i = choose|i: int| 0 <= i < groups@.len() && #[trigger] ids_view(groups@[i]@).contains(k);
                assert(gs[i] == ids_view(groups@[i]@));
            }
            assert forall|i: int, j: int| 0 <= i < j < gs.len() implies crate::ids::id_lt(gs[i][0], gs[j][0]) by {
                assert(gs[i] == ids_view(groups@[i]@));
                assert(gs[j] == ids_view(groups@[j]@));
            }
            assert(hash_groups_of(self.cone_hasher@, gs));
        }
        r
    }
}

impl Default for NormalForm {
    fn default() -> (r: Self)
        ensures
            r.wf(),
            r.settings().max_iterations == 1000,
            r.settings().enable_cone_merge,
            r.settings().enable_chain_contract,
            r.settings().enable_noop_elim,
            r.settings().enable_closure_check,
            r.settings().assume_content_addressed,
    {
        NormalForm::new(NfConfig::default())
    }
}

} // verus!
