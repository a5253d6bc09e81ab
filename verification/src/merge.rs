//! The merge primitive, the only network operation:
//!
//! ```text
//! merge(A, B) = nf(A ∪ B)
//! ```
//!
//! With the default configuration the normal form is the history without its
//! no-ops, and merging is commutative and idempotent, and associative on
//! histories without no-ops.

use vstd::prelude::*;
use crate::event::{Event, EventView};
use crate::dag::{CausalDag, insert_event, insert_events, union_pref};
use crate::nf::{NfConfig, NfStats, NormalForm, reduction, default_config, nf_of, has_noop,
    lemma_default_reduction, lemma_nf_of_noop_free};
use crate::kernel::SemanticFunctor;

verus! {

/// The two histories hold the same event wherever they share a key.
pub open spec fn agree(a: Map<Seq<char>, EventView>, b: Map<Seq<char>, EventView>) -> bool {
    forall|k: Seq<char>| #[trigger] a.contains_key(k) && b.contains_key(k) ==> a[k] == b[k]
}

/// Merges two histories and normalizes the result with the default
/// configuration: the events of `b` are added to `a` (a key already present
/// is kept), then every no-op is removed.
pub fn merge_histories(a: &CausalDag, b: &CausalDag) -> (r: CausalDag)
    requires
        a.wf(),
        b.wf(),
    ensures
        r.wf(),
        r@ == nf_of(insert_events(a@, b.events_view())),
{
    let r = merge_histories_with_config(a, b, NfConfig::default());
    proof {
        let stats = choose|stats: NfStats| reduction(default_config(), insert_events(a@, b.events_view()), r@, stats);
        lemma_default_reduction(insert_events(a@, b.events_view()), r@, stats);
    }
    r
}

/// Merges two histories and normalizes the result with `config`.
pub fn merge_histories_with_config(a: &CausalDag, b: &CausalDag, config: NfConfig) -> (r: CausalDag)
    requires
        a.wf(),
        b.wf(),
    ensures
        r.wf(),
        exists|stats: NfStats| reduction(config, insert_events(a@, b.events_view()), r@, stats),
{
    let mut result = a.duplicate();
    result.union_with(b);
    let ghost u = result@;
    let mut nf = NormalForm::new(config);
    let stats = nf.reduce(&mut result);
    assert(reduction(config, u, result@, stats));
    result
}

/// A node holding a local history, kept in normal form under the default
/// configuration.
pub struct DistributedNode {
    pub id: String,
    pub history: CausalDag,
    nf: NormalForm,
}

impl DistributedNode {
    /// Well-formedness: the history is well formed and normalized with the
    /// default configuration.
    pub closed spec fn wf(&self) -> bool {
        &&& self.history.wf()
        &&& self.nf.wf()
        &&& self.nf.settings() == default_config()
    }

    /// The local history.
    pub closed spec fn history_view(&self) -> Map<Seq<char>, EventView> {
        self.history@
    }

    /// The local events, in key order.
    pub closed spec fn history_events(&self) -> Seq<EventView> {
        self.history.events_view()
    }

    /// The node's name.
    pub closed spec fn name(&self) -> Seq<char> {
        self.id@
    }

    /// A node whose history holds the genesis event alone.
    pub fn new(id: String) -> (r: Self)
        ensures
            r.wf(),
            r.name() == id@,
            r.history_view() == crate::kernel::genesis_history(),
    {
        let mut history = CausalDag::new();
        let g = Event::genesis();
        let ghost gv = g@;
        history.insert(g);
        proof {
            assert(history@ == Map::<Seq<char>, EventView>::empty().insert(gv.id, gv));
        }
        DistributedNode { id, history, nf: NormalForm::default() }
    }

    /// A copy of the node's name.
    pub fn id_string(&self) -> (r: String)
        ensures
            r@ == self.name(),
    {
        self.id.clone()
    }

    /// The local history, as a DAG.
    pub fn history_dag(&self) -> (r: &CausalDag)
        requires
            self.wf(),
        ensures
            r.wf(),
            r@ == self.history_view(),
            r.events_view() == self.history_events(),
    {
        &self.history
    }

    /// Takes in events received from a peer: each one whose parents are in
    /// increasing order is inserted (a key already present is kept), then the
    /// history is normalized.
    pub fn receive(&mut self, events: &Vec<Event>)
        requires
            old(self).wf(),
        ensures
            final(self).wf(),
            final(self).name() == old(self).name(),
            final(self).history_view() == nf_of(insert_sorted_events(old(self).history_view(), events@.map_values(|e: Event| e@))),
    {
        let n = events.len();
        let ghost es = events@.map_values(|e: Event| e@);
        let ghost h0 = self.history@;
        for i in 0..n
            invariant
                n == events@.len(),
                es == events@.map_values(|e: Event| e@),
                self.wf(),
                self.name() == old(self).name(),
                self.history@ == insert_sorted_events(h0, es.subrange(0, i as int)),
        {
            let e = &events[i];
            proof {
                assert(es.subrange(0, i + 1).drop_last() =~= es.subrange(0, i as int));
                assert(es.subrange(0, i + 1).last() == e@);
            }
            if e.parents.is_sorted() {
                self.history.insert(e.duplicate());
            }
        }
        proof {
            assert(es.subrange(0, n as int) =~= es);
        }
        let ghost u = self.history@;
        let stats = self.nf.reduce(&mut self.history);
        proof {
            lemma_default_reduction(u, self.history@, stats);
        }
    }

    /// Syncs with another node: `H := nf(H ∪ H_other)`.
    pub fn sync_with(&mut self, other: &DistributedNode)
        requires
            old(self).wf(),
            other.wf(),
        ensures
            final(self).wf(),
            final(self).name() == old(self).name(),
            final(self).history_view() == nf_of(insert_events(old(self).history_view(), other.history_events())),
    {
        self.history.union_with(&other.history);
        let ghost u = self.history@;
        let stats = self.nf.reduce(&mut self.history);
        proof {
            lemma_default_reduction(u, self.history@, stats);
        }
    }

    /// Appends a local event and normalizes.
    pub fn append(&mut self, event: Event)
        requires
            old(self).wf(),
            event.wf(),
        ensures
            final(self).wf(),
            final(self).name() == old(self).name(),
            final(self).history_view() == nf_of(insert_event(old(self).history_view(), event@)),
    {
        self.history.insert(event);
        let ghost u = self.history@;
        let stats = self.nf.reduce(&mut self.history);
        proof {
            lemma_default_reduction(u, self.history@, stats);
        }
    }

    /// The state of the local history under `functor`.
    pub fn state<F: SemanticFunctor>(&self, functor: &F) -> (r: F::State)
        requires
            self.wf(),
        ensures
            r.deep_view() == functor.meaning(self.history_view()),
    {
        functor.interpret(&self.history)
    }
}

/// Inserting, one after the other, those of `es` whose parents are in
/// increasing order.
pub open spec fn insert_sorted_events(m: Map<Seq<char>, EventView>, es: Seq<EventView>) -> Map<Seq<char>, EventView>
    decreases es.len(),
{
    if es.len() == 0 {
        m
    } else {
        let prev = insert_sorted_events(m, es.drop_last());
        if crate::ids::strictly_sorted(es.last().parents) {
            insert_event(prev, es.last())
        } else {
            prev
        }
    }
}

/// Among `es`, events with one identifier are one event.
pub open spec fn one_event_per_id(es: Seq<EventView>) -> bool {
    forall|x: EventView, y: EventView| #[trigger] es.contains(x) && #[trigger] es.contains(y) && x.id == y.id ==> x == y
}

/// What inserting `es` one after the other, skipping events whose parents are
/// out of order, gives when events with one identifier are one event: the keys
/// of `m` with their events, and every other accepted event under its
/// identifier.
proof fn lemma_insert_sorted_events_shape(m: Map<Seq<char>, EventView>, es: Seq<EventView>)
    requires
        one_event_per_id(es),
    ensures
        forall|k: Seq<char>| #[trigger] insert_sorted_events(m, es).contains_key(k) <==> m.contains_key(k) || exists|e: EventView|
            #[trigger] es.contains(e) && crate::ids::strictly_sorted(e.parents) && e.id == k,
        forall|k: Seq<char>| #[trigger] m.contains_key(k) ==> insert_sorted_events(m, es)[k] == m[k],
        forall|e: EventView|
            #[trigger] es.contains(e) && crate::ids::strictly_sorted(e.parents) && !m.contains_key(e.id)
                ==> insert_sorted_events(m, es)[e.id] == e,
    decreases es.len(),
{
    if es.len() > 0 {
        let p = es.drop_last();
        let l = es.last();
        assert forall|e: EventView| #[trigger] es.contains(e) <==> p.contains(e) || e == l by {
            if es.contains(e) {
                let i = choose|i: int| 0 <= i < es.len() && es[i] == e;
                if i < p.len() {
                    assert(p[i] == e);
                }
            }
            if p.contains(e) {
                let i = choose|i: int| 0 <= i < p.len() && p[i] == e;
                assert(es[i] == e);
            }
            if e == l {
                assert(es[es.len() - 1] == e);
            }
        }
        assert(one_event_per_id(p)) by {
            assert forall|x: EventView, y: EventView| #[trigger] p.contains(x) && #[trigger] p.contains(y) && x.id == y.id
                implies x == y by {
                assert(es.contains(x) && es.contains(y));
            }
        }
        lemma_insert_sorted_events_shape(m, p);
        let prev = insert_sorted_events(m, p);
        assert(insert_sorted_events(m, es) == (if crate::ids::strictly_sorted(l.parents) {
            insert_event(prev, l)
        } else {
            prev
        }));
        assert forall|k: Seq<char>| #[trigger] insert_sorted_events(m, es).contains_key(k) <==> m.contains_key(k)
            || exists|e: EventView| #[trigger] es.contains(e) && crate::ids::strictly_sorted(e.parents) && e.id == k by {
            if exists|e: EventView| #[trigger] p.contains(e) && crate::ids::strictly_sorted(e.parents) && e.id == k {
                let e = choose|e: EventView| #[trigger] p.contains(e) && crate::ids::strictly_sorted(e.parents) && e.id == k;
                assert(es.contains(e));
            }
            if exists|e: EventView| #[trigger] es.contains(e) && crate::ids::strictly_sorted(e.parents) && e.id == k {
                let e = choose|e: EventView| #[trigger] es.contains(e) && crate::ids::strictly_sorted(e.parents) && e.id == k;
                if e != l {
                    assert(p.contains(e));
                }
            }
        }
        assert forall|e: EventView|
            #[trigger] es.contains(e) && crate::ids::strictly_sorted(e.parents) && !m.contains_key(e.id)
                implies insert_sorted_events(m, es)[e.id] == e by {
            if p.contains(e) {
                assert(prev[e.id] == e);
                if e.id == l.id {
                    assert(es.contains(l));
                }
            } else {
                assert(e == l);
                if prev.contains_key(l.id) {
                    let f = choose|f: EventView| #[trigger] p.contains(f) && crate::ids::strictly_sorted(f.parents) && f.id == l.id;
                    assert(es.contains(f));
                    assert(prev[f.id] == f);
                }
            }
        }
    }
}

/// A node that receives the same events, in any order and with any repeats,
/// ends with the same history, as long as events with one identifier are one
/// event.
pub proof fn lemma_receive_order_independent(h: Map<Seq<char>, EventView>, es1: Seq<EventView>, es2: Seq<EventView>)
    requires
        forall|e: EventView| #[trigger] es1.contains(e) <==> #[trigger] es2.contains(e),
        one_event_per_id(es1),
    ensures
        insert_sorted_events(h, es1) == insert_sorted_events(h, es2),
        nf_of(insert_sorted_events(h, es1)) == nf_of(insert_sorted_events(h, es2)),
{
    assert(one_event_per_id(es2)) by {
        assert forall|x: EventView, y: EventView| #[trigger] es2.contains(x) && #[trigger] es2.contains(y) && x.id == y.id
            implies x == y by {
            assert(es1.contains(x) && es1.contains(y));
        }
    }
    lemma_insert_sorted_events_shape(h, es1);
    lemma_insert_sorted_events_shape(h, es2);
    let r1 = insert_sorted_events(h, es1);
    let r2 = insert_sorted_events(h, es2);
    assert forall|k: Seq<char>| #[trigger] r1.contains_key(k) <==> r2.contains_key(k) by {
        if exists|e: EventView| #[trigger] es1.contains(e) && crate::ids::strictly_sorted(e.parents) && e.id == k {
            let e = choose|e: EventView| #[trigger] es1.contains(e) && crate::ids::strictly_sorted(e.parents) && e.id == k;
            assert(es2.contains(e));
        }
        if exists|e: EventView| #[trigger] es2.contains(e) && crate::ids::strictly_sorted(e.parents) && e.id == k {
            let e = choose|e: EventView| #[trigger] es2.contains(e) && crate::ids::strictly_sorted(e.parents) && e.id == k;
            assert(es1.contains(e));
        }
    }
    assert forall|k: Seq<char>| #[trigger] r1.contains_key(k) implies r1[k] == r2[k] by {
        if !h.contains_key(k) {
            let e = choose|e: EventView| #[trigger] es1.contains(e) && crate::ids::strictly_sorted(e.parents) && e.id == k;
            assert(es2.contains(e));
        }
    }
    assert(r1 =~= r2);
}

/// Merging agreeing histories is commutative.
pub proof fn lemma_merge_commutative(a: Map<Seq<char>, EventView>, b: Map<Seq<char>, EventView>)
    requires
        agree(a, b),
    ensures
        nf_of(union_pref(a, b)) == nf_of(union_pref(b, a)),
{
    assert(union_pref(a, b) =~= union_pref(b, a));
}

/// Merging a history with itself gives its normal form; a history without
/// no-ops is given back unchanged.
pub proof fn lemma_merge_idempotent(a: Map<Seq<char>, EventView>)
    ensures
        nf_of(union_pref(a, a)) == nf_of(a),
        !has_noop(a) ==> nf_of(union_pref(a, a)) == a,
{
    assert(union_pref(a, a) =~= a);
    if !has_noop(a) {
        lemma_nf_of_noop_free(a);
    }
}

proof fn lemma_union_noop_free(a: Map<Seq<char>, EventView>, b: Map<Seq<char>, EventView>)
    requires
        !has_noop(a),
        !has_noop(b),
    ensures
        !has_noop(union_pref(a, b)),
{
    let u = union_pref(a, b);
    if has_noop(u) {
        let k = choose|k: Seq<char>| #[trigger] crate::nf::noop_keys(u).contains(k);
        if a.contains_key(k) {
            assert(crate::nf::noop_keys(a).contains(k));
        } else {
            assert(crate::nf::noop_keys(b).contains(k));
        }
    }
}

/// Merging histories without no-ops is associative.
pub proof fn lemma_merge_associative(a: Map<Seq<char>, EventView>, b: Map<Seq<char>, EventView>, c: Map<Seq<char>, EventView>)
    requires
        !has_noop(a),
        !has_noop(b),
        !has_noop(c),
    ensures
        nf_of(union_pref(nf_of(union_pref(a, b)), c)) == nf_of(union_pref(a, nf_of(union_pref(b, c)))),
{
    lemma_union_noop_free(a, b);
    lemma_union_noop_free(b, c);
    lemma_nf_of_noop_free(union_pref(a, b));
    lemma_nf_of_noop_free(union_pref(b, c));
    lemma_union_noop_free(union_pref(a, b), c);
    lemma_union_noop_free(a, union_pref(b, c));
    lemma_nf_of_noop_free(union_pref(union_pref(a, b), c));
    lemma_nf_of_noop_free(union_pref(a, union_pref(b, c)));
    assert(union_pref(union_pref(a, b), c) =~= union_pref(a, union_pref(b, c)));
}

/// Two nodes with agreeing histories without no-ops converge after syncing
/// each way: the second sync yields the history the first one produced.
pub proof fn lemma_sync_converges(a: Map<Seq<char>, EventView>, b: Map<Seq<char>, EventView>)
    requires
        agree(a, b),
        !has_noop(a),
        !has_noop(b),
    ensures
        nf_of(union_pref(b, nf_of(union_pref(a, b)))) == nf_of(union_pref(a, b)),
{
    lemma_union_noop_free(a, b);
    lemma_nf_of_noop_free(union_pref(a, b));
    let ab = union_pref(a, b);
    lemma_union_noop_free(b, ab);
    lemma_nf_of_noop_free(union_pref(b, ab));
    assert(union_pref(b, ab) =~= ab);
}

/// Merging two causally closed histories gives a causally closed history.
pub proof fn lemma_merge_keeps_closure(a: Map<Seq<char>, EventView>, b: Map<Seq<char>, EventView>)
    requires
        a.dom().finite(),
        b.dom().finite(),
        crate::dag::causally_closed(a),
        crate::dag::causally_closed(b),
    ensures
        crate::dag::causally_closed(nf_of(union_pref(a, b))),
{
    let u = union_pref(a, b);
    assert forall|p: Seq<char>, c: Seq<char>| #[trigger] crate::dag::parent_of(u, p, c) implies u.contains_key(p) by {
        if a.contains_key(c) {
            assert(crate::dag::parent_of(a, p, c));
        } else {
            assert(crate::dag::parent_of(b, p, c));
        }
    }
    assert(u.dom() =~= a.dom().union(b.dom()));
    crate::dag::lemma_compaction_keeps_closure(u, crate::nf::noop_keys(u));
}

/// The two histories hold events with the same payload wherever they share a
/// key.
pub open spec fn same_payloads(a: Map<Seq<char>, EventView>, b: Map<Seq<char>, EventView>) -> bool {
    forall|k: Seq<char>| #[trigger] a.contains_key(k) && b.contains_key(k) ==> a[k].payload == b[k].payload
}

/// `merge_histories` is commutative on histories that agree on their shared
/// events.
pub proof fn lemma_merge_histories_commutative(a: &CausalDag, b: &CausalDag)
    requires
        a.wf(),
        b.wf(),
        agree(a@, b@),
    ensures
        nf_of(insert_events(a@, b.events_view())) == nf_of(insert_events(b@, a.events_view())),
{
    crate::dag::lemma_union_keyed(a@, b);
    crate::dag::lemma_union_keyed(b@, a);
    lemma_merge_commutative(a@, b@);
}

/// `merge_histories` gives the same events, by identifier, whichever history
/// comes first, where shared events carry the same payload.
pub proof fn lemma_merge_histories_same_keys(a: &CausalDag, b: &CausalDag)
    requires
        a.wf(),
        b.wf(),
        same_payloads(a@, b@),
    ensures
        nf_of(insert_events(a@, b.events_view())).dom() == nf_of(insert_events(b@, a.events_view())).dom(),
{
    crate::dag::lemma_union_keyed(a@, b);
    crate::dag::lemma_union_keyed(b@, a);
    let u1 = union_pref(a@, b@);
    let u2 = union_pref(b@, a@);
    assert(u1.dom() =~= u2.dom());
    assert(crate::nf::noop_keys(u1) =~= crate::nf::noop_keys(u2));
    let t = crate::nf::noop_keys(u1);
    assert(nf_of(u1).dom() =~= u1.dom().difference(t));
    assert(nf_of(u2).dom() =~= u2.dom().difference(t));
}

/// `merge_histories` is associative on histories without no-ops: merging the
/// merge of `a` and `b` with `c` gives what merging `a` with the merge of `b`
/// and `c` gives.
pub proof fn lemma_merge_histories_associative(a: &CausalDag, b: &CausalDag, c: &CausalDag, ab: &CausalDag, bc: &CausalDag)
    requires
        a.wf(),
        b.wf(),
        c.wf(),
        ab.wf(),
        bc.wf(),
        !has_noop(a@),
        !has_noop(b@),
        !has_noop(c@),
        ab@ == nf_of(insert_events(a@, b.events_view())),
        bc@ == nf_of(insert_events(b@, c.events_view())),
    ensures
        nf_of(insert_events(ab@, c.events_view())) == nf_of(insert_events(a@, bc.events_view())),
{
    crate::dag::lemma_union_keyed(a@, b);
    crate::dag::lemma_union_keyed(b@, c);
    crate::dag::lemma_union_keyed(ab@, c);
    crate::dag::lemma_union_keyed(a@, bc);
    lemma_merge_associative(a@, b@, c@);
}

/// The events a node receives from another, keyed by identifier, are added
/// as a union in which its own events win.
pub proof fn lemma_sync_is_union(mine: Map<Seq<char>, EventView>, other: &CausalDag)
    requires
        other.wf(),
    ensures
        insert_events(mine, other.events_view()) == union_pref(mine, other@),
{
    crate::dag::lemma_union_keyed(mine, other);
}

} // verus!
