//! The kernel: a normalized history and the semantic functors that read
//! state out of it.
//!
//! ```text
//! State = σ(nf(History))
//! ```

use vstd::prelude::*;
use crate::ids::{EventId, IdSet, Order3, compare_ids, ids_view};
use crate::json::{JsonValue, json_member, json_as_str, json_as_i64};
use crate::idmap::IdMap;
use crate::event::{Event, EventView, Payload, PayloadView, content_addressed};
use crate::dag::{CausalDag, insert_event, frontier_set, topo, is_topological_order, lemma_topo_unique};
use crate::nf::{NfConfig, NfStats, NormalForm, reduction};

verus! {

/// A semantic functor: reads a state out of a history.
pub trait SemanticFunctor {
    type State: DeepView;

    /// The state of a history.
    spec fn meaning(&self, m: Map<Seq<char>, EventView>) -> <Self::State as DeepView>::V;

    /// Reads the state of `dag`.
    fn interpret(&self, dag: &CausalDag) -> (r: Self::State)
        requires
            dag.wf(),
        ensures
            r.deep_view() == self.meaning(dag@),
    ;
}

/// A functor whose state is a fold of single events.
pub trait FoldableFunctor: SemanticFunctor {
    /// The state of the empty history.
    fn empty(&self) -> Self::State;

    /// Applies one event to a state.
    fn step(&self, state: &mut Self::State, event: &Event);
}

/// A foldable functor that can also take an event back out of a state.
pub trait InvertibleFunctor: FoldableFunctor {
    /// Reverts one event's effect on a state.
    fn unstep(&self, state: &mut Self::State, event: &Event);
}

/// A functor that follows the counts of each reduction.
pub trait DeltaFunctor {
    /// Takes in the counts of one reduction.
    fn apply_delta(&mut self, delta: &NfStats);
}

/// The history holding the genesis event alone.
pub open spec fn genesis_history() -> Map<Seq<char>, EventView> {
    Map::empty().insert(crate::event::genesis_view().id, crate::event::genesis_view())
}

/// The runtime object: a history kept in normal form.
pub struct JcKernel {
    pub dag: CausalDag,
    nf: NormalForm,
    pub total_stats: NfStats,
}

/// The kind of key-value writes.
pub open spec fn set_kind() -> Seq<char> {
    seq!['s', 'e', 't']
}

/// The kind of counter increments.
pub open spec fn increment_kind() -> Seq<char> {
    seq!['i', 'n', 'c', 'r', 'e', 'm', 'e', 'n', 't']
}

/// The kind of log entries.
pub open spec fn log_kind() -> Seq<char> {
    seq!['l', 'o', 'g']
}

/// The member names of a key-value write.
pub open spec fn key_member() -> Seq<char> {
    seq!['k', 'e', 'y']
}

pub open spec fn val_member() -> Seq<char> {
    seq!['v', 'a', 'l']
}

/// The key and the value text a payload writes: a `set` event whose value
/// has a string member `key` and a member `val`.
pub open spec fn kv_write(p: PayloadView) -> Option<(Seq<char>, Seq<char>)> {
    match p {
        PayloadView::Data { kind, value } => {
            if kind == set_kind() {
                match (json_member(value, key_member()), json_member(value, val_member())) {
                    (Some(k), Some(v)) => match json_as_str(k) {
                        Some(key) => Some((key, v)),
                        None => None,
                    },
                    _ => None,
                }
            } else {
                None
            }
        },
        _ => None,
    }
}

/// The key-value state after the writes of the events listed in `r`, in
/// order: a later write of a key replaces an earlier one.
pub open spec fn kv_fold(m: Map<Seq<char>, EventView>, r: Seq<Seq<char>>) -> Map<Seq<char>, Seq<char>>
    decreases r.len(),
{
    if r.len() == 0 {
        Map::empty()
    } else {
        let s = kv_fold(m, r.drop_last());
        if m.contains_key(r.last()) {
            match kv_write(m[r.last()].payload) {
                Some((k, v)) => s.insert(k, v),
                None => s,
            }
        } else {
            s
        }
    }
}

/// The value text a payload logs: the value of a `log` event.
pub open spec fn log_entry(p: PayloadView) -> Option<Seq<char>> {
    match p {
        PayloadView::Data { kind, value } => if kind == log_kind() {
            Some(value)
        } else {
            None
        },
        _ => None,
    }
}

/// The logged values of the events listed in `r`, in order.
pub open spec fn log_fold(m: Map<Seq<char>, EventView>, r: Seq<Seq<char>>) -> Seq<Seq<char>>
    decreases r.len(),
{
    if r.len() == 0 {
        Seq::empty()
    } else {
        let s = log_fold(m, r.drop_last());
        if m.contains_key(r.last()) {
            match log_entry(m[r.last()].payload) {
                Some(v) => s.push(v),
                None => s,
            }
        } else {
            s
        }
    }
}

/// The amount a payload adds to the counter: the integer value of an
/// `increment` event (0 for other events and for values that are no `i64`).
pub open spec fn increment_of(p: PayloadView) -> i64 {
    match p {
        PayloadView::Data { kind, value } => if kind == increment_kind() {
            match json_as_i64(value) {
                Some(x) => x,
                None => 0,
            }
        } else {
            0
        },
        _ => 0,
    }
}

/// The sum, in wrapping `i64` arithmetic, of the increments of the events
/// listed in `r`.
pub open spec fn counter_fold(m: Map<Seq<char>, EventView>, r: Seq<Seq<char>>) -> i64
    decreases r.len(),
{
    if r.len() == 0 {
        0
    } else {
        let s = counter_fold(m, r.drop_last());
        if m.contains_key(r.last()) {
            s.wrapping_add(increment_of(m[r.last()].payload))
        } else {
            s
        }
    }
}

/// The exact sum of the increments of the events listed in `r`.
pub open spec fn counter_sum(m: Map<Seq<char>, EventView>, r: Seq<Seq<char>>) -> int
    decreases r.len(),
{
    if r.len() == 0 {
        0
    } else {
        let s = counter_sum(m, r.drop_last());
        if m.contains_key(r.last()) {
            s + increment_of(m[r.last()].payload)
        } else {
            s
        }
    }
}

/// Where no partial sum leaves the `i64` range, the wrapping sum is the
/// exact sum.
pub proof fn lemma_counter_exact(m: Map<Seq<char>, EventView>, r: Seq<Seq<char>>)
    requires
        forall|j: int| 0 <= j <= r.len() ==> i64::MIN <= #[trigger] counter_sum(m, r.subrange(0, j)) <= i64::MAX,
    ensures
        counter_fold(m, r) as int == counter_sum(m, r),
    decreases r.len(),
{
    if r.len() > 0 {
        let p = r.drop_last();
        assert forall|j: int| 0 <= j <= p.len() implies i64::MIN <= #[trigger] counter_sum(m, p.subrange(0, j))
            <= i64::MAX by {
            assert(p.subrange(0, j) =~= r.subrange(0, j));
        }
        lemma_counter_exact(m, p);
        assert(r.subrange(0, r.len() as int) =~= r);
        assert(i64::MIN <= counter_sum(m, r.subrange(0, r.len() as int)) <= i64::MAX);
    }
}

/// Key-value state: the last `set` of each key in topological order wins.
pub struct KvFunctor;

/// Log state: the values of `log` events, in topological order.
pub struct LogFunctor;

/// Counter state: the sum of the `increment` events.
pub struct CounterFunctor;

/// The key-value state: keys to the JSON values last written to them.
pub type KvState = IdMap<JsonValue>;

/// True iff `s` is the text `lit`.
fn text_is(s: &String, lit: &str) -> (b: bool)
    ensures
        b == (s@ == lit@),
{
    let l = lit.to_owned();
    compare_ids(s, &l) == Order3::Equal
}

impl SemanticFunctor for KvFunctor {
    type State = KvState;

    open spec fn meaning(&self, m: Map<Seq<char>, EventView>) -> Map<Seq<char>, Seq<char>> {
        kv_fold(m, topo(m))
    }

    fn interpret(&self, dag: &CausalDag) -> (r: KvState)
        ensures
            r.wf(),
    {
        let order = dag.topological_order();
        let ghost m = dag@;
        let ghost r = ids_view(order@);
        proof {
            lemma_topo_unique(m, r);
        }
        let mut state: KvState = IdMap::new();
        let n = order.len();
        for i in 0..n
            invariant
                n == r.len(),
                r == ids_view(order@),
                m == dag@,
                dag.wf(),
                state.wf(),
                state@ == kv_fold(m, r.subrange(0, i as int)),
        {
            let ghost pre = r.subrange(0, i + 1);
            proof {
                assert(pre.drop_last() =~= r.subrange(0, i as int));
                assert(pre.last() == order@[i as int]@);
            }
            if let Some(e) = dag.get(&order[i]) {
                if let Payload::Data { kind, value } = &e.payload {
                    if text_is(kind, "set") {
                        proof {
                            reveal_strlit("set");
                            assert("set"@ =~= set_kind());
                        }
                        if let (Some(k), Some(v)) = (value.get("key"), value.get("val")) {
                            proof {
                                reveal_strlit("key");
                                reveal_strlit("val");
                                assert("key"@ =~= key_member());
                                assert("val"@ =~= val_member());
                            }
                            if let Some(key) = k.as_str() {
                                state.insert(key, v);
                            }
                        } else {
                            proof {
                                reveal_strlit("key");
                                reveal_strlit("val");
                                assert("key"@ =~= key_member());
                                assert("val"@ =~= val_member());
                            }
                        }
                    } else {
                        proof {
                            reveal_strlit("set");
                            assert("set"@ =~= set_kind());
                        }
                    }
                }
            }
        }
        proof {
            assert(r.subrange(0, n as int) =~= r);
        }
        state
    }
}

impl SemanticFunctor for LogFunctor {
    type State = Vec<JsonValue>;

    open spec fn meaning(&self, m: Map<Seq<char>, EventView>) -> Seq<Seq<char>> {
        log_fold(m, topo(m))
    }

    fn interpret(&self, dag: &CausalDag) -> (r: Vec<JsonValue>) {
        let order = dag.topological_order();
        let ghost m = dag@;
        let ghost r = ids_view(order@);
        proof {
            lemma_topo_unique(m, r);
        }
        let mut out: Vec<JsonValue> = Vec::new();
        let n = order.len();
        for i in 0..n
            invariant
                n == r.len(),
                r == ids_view(order@),
                m == dag@,
                dag.wf(),
                out.deep_view() == log_fold(m, r.subrange(0, i as int)),
        {
            let ghost pre = r.subrange(0, i + 1);
            let ghost before = out.deep_view();
            proof {
                assert(pre.drop_last() =~= r.subrange(0, i as int));
                assert(pre.last() == order@[i as int]@);
            }
            if let Some(e) = dag.get(&order[i]) {
                if let Payload::Data { kind, value } = &e.payload {
                    proof {
                        reveal_strlit("log");
                        assert("log"@ =~= log_kind());
                    }
                    if text_is(kind, "log") {
                        out.push(value.duplicate());
                        assert(out.deep_view() =~= before.push(value@));
                    }
                }
            }
        }
        proof {
            assert(r.subrange(0, n as int) =~= r);
        }
        out
    }
}

impl SemanticFunctor for CounterFunctor {
    type State = i64;

    open spec fn meaning(&self, m: Map<Seq<char>, EventView>) -> i64 {
        counter_fold(m, crate::ids::sorted_of(m.dom()))
    }

    fn interpret(&self, dag: &CausalDag) -> (r: i64) {
        let ghost m = dag@;
        proof {
            dag.lemma_view();
            crate::ids::lemma_sorted_of(dag.keys_view());
        }
        let ghost ks = dag.keys_view();
        let mut total: i64 = 0;
        let n = dag.len();
        for i in 0..n
            invariant
                n == ks.len(),
                ks == dag.keys_view(),
                m == dag@,
                dag.wf(),
                m.len() == ks.len(),
                m.dom() == ks.to_set(),
                total == counter_fold(m, ks.subrange(0, i as int)),
        {
            let ghost pre = ks.subrange(0, i + 1);
            proof {
                assert(pre.drop_last() =~= ks.subrange(0, i as int));
                assert(ks.to_set().contains(ks[i as int]));
            }
            let e = dag.event_at(i);
            let mut add: i64 = 0;
            if let Payload::Data { kind, value } = &e.payload {
                proof {
                    reveal_strlit("increment");
                    assert("increment"@ =~= increment_kind());
                }
                if text_is(kind, "increment") {
                    if let Some(x) = value.as_i64() {
                        add = x;
                    }
                }
            }
            total = total.wrapping_add(add);
        }
        proof {
            assert(ks.subrange(0, n as int) =~= ks);
        }
        total
    }
}

impl JcKernel {
    /// Well-formedness of the history and of the operator.
    pub closed spec fn wf(&self) -> bool {
        self.dag.wf() && self.nf.wf()
    }

    /// The history.
    pub closed spec fn history(&self) -> Map<Seq<char>, EventView> {
        self.dag@
    }

    /// The configuration of the normal-form operator.
    pub closed spec fn settings(&self) -> NfConfig {
        self.nf.settings()
    }

    /// The counts summed over all appends.
    pub closed spec fn totals(&self) -> NfStats {
        self.total_stats
    }

    /// A kernel whose history holds the genesis event alone.
    pub fn new(config: NfConfig) -> (r: Self)
        ensures
            r.wf(),
            r.settings() == config,
            r.history() == genesis_history(),
            r.totals() == (NfStats {
                iterations: 0,
                cones_merged: 0,
                chains_contracted: 0,
                noops_eliminated: 0,
                events_before: 0,
                events_after: 0,
            }),
    {
        let mut k = JcKernel {
            dag: CausalDag::new(),
            nf: NormalForm::new(config),
            total_stats: NfStats {
                iterations: 0,
                cones_merged: 0,
                chains_contracted: 0,
                noops_eliminated: 0,
                events_before: 0,
                events_after: 0,
            },
        };
        let g = Event::genesis();
        let ghost gv = g@;
        k.dag.insert(g);
        proof {
            assert(k.dag@ == Map::<Seq<char>, EventView>::empty().insert(gv.id, gv));
        }
        k
    }

    /// The history, as a DAG.
    pub fn history_dag(&self) -> (r: &CausalDag)
        requires
            self.wf(),
        ensures
            r.wf(),
            r@ == self.history(),
    {
        &self.dag
    }

    /// Replaces the history.
    pub fn set_history(&mut self, dag: CausalDag)
        requires
            old(self).wf(),
            dag.wf(),
        ensures
            final(self).wf(),
            final(self).history() == dag@,
            final(self).settings() == old(self).settings(),
            final(self).totals() == old(self).totals(),
    {
        self.dag = dag;
    }

    /// Inserts `event` (a key already present is left alone) and reduces the
    /// history; returns the counts of that reduction and adds them to the
    /// totals (each total capped at the largest `usize`).
    pub fn append(&mut self, event: Event) -> (r: NfStats)
        requires
            old(self).wf(),
            event.wf(),
        ensures
            final(self).wf(),
            final(self).settings() == old(self).settings(),
            reduction(old(self).settings(), insert_event(old(self).history(), event@), final(self).history(), r),
            final(self).totals().events_after == final(self).history().len(),
            final(self).totals().cones_merged == crate::nf::capped(
                old(self).totals().cones_merged + r.cones_merged,
            ),
            final(self).totals().chains_contracted == crate::nf::capped(
                old(self).totals().chains_contracted + r.chains_contracted,
            ),
            final(self).totals().noops_eliminated == crate::nf::capped(
                old(self).totals().noops_eliminated + r.noops_eliminated,
            ),
            final(self).totals().iterations == old(self).totals().iterations,
            final(self).totals().events_before == old(self).totals().events_before,
    {
        self.dag.insert(event);
        let res = self.nf.reduce(&mut self.dag);
        self.total_stats.events_after = self.dag.len();
        self.total_stats.cones_merged = self.total_stats.cones_merged.saturating_add(res.cones_merged);
        self.total_stats.chains_contracted = self.total_stats.chains_contracted.saturating_add(res.chains_contracted);
        self.total_stats.noops_eliminated = self.total_stats.noops_eliminated.saturating_add(res.noops_eliminated);
        res
    }

    /// The state of the history under `f`.
    pub fn state<F: SemanticFunctor>(&self, f: &F) -> (r: F::State)
        requires
            self.wf(),
        ensures
            r.deep_view() == f.meaning(self.history()),
    {
        f.interpret(&self.dag)
    }

    /// The tips of the history.
    pub fn frontier(&self) -> (r: IdSet)
        requires
            self.wf(),
        ensures
            r.wf(),
            r.set() == frontier_set(self.history()),
    {
        self.dag.frontier()
    }

    /// The number of events in the history.
    pub fn history_size(&self) -> (n: usize)
        requires
            self.wf(),
        ensures
            n == self.history().len(),
    {
        self.dag.len()
    }

    /// A data event whose parents are the current tips.
    pub fn new_event(&self, kind: String, value: JsonValue) -> (r: Event)
        requires
            self.wf(),
        ensures
            r.wf(),
            r@.payload == (PayloadView::Data { kind: kind@, value: value@ }),
            r@.parents.to_set() == frontier_set(self.history()),
            content_addressed(r@),
    {
        let f = self.frontier();
        Event::data(kind, value, f)
    }

    /// A no-op event whose parents are the current tips.
    pub fn new_noop(&self) -> (r: Event)
        requires
            self.wf(),
        ensures
            r.wf(),
            r@.payload == PayloadView::Noop,
            r@.parents.to_set() == frontier_set(self.history()),
            content_addressed(r@),
    {
        let f = self.frontier();
        Event::noop(f)
    }
}

impl Default for JcKernel {
    fn default() -> (r: Self)
        ensures
            r.wf(),
            r.settings() == crate::nf::default_config(),
            r.history() == genesis_history(),
    {
        JcKernel::new(NfConfig::default())
    }
}

/// A copy of a key-value state.
pub fn copy_kv(s: &KvState) -> (r: KvState)
    requires
        s.wf(),
    ensures
        r.wf(),
        r@ == s@,
{
    let mut r: KvState = IdMap::new();
    let n = s.len();
    proof {
        s.lemma_view();
    }
    let ghost ks = s.keys_view();
    for i in 0..n
        invariant
            s.wf(),
            ks == s.keys_view(),
            n == s@.len(),
            n == ks.len(),
            s@.dom() == ks.to_set(),
            r.wf(),
            forall|k: Seq<char>| #[trigger] r@.contains_key(k) <==> exists|j: int| 0 <= j < i && ks[j] == k,
            forall|k: Seq<char>| #[trigger] r@.contains_key(k) ==> r@[k] == s@[k],
    {
        let k = s.key_at(i);
        let v = s.val_at(i);
        r.insert(k.clone(), v.duplicate());
        proof {
            assert forall|x: Seq<char>| #[trigger] r@.contains_key(x) <==> exists|j: int| 0 <= j < i + 1 && ks[j] == x by {
                if x == ks[i as int] {
                    assert(ks[i as int] == x);
                }
            }
        }
    }
    proof {
        assert forall|x: Seq<char>| #[trigger] r@.contains_key(x) <==> s@.contains_key(x) by {
            if s@.contains_key(x) {
                assert(ks.to_set().contains(x));
                let j = choose|j: int| 0 <= j < ks.len() && ks[j] == x;
            }
        }
        assert(r@ =~= s@);
    }
    r
}

/// A key-value functor that keeps the last state it computed, with the
/// history size it was computed at.
pub struct CachedKvFunctor {
    cache: Option<(usize, KvState)>,
}

impl CachedKvFunctor {
    /// The cached size and state, if any.
    pub closed spec fn cached(&self) -> Option<(usize, Map<Seq<char>, Seq<char>>)> {
        match self.cache {
            Some((n, s)) => Some((n, s@)),
            None => None,
        }
    }

    /// Well-formedness of the cached state.
    pub closed spec fn wf(&self) -> bool {
        match self.cache {
            Some((_, s)) => s.wf(),
            None => true,
        }
    }

    /// A functor with nothing cached.
    pub fn new() -> (r: Self)
        ensures
            r.wf(),
            r.cached() is None,
    {
        CachedKvFunctor { cache: None }
    }

    /// The key-value state of `kernel`: the cached one where it was computed
    /// at the current history size, else a fresh one, which is cached.
    pub fn get(&mut self, kernel: &JcKernel) -> (r: KvState)
        requires
            old(self).wf(),
            kernel.wf(),
        ensures
            final(self).wf(),
            r.wf(),
            (old(self).cached() matches Some((n, _)) && n == kernel.history().len()) ==> r@ == old(
                self,
            ).cached().unwrap().1 && final(self).cached() == old(self).cached(),
            !(old(self).cached() matches Some((n, _)) && n == kernel.history().len()) ==> r@ == kv_fold(
                kernel.history(),
                topo(kernel.history()),
            ) && final(self).cached() == Some((kernel.history().len() as usize, r@)),
    {
        let size = kernel.history_size();
        if let Some((s, state)) = &self.cache {
            if *s == size {
                return copy_kv(state);
            }
        }
        let state = KvFunctor.interpret(&kernel.dag);
        let kept = copy_kv(&state);
        self.cache = Some((size, kept));
        state
    }

    /// Drops the cached state.
    pub fn invalidate(&mut self)
        ensures
            final(self).wf(),
            final(self).cached() is None,
    {
        self.cache = None;
    }
}

impl Default for CachedKvFunctor {
    fn default() -> (r: Self)
        ensures
            r.wf(),
            r.cached() is None,
    {
        CachedKvFunctor::new()
    }
}

/// Law: appending one event to a causally closed history without no-ops
/// whose parent lists are in order, then normalizing with the default
/// configuration, either changes the history's size or leaves the history as
/// it was. So a key-value state cached at a history size (`CachedKvFunctor`)
/// is still the fresh one when the size has not changed.
pub proof fn lemma_cached_size_means_same_history(h: Map<Seq<char>, EventView>, e: EventView)
    requires
        h.dom().finite(),
        crate::dag::causally_closed(h),
        !crate::nf::has_noop(h),
        forall|k: Seq<char>| #[trigger] h.contains_key(k) ==> crate::ids::strictly_sorted(h[k].parents),
    ensures
        crate::nf::nf_of(insert_event(h, e)).len() == h.len() ==> crate::nf::nf_of(insert_event(h, e)) == h,
        crate::nf::nf_of(insert_event(h, e)).len() == h.len() ==> kv_fold(
            crate::nf::nf_of(insert_event(h, e)),
            topo(crate::nf::nf_of(insert_event(h, e))),
        ) == kv_fold(h, topo(h)),
        crate::nf::nf_of(insert_event(h, e)) == h || (!h.contains_key(e.id) && !(e.payload is Noop)
            && crate::nf::nf_of(insert_event(h, e)) == h.insert(e.id, e)),
{
    let u = insert_event(h, e);
    if h.contains_key(e.id) {
        crate::nf::lemma_nf_of_noop_free(h);
    } else if !(e.payload is Noop) {
        assert(!crate::nf::has_noop(u)) by {
            if crate::nf::has_noop(u) {
                let k = choose|k: Seq<char>| #[trigger] crate::nf::noop_keys(u).contains(k);
                if k != e.id {
                    assert(crate::nf::noop_keys(h).contains(k));
                }
            }
        }
        crate::nf::lemma_nf_of_noop_free(u);
        assert(u.dom() =~= h.dom().insert(e.id));
    } else {
        let t = crate::nf::noop_keys(u);
        assert(t =~= set![e.id]) by {
            assert forall|k: Seq<char>| #[trigger] t.contains(k) <==> k == e.id by {
                if t.contains(k) && k != e.id {
                    assert(crate::nf::noop_keys(h).contains(k));
                }
            }
        }
        assert(t.contains(e.id) && u.contains_key(e.id));
        let c = crate::dag::compacted(u, t);
        assert forall|k: Seq<char>| #[trigger] c.contains_key(k) <==> h.contains_key(k) by {}
        assert forall|k: Seq<char>| #[trigger] c.contains_key(k) implies c[k] == h[k] by {
            let ps = h[k].parents;
            assert(u[k] == h[k]);
            assert(crate::dag::rewired_parents(u, t, ps) =~= ps.to_set()) by {
                assert forall|r: Seq<char>| #[trigger] crate::dag::rewired_parents(u, t, ps).contains(r) <==> ps.to_set().contains(r) by {
                    assert forall|i: int| 0 <= i < ps.len() implies crate::dag::resolved_set(u, t, #[trigger] ps[i]) == set![ps[i]] by {
                        assert(crate::dag::parent_of(h, ps[i], k));
                        assert(h.contains_key(ps[i]));
                    }
                    if ps.to_set().contains(r) {
                        let i = choose|i: int| 0 <= i < ps.len() && ps[i] == r;
                        assert(crate::dag::resolved_set(u, t, ps[i]).contains(r));
                    }
                }
            }
            crate::ids::lemma_sorted_of(ps);
        }
        assert(c =~= h);
    }
}

/// The history after appending `es` one after the other to `h`, each append
/// normalized with the default configuration.
pub open spec fn appended_all(h: Map<Seq<char>, EventView>, es: Seq<EventView>) -> Map<Seq<char>, EventView>
    decreases es.len(),
{
    if es.len() == 0 {
        h
    } else {
        crate::nf::nf_of(insert_event(appended_all(h, es.drop_last()), es.last()))
    }
}

/// Each of `es` has its parents in order, and all of them present in the
/// history it is appended to.
pub open spec fn appends_connected(h: Map<Seq<char>, EventView>, es: Seq<EventView>) -> bool {
    forall|i: int| #![trigger es[i]]
        0 <= i < es.len() ==> crate::ids::strictly_sorted(es[i].parents) && forall|p: Seq<char>|
            #[trigger] es[i].parents.contains(p) ==> appended_all(h, es.subrange(0, i)).contains_key(p)
}

/// A causally closed history without no-ops whose parent lists are in order.
pub open spec fn tidy(h: Map<Seq<char>, EventView>) -> bool {
    &&& h.dom().finite()
    &&& crate::dag::causally_closed(h)
    &&& !crate::nf::has_noop(h)
    &&& forall|k: Seq<char>| #[trigger] h.contains_key(k) ==> crate::ids::strictly_sorted(h[k].parents)
}

/// Law: appending events one after the other (each with its parents in
/// order and present) to a causally closed history without no-ops, under the
/// default configuration, never shrinks it, and leaves it as it was whenever
/// its size comes back unchanged. So the key-value state `CachedKvFunctor`
/// keeps for a history size is the fresh one after any such appends that
/// keep the size.
pub proof fn lemma_cached_state_over_appends(h: Map<Seq<char>, EventView>, es: Seq<EventView>)
    requires
        tidy(h),
        appends_connected(h, es),
    ensures
        tidy(appended_all(h, es)),
        appended_all(h, es).len() >= h.len(),
        appended_all(h, es).len() == h.len() ==> appended_all(h, es) == h,
        appended_all(h, es).len() == h.len() ==> kv_fold(appended_all(h, es), topo(appended_all(h, es))) == kv_fold(
            h,
            topo(h),
        ),
    decreases es.len(),
{
    if es.len() > 0 {
        let q = es.drop_last();
        let n = q.len() as int;
        assert forall|i: int| #![trigger q[i]] 0 <= i < q.len() implies crate::ids::strictly_sorted(q[i].parents) && forall|p: Seq<char>|
            #[trigger] q[i].parents.contains(p) ==> appended_all(h, q.subrange(0, i)).contains_key(p) by {
            assert(q[i] == es[i]);
            assert(q.subrange(0, i) =~= es.subrange(0, i));
        }
        lemma_cached_state_over_appends(h, q);
        let h1 = appended_all(h, q);
        let e = es.last();
        assert(e == es[n]);
        assert(es.subrange(0, n) =~= q);
        lemma_cached_size_means_same_history(h1, e);
        lemma_append_keeps_closure(h1, e);
        let r = appended_all(h, es);
        assert(r == crate::nf::nf_of(insert_event(h1, e)));
        if r != h1 {
            assert(r == h1.insert(e.id, e));
            assert(r.dom() =~= h1.dom().insert(e.id));
            assert(!crate::nf::has_noop(r)) by {
                if crate::nf::has_noop(r) {
                    let k = choose|k: Seq<char>| #[trigger] crate::nf::noop_keys(r).contains(k);
                    if k != e.id {
                        assert(crate::nf::noop_keys(h1).contains(k));
                    }
                }
            }
        }
    }
}

/// The event under `k` is a data event of kind "log".
pub open spec fn is_log_event(m: Map<Seq<char>, EventView>, k: Seq<char>) -> bool {
    m.contains_key(k) && match m[k].payload {
        PayloadView::Data { kind, value } => kind == seq!['l', 'o', 'g'],
        _ => false,
    }
}

/// The value carried by a data event.
pub open spec fn data_value(e: EventView) -> Seq<char> {
    match e.payload {
        PayloadView::Data { kind, value } => value,
        _ => Seq::empty(),
    }
}

/// The values of the log events among `r`, in order, one per log event.
proof fn lemma_log_fold_filter(m: Map<Seq<char>, EventView>, r: Seq<Seq<char>>)
    ensures
        log_fold(m, r) == r.filter(|k: Seq<char>| is_log_event(m, k)).map_values(|k: Seq<char>| data_value(m[k])),
    decreases r.len(),
{
    let f = |k: Seq<char>| is_log_event(m, k);
    if r.len() == 0 {
        assert(r.filter(f) =~= Seq::<Seq<char>>::empty()) by {
            r.filter_lemma(f);
        }
    } else {
        let q = r.drop_last();
        let x = r.last();
        lemma_log_fold_filter(m, q);
        assert(r =~= q + seq![x]);
        Seq::filter_distributes_over_add(q, seq![x], f);
        if f(x) {
            assert(seq![x].filter(f) =~= seq![x]) by {
                reveal_with_fuel(Seq::filter, 2);
            }
        } else {
            assert(seq![x].filter(f) =~= Seq::<Seq<char>>::empty()) by {
                reveal_with_fuel(Seq::filter, 2);
            }
        }
        assert(r.filter(f) == q.filter(f) + seq![x].filter(f));
        let g = |k: Seq<char>| data_value(m[k]);
        if f(x) {
            assert((q.filter(f) + seq![x]).map_values(g) =~= q.filter(f).map_values(g).push(g(x)));
        } else {
            assert(q.filter(f) + Seq::<Seq<char>>::empty() =~= q.filter(f));
        }
    }
}

/// Law: the log holds exactly one entry per log event of the history: the
/// values of the events of kind "log", in the order the topological order
/// lists them, repeats included.
pub proof fn lemma_log_is_every_log_event(m: Map<Seq<char>, EventView>)
    ensures
        LogFunctor.meaning(m) == topo(m).filter(|k: Seq<char>| is_log_event(m, k)).map_values(
            |k: Seq<char>| data_value(m[k]),
        ),
        LogFunctor.meaning(m).len() == topo(m).filter(|k: Seq<char>| is_log_event(m, k)).len(),
{
    lemma_log_fold_filter(m, topo(m));
}

/// `p` is a data event of kind "set" whose value has a member "key" holding
/// the JSON string `key` and a member "val" with text `val`, whatever kind of
/// JSON value that is.
pub open spec fn sets(p: PayloadView, key: Seq<char>, val: Seq<char>) -> bool {
    match p {
        PayloadView::Data { kind, value } => {
            &&& kind == seq!['s', 'e', 't']
            &&& json_member(value, seq!['v', 'a', 'l']) == Some(val)
            &&& match json_member(value, seq!['k', 'e', 'y']) {
                Some(kt) => json_as_str(kt) == Some(key),
                None => false,
            }
        },
        _ => false,
    }
}

/// Folding writes over `r` where the `i`-th event sets `key` to `val` and no
/// later one sets `key` leaves `key` mapped to `val`.
proof fn lemma_kv_fold_last_write(m: Map<Seq<char>, EventView>, r: Seq<Seq<char>>, i: int, key: Seq<char>, val: Seq<char>)
    requires
        0 <= i < r.len(),
        m.contains_key(r[i]),
        sets(m[r[i]].payload, key, val),
        forall|j: int, v: Seq<char>| i < j < r.len() && m.contains_key(r[j]) ==> !#[trigger] sets(m[r[j]].payload, key, v),
    ensures
        kv_fold(m, r).contains_key(key),
        kv_fold(m, r)[key] == val,
    decreases r.len(),
{
    let q = r.drop_last();
    let x = r.last();
    if i == r.len() - 1 {
        assert(x == r[i]);
    } else {
        assert(q[i] == r[i]);
        assert forall|j: int, v: Seq<char>| i < j < q.len() && m.contains_key(q[j]) implies !#[trigger] sets(m[q[j]].payload, key, v) by {
            assert(q[j] == r[j]);
            assert(!sets(m[r[j]].payload, key, v));
        }
        lemma_kv_fold_last_write(m, q, i, key, val);
        if m.contains_key(x) {
            match kv_write(m[x].payload) {
                Some((k2, v2)) => {
                    assert(x == r[r.len() - 1]);
                    assert(sets(m[x].payload, k2, v2));
                    assert(k2 != key);
                },
                None => {},
            }
        }
    }
}

/// Law: a set event whose value has a string member "key" and any member
/// "val" (a string, a number, a boolean, an object, ...) writes that val:
/// where it is the last such write of its key in topological order, the
/// key-value state maps the key to the val's text.
pub proof fn lemma_kv_last_write_wins(m: Map<Seq<char>, EventView>, i: int, key: Seq<char>, val: Seq<char>)
    requires
        0 <= i < topo(m).len(),
        m.contains_key(topo(m)[i]),
        sets(m[topo(m)[i]].payload, key, val),
        forall|j: int, v: Seq<char>|
            i < j < topo(m).len() && m.contains_key(topo(m)[j]) ==> !#[trigger] sets(m[topo(m)[j]].payload, key, v),
    ensures
        KvFunctor.meaning(m).contains_key(key),
        KvFunctor.meaning(m)[key] == val,
{
    lemma_kv_fold_last_write(m, topo(m), i, key, val);
}

/// Appending an event whose parents are all present to a causally closed
/// history, then normalizing with the default configuration, keeps the
/// history causally closed.
pub proof fn lemma_append_keeps_closure(h: Map<Seq<char>, EventView>, e: EventView)
    requires
        h.dom().finite(),
        crate::dag::causally_closed(h),
        forall|p: Seq<char>| #[trigger] e.parents.contains(p) ==> h.contains_key(p),
    ensures
        crate::dag::causally_closed(crate::nf::nf_of(insert_event(h, e))),
{
    let u = insert_event(h, e);
    assert(crate::dag::causally_closed(u)) by {
        assert forall|p: Seq<char>, c: Seq<char>| #[trigger] crate::dag::parent_of(u, p, c) implies u.contains_key(p) by {
            if !h.contains_key(e.id) && c == e.id {
                assert(e.parents.contains(p));
            } else {
                assert(crate::dag::parent_of(h, p, c));
            }
        }
    }
    assert(u.dom().finite()) by {
        if !h.contains_key(e.id) {
            assert(u.dom() =~= h.dom().insert(e.id));
        }
    }
    crate::dag::lemma_compaction_keeps_closure(u, crate::nf::noop_keys(u));
}

/// Appending an event that is not a no-op to a history without no-ops never
/// shrinks it.
pub proof fn lemma_data_append_monotone(h: Map<Seq<char>, EventView>, e: EventView)
    requires
        h.dom().finite(),
        !crate::nf::has_noop(h),
        !(e.payload is Noop),
    ensures
        crate::nf::nf_of(insert_event(h, e)) == insert_event(h, e),
        crate::nf::nf_of(insert_event(h, e)).len() >= h.len(),
{
    let u = insert_event(h, e);
    assert(!crate::nf::has_noop(u)) by {
        if crate::nf::has_noop(u) {
            let k = choose|k: Seq<char>| #[trigger] crate::nf::noop_keys(u).contains(k);
            if h.contains_key(k) {
                assert(crate::nf::noop_keys(h).contains(k));
            }
        }
    }
    crate::nf::lemma_nf_of_noop_free(u);
    if !h.contains_key(e.id) {
        assert(u.dom() =~= h.dom().insert(e.id));
    }
}

/// Keeping the entries of `r` that `keep` holds.
pub open spec fn kept(r: Seq<Seq<char>>, keep: Set<Seq<char>>) -> Seq<Seq<char>>
    decreases r.len(),
{
    if r.len() == 0 {
        Seq::empty()
    } else if keep.contains(r.last()) {
        kept(r.drop_last(), keep).push(r.last())
    } else {
        kept(r.drop_last(), keep)
    }
}

proof fn lemma_kept_sorted(r: Seq<Seq<char>>, keep: Set<Seq<char>>)
    requires
        crate::ids::strictly_sorted(r),
    ensures
        crate::ids::strictly_sorted(kept(r, keep)),
        kept(r, keep).to_set() == r.to_set().intersect(keep),
        forall|i: int| 0 <= i < kept(r, keep).len() ==> r.contains(#[trigger] kept(r, keep)[i]),
    decreases r.len(),
{
    if r.len() > 0 {
        let p = r.drop_last();
        assert(crate::ids::strictly_sorted(p)) by {
            assert forall|a: int, b: int| 0 <= a < b < p.len() implies crate::ids::id_lt(#[trigger] p[a], #[trigger] p[b]) by {
                assert(p[a] == r[a] && p[b] == r[b]);
            }
        }
        lemma_kept_sorted(p, keep);
        let kp = kept(p, keep);
        crate::ids::lemma_push_to_set(p, r.last());
        assert(r =~= p.push(r.last()));
        if keep.contains(r.last()) {
            let k = kp.push(r.last());
            assert forall|a: int, b: int| 0 <= a < b < k.len() implies crate::ids::id_lt(#[trigger] k[a], #[trigger] k[b]) by {
                if b == kp.len() {
                    assert(p.contains(kp[a]));
                    let q = choose|q: int| 0 <= q < p.len() && p[q] == kp[a];
                    assert(r[q] == kp[a]);
                    assert(crate::ids::id_lt(r[q], r[r.len() - 1]));
                } else {
                    assert(k[a] == kp[a] && k[b] == kp[b]);
                }
            }
            crate::ids::lemma_push_to_set(kp, r.last());
            assert(k.to_set() =~= r.to_set().intersect(keep));
            assert forall|i: int| 0 <= i < k.len() implies r.contains(#[trigger] k[i]) by {
                if i < kp.len() {
                    assert(p.contains(kp[i]));
                    let q = choose|q: int| 0 <= q < p.len() && p[q] == kp[i];
                    assert(r[q] == k[i]);
                } else {
                    assert(r[r.len() - 1] == k[i]);
                }
            }
        } else {
            assert(kp.to_set() =~= r.to_set().intersect(keep));
            assert forall|i: int| 0 <= i < kp.len() implies r.contains(#[trigger] kp[i]) by {
                assert(p.contains(kp[i]));
                let q = choose|q: int| 0 <= q < p.len() && p[q] == kp[i];
                assert(r[q] == kp[i]);
            }
        }
    }
}

proof fn lemma_counter_fold_kept(m: Map<Seq<char>, EventView>, m2: Map<Seq<char>, EventView>, r: Seq<Seq<char>>, keep: Set<Seq<char>>)
    requires
        forall|k: Seq<char>| #[trigger] keep.contains(k) ==> (m2.contains_key(k) <==> m.contains_key(k)),
        forall|k: Seq<char>| #[trigger] keep.contains(k) && m.contains_key(k) ==> m2[k].payload == m[k].payload,
        forall|k: Seq<char>| #[trigger] r.contains(k) && !keep.contains(k) && m.contains_key(k) ==> increment_of(m[k].payload) == 0,
    ensures
        counter_fold(m, r) == counter_fold(m2, kept(r, keep)),
    decreases r.len(),
{
    if r.len() > 0 {
        let p = r.drop_last();
        assert forall|k: Seq<char>| #[trigger] p.contains(k) && !keep.contains(k) && m.contains_key(k) implies increment_of(m[k].payload) == 0 by {
            let q = choose|q: int| 0 <= q < p.len() && p[q] == k;
            assert(r[q] == k);
            assert(r.contains(k));
        }
        lemma_counter_fold_kept(m, m2, p, keep);
        let x = r.last();
        assert(r.contains(x)) by {
            assert(r[r.len() - 1] == x);
        }
        let kp = kept(p, keep);
        if keep.contains(x) {
            assert(kept(r, keep) == kp.push(x));
            assert(kp.push(x).drop_last() =~= kp);
            assert(kp.push(x).last() == x);
        } else {
            assert(kept(r, keep) == kp);
            if m.contains_key(x) {
                assert(increment_of(m[x].payload) == 0);
                let s = counter_fold(m, p);
                assert(s.wrapping_add(0) == s);
            }
        }
    }
}

/// No-ops never change the counter: the counter of the normal form is the
/// counter of the history.
pub proof fn lemma_counter_ignores_noops(m: Map<Seq<char>, EventView>)
    requires
        m.dom().finite(),
    ensures
        CounterFunctor.meaning(crate::nf::nf_of(m)) == CounterFunctor.meaning(m),
{
    let t = crate::nf::noop_keys(m);
    let c = crate::nf::nf_of(m);
    let keep = m.dom().difference(t);
    crate::ids::lemma_sorted_of_finite(m.dom());
    let r = crate::ids::sorted_of(m.dom());
    crate::nf::lemma_compacted_keeps_payloads(m, t);
    if forall|k: Seq<char>| #[trigger] t.contains(k) ==> !m.contains_key(k) {
        assert(c == m);
    } else {
        assert(c.dom() =~= keep);
        lemma_kept_sorted(r, keep);
        assert(kept(r, keep).to_set() =~= keep);
        assert(c.dom().finite()) by {
            vstd::set_lib::lemma_len_subset(keep, m.dom());
        }
        crate::ids::lemma_sorted_of_finite(c.dom());
        crate::ids::lemma_sorted_unique(crate::ids::sorted_of(c.dom()), kept(r, keep));
        assert forall|k: Seq<char>| #[trigger] r.contains(k) && !keep.contains(k) && m.contains_key(k) implies increment_of(
            m[k].payload,
        ) == 0 by {
            assert(t.contains(k));
        }
        lemma_counter_fold_kept(m, c, r, keep);
    }
}

} // verus!
