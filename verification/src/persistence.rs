//! Persistence: event stores (write-ahead logs), snapshots, and a kernel that
//! writes every event to a store before applying it.
//!
//! ```text
//! 1. Take a snapshot of nf(H) every N events
//! 2. Append raw events to the log between snapshots
//! 3. On startup: load the latest snapshot, replay the log tail
//! ```

use vstd::prelude::*;
use crate::ids::{EventId, IdSet};
use crate::event::{Event, EventView, Payload, PayloadView, built};
use crate::dag::{CausalDag, insert_event, insert_events};
use crate::kernel::{JcKernel, SemanticFunctor, genesis_history};
use crate::nf::{NfConfig, NfStats, reduction, default_config, nf_of, lemma_default_reduction};
use crate::json::JsonValue;
use vstd::string::StringExecFns;

verus! {

/// Durable storage for events, written ahead of the history it feeds.
pub trait EventStore {
    type Error;

    /// The store's own consistency condition.
    open spec fn inv(&self) -> bool {
        true
    }

    /// The stored events in the order they were appended, where the store
    /// states them; `None`, the default, states nothing.
    open spec fn stored(&self) -> Option<Seq<EventView>> {
        None
    }

    /// Appends one event to the store; an event whose identifier is stored
    /// already is ignored. A failure leaves the stored events as they were.
    fn append(&mut self, event: &Event) -> (r: Result<(), Self::Error>)
        requires
            old(self).inv(),
        ensures
            final(self).inv(),
            old(self).stored() matches Some(l) ==> final(self).stored() == Some(
                if r is Ok { appended_once(l, event@) } else { l },
            ),
    ;

    /// Loads all events in the order they were appended.
    fn load_all(&self) -> (r: Result<Vec<Event>, Self::Error>)
        requires
            self.inv(),
        ensures
            r matches Ok(v) ==> (self.stored() matches Some(l) ==> v@.map_values(|e: Event| e@) == l),
    ;

    /// The identifiers of the stored events.
    fn known_ids(&self) -> (r: Result<IdSet, Self::Error>)
        requires
            self.inv(),
        ensures
            r matches Ok(s) ==> (self.stored() matches Some(l) ==> s.wf() && s.set() == l.map_values(
                |e: EventView| e.id,
            ).to_set()),
    ;

    /// The number of stored events.
    fn len(&self) -> (r: Result<usize, Self::Error>)
        requires
            self.inv(),
        ensures
            r matches Ok(n) ==> (self.stored() matches Some(l) ==> n == l.len()),
    ;

    /// True iff the store holds no event: asks `len` and compares its count
    /// with zero; an error of `len` is returned as it is.
    fn is_empty(&self) -> (r: Result<bool, Self::Error>)
        requires
            self.inv(),
        ensures
            r matches Ok(b) ==> (self.stored() matches Some(l) ==> b == (l.len() == 0)),
    {
        match self.len() {
            Ok(n) => Ok(n == 0),
            Err(e) => Err(e),
        }
    }
}

/// The log after appending `e` where its identifier is new.
pub open spec fn appended_once(log: Seq<EventView>, e: EventView) -> Seq<EventView> {
    if exists|i: int| 0 <= i < log.len() && #[trigger] log[i].id == e.id {
        log
    } else {
        log.push(e)
    }
}

/// In-memory event store.
#[derive(Debug, Clone)]
pub struct MemoryStore {
    log: Vec<Event>,
    ids: IdSet,
}

/// The error of an in-memory store (never produced).
#[derive(Debug, Clone, PartialEq, Eq)]
pub struct MemoryError(pub String);

impl MemoryError {
    /// The error's text: `MemoryStore error: ` and the detail.
    pub fn message(&self) -> (r: String)
        ensures
            r@ == "MemoryStore error: "@ + self.0@,
    {
        let mut s = "MemoryStore error: ".to_owned();
        s.append(self.0.as_str());
        s
    }
}

impl MemoryStore {
    /// The stored events, in the order they were appended.
    pub closed spec fn log_view(&self) -> Seq<EventView> {
        self.log@.map_values(|e: Event| e@)
    }

    /// Well-formedness: the identifier set holds exactly the logged
    /// identifiers.
    pub closed spec fn wf(&self) -> bool {
        &&& self.ids.wf()
        &&& forall|k: Seq<char>| #[trigger] self.ids.set().contains(k) <==> exists|i: int|
            0 <= i < self.log@.len() && self.log@[i]@.id == k
    }

    /// An empty store.
    pub fn new() -> (r: Self)
        ensures
            r.wf(),
            r.log_view() == Seq::<EventView>::empty(),
    {
        let r = MemoryStore { log: Vec::new(), ids: IdSet::new() };
        assert(r.log_view() =~= Seq::<EventView>::empty());
        r
    }

    /// The stored events.
    pub fn events(&self) -> (r: &[Event])
        ensures
            r@.map_values(|e: Event| e@) == self.log_view(),
    {
        self.log.as_slice()
    }
}

impl EventStore for MemoryStore {
    type Error = MemoryError;

    open spec fn inv(&self) -> bool {
        self.wf()
    }

    open spec fn stored(&self) -> Option<Seq<EventView>> {
        Some(self.log_view())
    }

    /// Appends `event` unless an event with its identifier is stored.
    fn append(&mut self, event: &Event) -> (r: Result<(), MemoryError>)
        ensures
            final(self).log_view() == appended_once(old(self).log_view(), event@),
            r is Ok,
    {
        let ghost l0 = self.log_view();
        let known = self.ids.contains(&event.id);
        proof {
            assert(self.ids.set().contains(event@.id) == self.ids@.contains(event@.id));
        }
        if !known {
            self.ids.insert(event.id.clone());
            self.log.push(event.duplicate());
            proof {
                assert(self.log_view() =~= l0.push(event@));
                {
                    assert(!exists|i: int| 0 <= i < l0.len() && #[trigger] l0[i].id == event@.id) by {
                        if exists|i: int| 0 <= i < l0.len() && #[trigger] l0[i].id == event@.id {
                            let i = choose|i: int| 0 <= i < l0.len() && #[trigger] l0[i].id == event@.id;
                            assert(old(self).log@[i]@.id == event@.id);
                        }
                    }
                    assert forall|k: Seq<char>| #[trigger] self.ids.set().contains(k) <==> exists|i: int|
                        0 <= i < self.log@.len() && self.log@[i]@.id == k by {
                        if exists|i: int| 0 <= i < old(self).log@.len() && old(self).log@[i]@.id == k {
                            let i = choose|i: int| 0 <= i < old(self).log@.len() && old(self).log@[i]@.id == k;
                            assert(self.log@[i] == old(self).log@[i]);
                        }
                        if exists|i: int| 0 <= i < self.log@.len() && self.log@[i]@.id == k {
                            let i = choose|i: int| 0 <= i < self.log@.len() && self.log@[i]@.id == k;
                            if i < old(self).log@.len() {
                                assert(self.log@[i] == old(self).log@[i]);
                            }
                        }
                        if k == event@.id {
                            assert(self.log@[old(self).log@.len() as int]@.id == k);
                        }
                    }
                }
            }
        } else {
            proof {
                assert(self.ids.set().contains(event@.id));
                let i = choose|i: int| 0 <= i < old(self).log@.len() && old(self).log@[i]@.id == event@.id;
                assert(l0[i].id == event@.id);
            }
        }
        Ok(())
    }

    /// Copies of the stored events, in order.
    fn load_all(&self) -> (r: Result<Vec<Event>, MemoryError>)
        ensures
            r matches Ok(v) && v@.map_values(|e: Event| e@) == self.log_view(),
    {
        let mut v: Vec<Event> = Vec::new();
        let n = self.log.len();
        for i in 0..n
            invariant
                n == self.log@.len(),
                v@.len() == i,
                forall|j: int| 0 <= j < i ==> (#[trigger] v@[j])@ == self.log@[j]@,
        {
            v.push(self.log[i].duplicate());
        }
        assert(v@.map_values(|e: Event| e@) =~= self.log_view());
        Ok(v)
    }

    /// The identifiers of the stored events.
    fn known_ids(&self) -> (r: Result<IdSet, MemoryError>)
        ensures
            r matches Ok(s) && s.wf() && s.set() == self.log_view().map_values(|e: EventView| e.id).to_set(),
    {
        let r = self.ids.duplicate();
        proof {
            assert(r.set() == self.ids.set());
            {
                let ids = self.log_view().map_values(|e: EventView| e.id);
                assert forall|k: Seq<char>| r.set().contains(k) <==> ids.to_set().contains(k) by {
                    if ids.to_set().contains(k) {
                        let i = choose|i: int| 0 <= i < ids.len() && ids[i] == k;
                        assert(self.log@[i]@.id == k);
                    }
                    if r.set().contains(k) {
                        assert(self.ids.set().contains(k));
                        let i = choose|i: int| 0 <= i < self.log@.len() && self.log@[i]@.id == k;
                        assert(ids[i] == k);
                    }
                }
                assert(r.set() =~= ids.to_set());
            }
        }
        Ok(r)
    }

    /// The number of stored events.
    fn len(&self) -> (r: Result<usize, MemoryError>)
        ensures
            r matches Ok(n) && n == self.log_view().len(),
    {
        Ok(self.log.len())
    }
}

/// An event as written to a store, a snapshot or the wire: identifier,
/// payload and parents.
#[derive(Debug, Clone, PartialEq, Eq)]
pub struct SerializableEvent {
    pub id: EventId,
    pub payload: Payload,
    pub parents: IdSet,
}

/// The view of a serializable event.
pub struct SerialView {
    pub id: Seq<char>,
    pub payload: PayloadView,
    pub parents: Seq<Seq<char>>,
}

impl View for SerializableEvent {
    type V = SerialView;

    open spec fn view(&self) -> SerialView {
        SerialView { id: self.id@, payload: self.payload@, parents: self.parents@ }
    }
}

/// The serializable form of an event.
pub open spec fn serial_of(e: EventView) -> SerialView {
    SerialView { id: e.id, payload: e.payload, parents: e.parents }
}

/// The event rebuilt from a serializable form: its identifier is recomputed
/// from payload and parents.
pub open spec fn rebuilt(se: SerialView) -> EventView {
    built(se.payload, se.parents)
}

impl SerializableEvent {
    /// The serializable form of `e`.
    pub fn from_event(e: &Event) -> (r: SerializableEvent)
        ensures
            r@ == serial_of(e@),
    {
        SerializableEvent { id: e.id.clone(), payload: e.payload.duplicate(), parents: e.parents.duplicate() }
    }

    /// The event rebuilt from this form (`Event::new` on payload and
    /// parents).
    pub fn to_event(&self) -> (r: Event)
        ensures
            r@ == rebuilt(self@),
            self.parents.wf() ==> r.wf(),
    {
        Event::new(self.payload.duplicate(), self.parents.duplicate())
    }
}

/// A snapshot of a normalized DAG.
#[derive(Debug, Clone)]
pub struct Snapshot {
    /// Sequence number.
    pub seq: u64,
    /// Unix seconds when taken (best effort).
    pub timestamp: u64,
    /// The events.
    pub events: Vec<SerializableEvent>,
    /// How many source events the snapshot was derived from.
    pub source_event_count: u64,
}

/// The views of serializable events.
pub open spec fn serial_views(v: Seq<SerializableEvent>) -> Seq<SerialView> {
    v.map_values(|se: SerializableEvent| se@)
}

/// Inserting, one after the other, the events rebuilt from those of `ses`
/// whose parents are in increasing order.
pub open spec fn insert_rebuilt(m: Map<Seq<char>, EventView>, ses: Seq<SerialView>) -> Map<Seq<char>, EventView>
    decreases ses.len(),
{
    if ses.len() == 0 {
        m
    } else {
        let prev = insert_rebuilt(m, ses.drop_last());
        if crate::ids::strictly_sorted(ses.last().parents) {
            insert_event(prev, rebuilt(ses.last()))
        } else {
            prev
        }
    }
}

/// Unix seconds now, or 0 where the clock is before the epoch.
#[verifier::external_body]
fn now_secs() -> (r: u64) {
    match std::time::SystemTime::now().duration_since(std::time::UNIX_EPOCH) {
        Ok(d) => d.as_secs(),
        Err(_) => 0,
    }
}

impl Snapshot {
    /// A snapshot of `dag` taken now.
    pub fn from_dag(dag: &CausalDag, seq: u64, source_event_count: u64) -> (r: Snapshot)
        requires
            dag.wf(),
        ensures
            r.seq == seq,
            r.source_event_count == source_event_count,
            serial_views(r.events@) == dag.events_view().map_values(|e: EventView| serial_of(e)),
    {
        let timestamp = now_secs();
        Snapshot::from_dag_at(dag, seq, source_event_count, timestamp)
    }

    /// A snapshot of `dag` with the given timestamp: the events in key order.
    pub fn from_dag_at(dag: &CausalDag, seq: u64, source_event_count: u64, timestamp: u64) -> (r: Snapshot)
        requires
            dag.wf(),
        ensures
            r.seq == seq,
            r.timestamp == timestamp,
            r.source_event_count == source_event_count,
            serial_views(r.events@) == dag.events_view().map_values(|e: EventView| serial_of(e)),
    {
        let mut events: Vec<SerializableEvent> = Vec::new();
        let n = dag.len();
        proof {
            dag.lemma_view();
        }
        let ghost es = dag.events_view();
        for i in 0..n
            invariant
                dag.wf(),
                es == dag.events_view(),
                n == es.len(),
                n == dag@.len(),
                events@.len() == i,
                forall|j: int| 0 <= j < i ==> (#[trigger] events@[j])@ == serial_of(es[j]),
        {
            let e = dag.event_at(i);
            proof {
                dag.lemma_view();
            }
            events.push(SerializableEvent::from_event(e));
        }
        assert(serial_views(events@) =~= es.map_values(|e: EventView| serial_of(e)));
        Snapshot { seq, timestamp, events, source_event_count }
    }

    /// The DAG rebuilt from the snapshot: each event whose parents are in
    /// increasing order is rebuilt and inserted, in order.
    pub fn to_dag(&self) -> (r: CausalDag)
        ensures
            r.wf(),
            r@ == insert_rebuilt(Map::empty(), serial_views(self.events@)),
    {
        let n = self.events.len();
        let mut dag = CausalDag::with_capacity(n);
        let ghost ses = serial_views(self.events@);
        for i in 0..n
            invariant
                n == self.events@.len(),
                ses == serial_views(self.events@),
                dag.wf(),
                dag@ == insert_rebuilt(Map::empty(), ses.subrange(0, i as int)),
        {
            let se = &self.events[i];
            proof {
                assert(ses.subrange(0, i + 1).drop_last() =~= ses.subrange(0, i as int));
                assert(ses.subrange(0, i + 1).last() == se@);
            }
            if se.parents.is_sorted() {
                dag.insert(se.to_event());
            }
        }
        assert(ses.subrange(0, n as int) =~= ses);
        dag
    }
}

/// Appending, one after the other, those of `es` whose parents are in
/// increasing order to a history kept in normal form under the default
/// configuration.
pub open spec fn replayed(h: Map<Seq<char>, EventView>, es: Seq<EventView>) -> Map<Seq<char>, EventView>
    decreases es.len(),
{
    if es.len() == 0 {
        h
    } else {
        let prev = replayed(h, es.drop_last());
        if crate::ids::strictly_sorted(es.last().parents) {
            nf_of(insert_event(prev, es.last()))
        } else {
            prev
        }
    }
}

/// Replaying the log tail after a snapshot: those of `es` with sorted parents
/// whose identifier is neither in the snapshot nor already in the history
/// are appended. Returns the history and how many were appended.
pub open spec fn restored(
    h: Map<Seq<char>, EventView>,
    snap_ids: Set<Seq<char>>,
    es: Seq<EventView>,
) -> (Map<Seq<char>, EventView>, nat)
    decreases es.len(),
{
    if es.len() == 0 {
        (h, 0)
    } else {
        let (prev, n) = restored(h, snap_ids, es.drop_last());
        let e = es.last();
        if crate::ids::strictly_sorted(e.parents) && !snap_ids.contains(e.id) && !prev.contains_key(e.id) {
            (nf_of(insert_event(prev, e)), n + 1)
        } else {
            (prev, n)
        }
    }
}

/// One step of replaying the log tail after a snapshot under `cfg`: an event
/// with sorted parents whose identifier is neither in the snapshot nor in the
/// history `h` is appended (the history reduced as a reduction under `cfg`
/// allows, the count `n` raised by one); any other leaves both unchanged.
pub open spec fn restore_step(
    cfg: NfConfig,
    snap_ids: Set<Seq<char>>,
    e: EventView,
    h: Map<Seq<char>, EventView>,
    n: nat,
    h2: Map<Seq<char>, EventView>,
    n2: nat,
) -> bool {
    if crate::ids::strictly_sorted(e.parents) && !snap_ids.contains(e.id) && !h.contains_key(e.id) {
        n2 == n + 1 && exists|stats: NfStats| #[trigger] reduction(cfg, insert_event(h, e), h2, stats)
    } else {
        h2 == h && n2 == n
    }
}

/// `hs` and `ns` are the histories and counts met while replaying `es`
/// after a snapshot under `cfg`, starting from `h` with no event appended.
pub open spec fn restore_run(
    cfg: NfConfig,
    h: Map<Seq<char>, EventView>,
    snap_ids: Set<Seq<char>>,
    es: Seq<EventView>,
    hs: Seq<Map<Seq<char>, EventView>>,
    ns: Seq<nat>,
) -> bool {
    &&& hs.len() == es.len() + 1
    &&& ns.len() == es.len() + 1
    &&& hs[0] == h
    &&& ns[0] == 0
    &&& forall|i: int| 0 <= i < es.len() ==> #[trigger] restore_step(cfg, snap_ids, es[i], hs[i], ns[i], hs[i + 1], ns[i + 1])
}

/// The serializable forms of the events of `h`, in key order: what a
/// snapshot of `h` lists.
pub open spec fn history_serials(h: Map<Seq<char>, EventView>) -> Seq<SerialView> {
    crate::ids::sorted_of(h.dom()).map_values(|k: Seq<char>| serial_of(h[k]))
}

/// The views of the events, in order.
pub open spec fn event_views(es: Seq<Event>) -> Seq<EventView> {
    es.map_values(|e: Event| e@)
}

/// The history a snapshot is rebuilt into.
pub open spec fn snapshot_history(ses: Seq<SerialView>) -> Map<Seq<char>, EventView> {
    insert_rebuilt(Map::empty(), ses)
}

/// The identifiers listed in a snapshot.
pub open spec fn snapshot_ids(ses: Seq<SerialView>) -> Set<Seq<char>> {
    ses.map_values(|se: SerialView| se.id).to_set()
}

/// Restoring a snapshot and replaying the log `es` after it.
pub open spec fn restored_tail(ses: Seq<SerialView>, es: Seq<EventView>) -> (Map<Seq<char>, EventView>, nat) {
    restored(snapshot_history(ses), snapshot_ids(ses), es)
}

/// The events under the keys `ks` that are not in `known`, in the order of
/// `ks`.
pub open spec fn events_not_in(m: Map<Seq<char>, EventView>, ks: Seq<Seq<char>>, known: Set<Seq<char>>) -> Seq<EventView>
    decreases ks.len(),
{
    if ks.len() == 0 {
        Seq::empty()
    } else {
        let prev = events_not_in(m, ks.drop_last(), known);
        if known.contains(ks.last()) {
            prev
        } else {
            prev.push(m[ks.last()])
        }
    }
}

/// A kernel that writes every event to a store before applying it, and
/// takes snapshots.
pub struct IncrementalKernel<S: EventStore> {
    pub kernel: JcKernel,
    pub store: S,
    /// Events appended (capped at the largest `u64`).
    pub event_count: u64,
    snapshot_seq: u64,
    events_since_snapshot: u64,
    /// Take a snapshot every this many events (0: never).
    pub snapshot_interval: u64,
    /// The latest snapshot.
    pub latest_snapshot: Option<Snapshot>,
}

impl<S: EventStore> IncrementalKernel<S> {
    pub closed spec fn wf(&self) -> bool {
        self.kernel.wf() && self.store.inv()
    }

    pub closed spec fn history(&self) -> Map<Seq<char>, EventView> {
        self.kernel.history()
    }

    pub closed spec fn settings(&self) -> NfConfig {
        self.kernel.settings()
    }

    pub closed spec fn count(&self) -> u64 {
        self.event_count
    }

    pub closed spec fn seq(&self) -> u64 {
        self.snapshot_seq
    }

    pub closed spec fn since_snapshot(&self) -> u64 {
        self.events_since_snapshot
    }

    /// What the store states of its events.
    pub closed spec fn store_log(&self) -> Option<Seq<EventView>> {
        self.store.stored()
    }

    pub closed spec fn interval(&self) -> u64 {
        self.snapshot_interval
    }

    /// The latest snapshot: its sequence number, source count and events.
    pub closed spec fn latest(&self) -> Option<(u64, u64, Seq<SerialView>)> {
        match self.latest_snapshot {
            Some(s) => Some((s.seq, s.source_event_count, serial_views(s.events@))),
            None => None,
        }
    }

    /// A kernel over `store` with the given configuration and snapshot
    /// interval; its history holds the genesis event alone.
    pub fn new(store: S, config: NfConfig, snapshot_interval: u64) -> (r: Self)
        requires
            store.inv(),
        ensures
            r.wf(),
            r.history() == genesis_history(),
            r.settings() == config,
            r.count() == 0,
            r.seq() == 0,
            r.since_snapshot() == 0,
            r.interval() == snapshot_interval,
            r.latest() is None,
            r.store_log() == store.stored(),
    {
        IncrementalKernel {
            kernel: JcKernel::new(config),
            store,
            event_count: 0,
            snapshot_seq: 0,
            events_since_snapshot: 0,
            snapshot_interval,
            latest_snapshot: None,
        }
    }

    /// Appends `event` to the kernel after the store's answer `written` to
    /// writing it: a store error is returned as it is, with the kernel
    /// untouched; otherwise the event is appended, counted, and a snapshot is
    /// taken when the interval is reached.
    pub fn apply_written(&mut self, event: Event, written: Result<(), S::Error>) -> (r: Result<NfStats, S::Error>)
        requires
            old(self).wf(),
            event.wf(),
        ensures
            final(self).wf(),
            final(self).settings() == old(self).settings(),
            final(self).interval() == old(self).interval(),
            final(self).store_log() == old(self).store_log(),
            written matches Err(e) ==> r matches Err(e2) && e2 == e,
            written is Ok ==> r is Ok,
            r is Err ==> final(self).history() == old(self).history() && final(self).count() == old(self).count()
                && final(self).seq() == old(self).seq() && final(self).since_snapshot() == old(self).since_snapshot()
                && final(self).latest() == old(self).latest(),
            r matches Ok(stats) ==> {
                &&& reduction(old(self).settings(), insert_event(old(self).history(), event@), final(self).history(), stats)
                &&& final(self).count() == crate::nf::capped_u64(old(self).count() + 1)
                &&& if old(self).interval() > 0 && crate::nf::capped_u64(old(self).since_snapshot() + 1) >= old(self).interval() {
                    &&& final(self).seq() == crate::nf::capped_u64(old(self).seq() + 1)
                    &&& final(self).since_snapshot() == 0
                    &&& final(self).latest() matches Some((sq, sc, evs)) && sq == final(self).seq() && sc
                        == final(self).count() && evs == history_serials(final(self).history())
                } else {
                    &&& final(self).seq() == old(self).seq()
                    &&& final(self).since_snapshot() == crate::nf::capped_u64(old(self).since_snapshot() + 1)
                    &&& final(self).latest() == old(self).latest()
                }
            },
    {
        match written {
            Ok(()) => {},
            Err(e) => {
                return Err(e);
            },
        }
        self.event_count = self.event_count.saturating_add(1);
        self.events_since_snapshot = self.events_since_snapshot.saturating_add(1);
        let stats = self.kernel.append(event);
        if self.snapshot_interval > 0 && self.events_since_snapshot >= self.snapshot_interval {
            self.take_snapshot();
        }
        Ok(stats)
    }

    /// Writes `event` to the store, then appends it to the kernel
    /// (`apply_written`); takes a snapshot when the interval is reached. A
    /// store error is returned with the kernel untouched.
    pub fn append(&mut self, event: Event) -> (r: Result<NfStats, S::Error>)
        requires
            old(self).wf(),
            event.wf(),
        ensures
            final(self).wf(),
            final(self).settings() == old(self).settings(),
            final(self).interval() == old(self).interval(),
            old(self).store_log() matches Some(l) ==> final(self).store_log() == Some(
                if r is Ok { appended_once(l, event@) } else { l },
            ),
            r is Err ==> final(self).history() == old(self).history() && final(self).count() == old(self).count()
                && final(self).seq() == old(self).seq() && final(self).since_snapshot() == old(self).since_snapshot()
                && final(self).latest() == old(self).latest(),
            r matches Ok(stats) ==> {
                &&& reduction(old(self).settings(), insert_event(old(self).history(), event@), final(self).history(), stats)
                &&& final(self).count() == crate::nf::capped_u64(old(self).count() + 1)
                &&& if old(self).interval() > 0 && crate::nf::capped_u64(old(self).since_snapshot() + 1) >= old(self).interval() {
                    &&& final(self).seq() == crate::nf::capped_u64(old(self).seq() + 1)
                    &&& final(self).since_snapshot() == 0
                    &&& final(self).latest() matches Some((sq, sc, evs)) && sq == final(self).seq() && sc
                        == final(self).count() && evs == history_serials(final(self).history())
                } else {
                    &&& final(self).seq() == old(self).seq()
                    &&& final(self).since_snapshot() == crate::nf::capped_u64(old(self).since_snapshot() + 1)
                    &&& final(self).latest() == old(self).latest()
                }
            },
    {
        let written = self.store.append(&event);
        self.apply_written(event, written)
    }

    /// Takes a snapshot of the current history.
    pub fn take_snapshot(&mut self)
        requires
            old(self).wf(),
        ensures
            final(self).wf(),
            final(self).history() == old(self).history(),
            final(self).settings() == old(self).settings(),
            final(self).count() == old(self).count(),
            final(self).interval() == old(self).interval(),
            final(self).seq() == crate::nf::capped_u64(old(self).seq() + 1),
            final(self).since_snapshot() == 0,
            final(self).latest() matches Some((sq, sc, evs)) && sq == final(self).seq() && sc == final(self).count()
                && evs == history_serials(final(self).history()),
            final(self).store_log() == old(self).store_log(),
    {
        self.snapshot_seq = self.snapshot_seq.saturating_add(1);
        let dag = self.kernel.history_dag();
        let snap = Snapshot::from_dag(dag, self.snapshot_seq, self.event_count);
        proof {
            dag.lemma_view();
            let evs = serial_views(snap.events@);
            let es = dag.events_view();
            let ks = dag.keys_view();
            crate::ids::lemma_sorted_of(ks);
            assert(ks.to_set() == dag@.dom());
            assert(evs =~= history_serials(dag@)) by {
                assert forall|i: int| 0 <= i < evs.len() implies evs[i] == history_serials(dag@)[i] by {
                    assert(evs[i] == serial_of(es[i]));
                    assert(dag@[ks[i]] == es[i]);
                }
            }
        }
        self.latest_snapshot = Some(snap);
        self.events_since_snapshot = 0;
    }

    /// Rebuilds the history by replaying `events` into a fresh kernel with
    /// the default configuration (an event whose parents are out of order is
    /// skipped); returns how many events were given, which becomes the count.
    pub fn replay_events(&mut self, events: &Vec<Event>) -> (n: u64)
        requires
            old(self).wf(),
        ensures
            final(self).wf(),
            final(self).settings() == default_config(),
            final(self).history() == replayed(genesis_history(), events@.map_values(|e: Event| e@)),
            n == events@.len(),
            final(self).count() == n,
            final(self).store_log() == old(self).store_log(),
            final(self).seq() == old(self).seq(),
            final(self).since_snapshot() == old(self).since_snapshot(),
            final(self).interval() == old(self).interval(),
            final(self).latest() == old(self).latest(),
    {
        let count = events.len() as u64;
        self.kernel = JcKernel::new(NfConfig::default());
        let n = events.len();
        let ghost es = events@.map_values(|e: Event| e@);
        for i in 0..n
            invariant
                n == events@.len(),
                es == events@.map_values(|e: Event| e@),
                self.wf(),
                self.settings() == default_config(),
                self.history() == replayed(genesis_history(), es.subrange(0, i as int)),
                self.store_log() == old(self).store_log(),
                self.count() == old(self).count(),
                self.seq() == old(self).seq(),
                self.since_snapshot() == old(self).since_snapshot(),
                self.interval() == old(self).interval(),
                self.latest() == old(self).latest(),
        {
            let e = &events[i];
            let ghost h = self.history();
            proof {
                assert(es.subrange(0, i + 1).drop_last() =~= es.subrange(0, i as int));
                assert(es.subrange(0, i + 1).last() == e@);
            }
            if e.parents.is_sorted() {
                let stats = self.kernel.append(e.duplicate());
                proof {
                    lemma_default_reduction(insert_event(h, e@), self.history(), stats);
                }
            }
        }
        assert(es.subrange(0, n as int) =~= es);
        assert(n as u64 == count);
        self.event_count = count;
        count
    }

    /// Rebuilds the history by replaying every stored event into a fresh
    /// kernel with the default configuration; returns how many were loaded.
    /// A load error is returned with the kernel untouched.
    pub fn replay_from_store(&mut self) -> (r: Result<u64, S::Error>)
        requires
            old(self).wf(),
        ensures
            final(self).wf(),
            final(self).store_log() == old(self).store_log(),
            r is Err ==> final(self).history() == old(self).history() && final(self).settings()
                == old(self).settings() && final(self).count() == old(self).count(),
            r matches Ok(n) ==> {
                &&& final(self).settings() == default_config()
                &&& final(self).count() == n
                &&& exists|es: Seq<EventView>| #![trigger replayed(genesis_history(), es)]
                    es.len() == n && final(self).history() == replayed(genesis_history(), es)
                &&& old(self).store_log() matches Some(l) ==> final(self).history() == replayed(genesis_history(), l)
                    && n == l.len()
            },
    {
        let events = match self.store.load_all() {
            Ok(v) => v,
            Err(e) => {
                return Err(e);
            },
        };
        let n = self.replay_events(&events);
        proof {
            let es = events@.map_values(|e: Event| e@);
            assert(es.len() == n);
        }
        Ok(n)
    }

    /// Appends, one after the other, those of `events` whose parents are in
    /// order and whose identifier is neither in `in_snapshot` nor in the
    /// history; returns how many were appended, which is added to the count.
    pub fn replay_wal(&mut self, in_snapshot: &IdSet, events: &Vec<Event>) -> (n: u64)
        requires
            old(self).wf(),
            in_snapshot.wf(),
        ensures
            final(self).wf(),
            final(self).settings() == old(self).settings(),
            final(self).store_log() == old(self).store_log(),
            final(self).seq() == old(self).seq(),
            final(self).count() == crate::nf::capped_u64(old(self).count() + n),
            n <= events@.len(),
            exists|hs: Seq<Map<Seq<char>, EventView>>, ns: Seq<nat>|
                #[trigger] restore_run(
                    old(self).settings(),
                    old(self).history(),
                    in_snapshot.set(),
                    event_views(events@),
                    hs,
                    ns,
                ) && hs.last() == final(self).history() && ns.last() == n,
            old(self).settings() == default_config() ==> restored(
                old(self).history(),
                in_snapshot.set(),
                event_views(events@),
            ) == (final(self).history(), n as nat),
    {
        let ghost h0 = self.history();
        let ghost c0 = self.count();
        let ghost cfg = self.settings();
        let ghost mut hs: Seq<Map<Seq<char>, EventView>> = seq![h0];
        let ghost mut ns: Seq<nat> = seq![0nat];
        let ghost es = event_views(events@);
        let ghost ids = in_snapshot.set();
        let mut replayed_count: u64 = 0;
        let n = events.len();
        for i in 0..n
            invariant
                n == events@.len(),
                es == event_views(events@),
                self.wf(),
                self.settings() == old(self).settings(),
                self.store_log() == old(self).store_log(),
                in_snapshot.wf(),
                in_snapshot.set() == ids,
                self.settings() == default_config() ==> self.history() == restored(h0, ids, es.subrange(0, i as int)).0
                    && replayed_count == restored(h0, ids, es.subrange(0, i as int)).1,
                cfg == old(self).settings(),
                restore_run(cfg, h0, ids, es.subrange(0, i as int), hs, ns),
                hs.last() == self.history(),
                ns.last() == replayed_count,
                replayed_count <= i,
                self.count() == crate::nf::capped_u64(c0 + replayed_count),
                self.seq() == old(self).seq(),
        {
            let e = &events[i];
            let ghost h = self.history();
            proof {
                assert(es.subrange(0, i + 1).drop_last() =~= es.subrange(0, i as int));
                assert(es.subrange(0, i + 1).last() == e@);
            }
            if e.parents.is_sorted() && !in_snapshot.contains(&e.id) && !self.kernel.history_dag().contains(&e.id) {
                let stats = self.kernel.append(e.duplicate());
                proof {
                    if self.settings() == default_config() {
                        lemma_default_reduction(insert_event(h, e@), self.history(), stats);
                    }
                    assert(reduction(cfg, insert_event(h, e@), self.history(), stats));
                }
                self.event_count = self.event_count.saturating_add(1);
                replayed_count = replayed_count + 1;
            }
            proof {
                let s0 = es.subrange(0, i as int);
                let s1 = es.subrange(0, i + 1);
                let hs0 = hs;
                let ns0 = ns;
                assert(restore_step(cfg, ids, e@, h, ns0.last(), self.history(), replayed_count as nat));
                hs = hs.push(self.history());
                ns = ns.push(replayed_count as nat);
                assert forall|j: int| 0 <= j < s1.len() implies #[trigger] restore_step(
                    cfg,
                    ids,
                    s1[j],
                    hs[j],
                    ns[j],
                    hs[j + 1],
                    ns[j + 1],
                ) by {
                    if j < i {
                        assert(s1[j] == s0[j]);
                        assert(restore_step(cfg, ids, s0[j], hs0[j], ns0[j], hs0[j + 1], ns0[j + 1]));
                    }
                }
            }
        }
        assert(es.subrange(0, n as int) =~= es);
        proof {
            assert(restore_run(cfg, h0, ids, es, hs, ns));
        }
        replayed_count
    }

    /// Restores the history from `snapshot`, then appends the stored events
    /// that are neither in the snapshot nor in the history; returns how many
    /// were appended. A load error is returned after the snapshot is
    /// restored.
    pub fn restore_from_snapshot_and_wal(&mut self, snapshot: &Snapshot) -> (r: Result<u64, S::Error>)
        requires
            old(self).wf(),
        ensures
            final(self).wf(),
            final(self).settings() == old(self).settings(),
            final(self).store_log() == old(self).store_log(),
            final(self).seq() == snapshot.seq,
            r is Err ==> final(self).history() == snapshot_history(serial_views(snapshot.events@))
                && final(self).count() == snapshot.source_event_count,
            r matches Ok(n) ==> final(self).count() == crate::nf::capped_u64(snapshot.source_event_count + n),
            r matches Ok(n) ==> exists|es: Seq<EventView>, hs: Seq<Map<Seq<char>, EventView>>, ns: Seq<nat>|
                #[trigger] restore_run(
                    old(self).settings(),
                    snapshot_history(serial_views(snapshot.events@)),
                    snapshot_ids(serial_views(snapshot.events@)),
                    es,
                    hs,
                    ns,
                ) && hs.last() == final(self).history() && ns.last() == n && (old(self).store_log() matches Some(
                    l,
                ) ==> es == l),
            old(self).settings() == default_config() ==> (r matches Ok(n) ==> exists|es: Seq<EventView>|
                #[trigger] restored_tail(serial_views(snapshot.events@), es) == (final(self).history(), n as nat)
                    && (old(self).store_log() matches Some(l) ==> es == l)),
    {
        let dag = snapshot.to_dag();
        self.kernel.set_history(dag);
        self.snapshot_seq = snapshot.seq;
        self.event_count = snapshot.source_event_count;
        let mut in_snapshot = IdSet::new();
        let ns = snapshot.events.len();
        let ghost ids = serial_views(snapshot.events@).map_values(|se: SerialView| se.id);
        for i in 0..ns
            invariant
                ns == snapshot.events@.len(),
                ids == serial_views(snapshot.events@).map_values(|se: SerialView| se.id),
                in_snapshot.wf(),
                in_snapshot.set() == ids.subrange(0, i as int).to_set(),
        {
            in_snapshot.insert(snapshot.events[i].id.clone());
            proof {
                assert(ids.subrange(0, i + 1) =~= ids.subrange(0, i as int).push(ids[i as int]));
                crate::ids::lemma_push_to_set(ids.subrange(0, i as int), ids[i as int]);
            }
        }
        assert(ids.subrange(0, ns as int) =~= ids);
        let wal_events = match self.store.load_all() {
            Ok(v) => v,
            Err(e) => {
                return Err(e);
            },
        };
        let ghost h0 = self.history();
        let ghost es = event_views(wal_events@);
        let n = self.replay_wal(&in_snapshot, &wal_events);
        proof {
            assert(h0 == snapshot_history(serial_views(snapshot.events@)));
            assert(ids.to_set() == snapshot_ids(serial_views(snapshot.events@)));
            let (hs, ns) = choose|hs: Seq<Map<Seq<char>, EventView>>, ns: Seq<nat>|
                #[trigger] restore_run(old(self).settings(), h0, in_snapshot.set(), es, hs, ns)
                    && hs.last() == self.history() && ns.last() == n;
            assert(restore_run(
                old(self).settings(),
                snapshot_history(serial_views(snapshot.events@)),
                snapshot_ids(serial_views(snapshot.events@)),
                es,
                hs,
                ns,
            ));
            if self.settings() == default_config() {
                assert(restored_tail(serial_views(snapshot.events@), es) == (self.history(), n as nat));
            }
        }
        Ok(n)
    }

    /// The events of the history whose key is not in `remote_known`, in key
    /// order.
    pub fn diff_from(&self, remote_known: &IdSet) -> (r: Vec<Event>)
        requires
            self.wf(),
            remote_known.wf(),
        ensures
            r@.map_values(|e: Event| e@) == events_not_in(
                self.history(),
                crate::ids::sorted_of(self.history().dom()),
                remote_known.set(),
            ),
    {
        let dag = self.kernel.history_dag();
        proof {
            dag.lemma_view();
            crate::ids::lemma_sorted_of(dag.keys_view());
        }
        let mut out: Vec<Event> = Vec::new();
        let n = dag.len();
        let ghost ks = dag.keys_view();
        let ghost m = dag@;
        for i in 0..n
            invariant
                dag.wf(),
                m == dag@,
                ks == dag.keys_view(),
                n == ks.len(),
                n == m.len(),
                m.dom() == ks.to_set(),
                remote_known.wf(),
                out@.map_values(|e: Event| e@) == events_not_in(m, ks.subrange(0, i as int), remote_known.set()),
        {
            let k = dag.key_at(i);
            let ghost ob = out@.map_values(|e: Event| e@);
            proof {
                assert(ks.subrange(0, i + 1).drop_last() =~= ks.subrange(0, i as int));
                assert(ks.subrange(0, i + 1).last() == k@);
            }
            if !remote_known.contains(k) {
                let e = dag.event_at(i);
                out.push(e.duplicate());
                proof {
                    assert(out@.map_values(|e: Event| e@) =~= ob.push(e@));
                }
            }
        }
        proof {
            assert(ks.subrange(0, n as int) =~= ks);
        }
        out
    }

    /// The number of events in the history.
    pub fn history_size(&self) -> (n: usize)
        requires
            self.wf(),
        ensures
            n == self.history().len(),
    {
        self.kernel.history_size()
    }

    /// The state of the history under `functor`.
    pub fn state<F: SemanticFunctor>(&self, functor: &F) -> (r: F::State)
        requires
            self.wf(),
        ensures
            r.deep_view() == functor.meaning(self.history()),
    {
        self.kernel.state(functor)
    }

    /// The tips of the history.
    pub fn frontier(&self) -> (r: IdSet)
        requires
            self.wf(),
        ensures
            r.wf(),
            r.set() == crate::dag::frontier_set(self.history()),
    {
        self.kernel.frontier()
    }

    /// A data event whose parents are the current tips.
    pub fn new_event(&self, kind: String, value: JsonValue) -> (r: Event)
        requires
            self.wf(),
        ensures
            r.wf(),
            r@.payload == (PayloadView::Data { kind: kind@, value: value@ }),
            r@.parents.to_set() == crate::dag::frontier_set(self.history()),
            crate::event::content_addressed(r@),
    {
        self.kernel.new_event(kind, value)
    }

    /// A no-op event whose parents are the current tips.
    pub fn new_noop(&self) -> (r: Event)
        requires
            self.wf(),
        ensures
            r.wf(),
            r@.payload == PayloadView::Noop,
            r@.parents.to_set() == crate::dag::frontier_set(self.history()),
            crate::event::content_addressed(r@),
    {
        self.kernel.new_noop()
    }
}

/// A file-backed event store: newline-delimited JSON at `path`, one
/// serializable event per line; the file is only appended to.
#[derive(Debug, Clone, PartialEq, Eq)]
pub struct FileStore {
    pub path: String,
}

impl FileStore {
    /// A store at `path` (the file is created on the first append).
    pub fn open(path: String) -> (r: FileStore)
        ensures
            r.path@ == path@,
    {
        FileStore { path }
    }
}

/// A file store error: I/O or parsing.
#[derive(Debug, Clone, PartialEq, Eq)]
pub enum FileStoreError {
    Io(String),
    Parse(String),
}

impl FileStoreError {
    /// The error's text.
    pub fn message(&self) -> (r: String)
        ensures
            match self {
                FileStoreError::Io(e) => r@ == "I/O error: "@ + e@,
                FileStoreError::Parse(e) => r@ == "Parse error: "@ + e@,
            },
    {
        match self {
            FileStoreError::Io(e) => {
                let mut s = "I/O error: ".to_owned();
                s.append(e.as_str());
                s
            },
            FileStoreError::Parse(e) => {
                let mut s = "Parse error: ".to_owned();
                s.append(e.as_str());
                s
            },
        }
    }
}

} // verus!
