use jc_computation::dag::CausalDag;
use jc_computation::event::{Event, Payload};
use jc_computation::ids::IdSet;
use jc_computation::json::JsonValue;
use jc_computation::kernel::{CounterFunctor, KvFunctor};
use jc_computation::nf::NfConfig;
use jc_computation::persistence::{
    EventStore, FileStore, FileStoreError, IncrementalKernel, MemoryError, MemoryStore, SerializableEvent, Snapshot,
};

fn j(text: &str) -> JsonValue {
    JsonValue::parse(text).unwrap()
}

fn make_kernel() -> IncrementalKernel<MemoryStore> {
    IncrementalKernel::new(MemoryStore::new(), NfConfig::default(), 0)
}

// A JSON writing of a snapshot, built by hand the way serde lays out the
// types (externally tagged payload, parents as an array).
fn payload_to_value(p: &Payload) -> serde_json::Value {
    match p {
        Payload::Genesis => serde_json::Value::String("Genesis".to_string()),
        Payload::Noop => serde_json::Value::String("Noop".to_string()),
        Payload::Data { kind, value } => {
            let mut inner = serde_json::Map::new();
            inner.insert("kind".to_string(), serde_json::Value::String(kind.clone()));
            inner.insert("value".to_string(), serde_json::from_str(value.text()).unwrap());
            let mut outer = serde_json::Map::new();
            outer.insert("Data".to_string(), serde_json::Value::Object(inner));
            serde_json::Value::Object(outer)
        }
    }
}

fn value_to_payload(v: &serde_json::Value) -> Payload {
    match v {
        serde_json::Value::String(s) if s == "Genesis" => Payload::Genesis,
        serde_json::Value::String(s) if s == "Noop" => Payload::Noop,
        other => {
            let d = &other["Data"];
            Payload::Data {
                kind: d["kind"].as_str().unwrap().to_string(),
                value: JsonValue::parse(&serde_json::to_string(&d["value"]).unwrap()).unwrap(),
            }
        }
    }
}

fn snapshot_to_json(s: &Snapshot) -> Vec<u8> {
    let mut o = serde_json::Map::new();
    o.insert("seq".to_string(), serde_json::Value::from(s.seq));
    o.insert("timestamp".to_string(), serde_json::Value::from(s.timestamp));
    let evs: Vec<serde_json::Value> = s
        .events
        .iter()
        .map(|se| {
            let mut e = serde_json::Map::new();
            e.insert("id".to_string(), serde_json::Value::String(se.id.clone()));
            e.insert("payload".to_string(), payload_to_value(&se.payload));
            e.insert(
                "parents".to_string(),
                serde_json::Value::Array(se.parents.to_vec().into_iter().map(serde_json::Value::String).collect()),
            );
            serde_json::Value::Object(e)
        })
        .collect();
    o.insert("events".to_string(), serde_json::Value::Array(evs));
    o.insert("source_event_count".to_string(), serde_json::Value::from(s.source_event_count));
    serde_json::to_vec(&serde_json::Value::Object(o)).unwrap()
}

fn snapshot_from_json(bytes: &[u8]) -> Snapshot {
    let v: serde_json::Value = serde_json::from_slice(bytes).unwrap();
    let events = v["events"]
        .as_array()
        .unwrap()
        .iter()
        .map(|e| SerializableEvent {
            id: e["id"].as_str().unwrap().to_string(),
            payload: value_to_payload(&e["payload"]),
            parents: IdSet::from_vec(
                e["parents"].as_array().unwrap().iter().map(|p| p.as_str().unwrap().to_string()).collect(),
            ),
        })
        .collect();
    Snapshot {
        seq: v["seq"].as_u64().unwrap(),
        timestamp: v["timestamp"].as_u64().unwrap(),
        events,
        source_event_count: v["source_event_count"].as_u64().unwrap(),
    }
}

#[test]
fn memory_store_append_and_load() {
    let mut store = MemoryStore::new();
    let e1 = Event::genesis();
    store.append(&e1).unwrap();
    let loaded = store.load_all().unwrap();
    assert_eq!(loaded.len(), 1);
    assert_eq!(loaded[0].id, e1.id);
}

#[test]
fn memory_store_idempotent_append() {
    let mut store = MemoryStore::new();
    let e = Event::genesis();
    store.append(&e).unwrap();
    store.append(&e).unwrap();
    assert_eq!(store.len().unwrap(), 1);
    assert!(!store.is_empty().unwrap());
    assert_eq!(store.known_ids().unwrap().to_vec(), vec![e.id.clone()]);
    assert_eq!(store.events().len(), 1);
}

#[test]
fn snapshot_roundtrip() {
    let mut kernel = make_kernel();
    let e = kernel.new_event("set".to_string(), j(r#"{"key": "x", "val": 1}"#));
    kernel.append(e).unwrap();

    kernel.take_snapshot();
    let snap = kernel.latest_snapshot.clone().unwrap();

    let json = snapshot_to_json(&snap);
    let snap2 = snapshot_from_json(&json);

    let dag1 = snap.to_dag();
    let dag2 = snap2.to_dag();

    let mut ids1 = dag1.keys();
    let mut ids2 = dag2.keys();
    ids1.sort();
    ids2.sort();
    assert_eq!(ids1, ids2, "snapshot JSON roundtrip must preserve all events");
}

#[test]
fn snapshot_and_wal_replay() {
    let mut kernel = IncrementalKernel::new(MemoryStore::new(), NfConfig::default(), 0);

    for i in 0..5 {
        let e = kernel.new_event("increment".to_string(), j(&i.to_string()));
        kernel.append(e).unwrap();
    }

    kernel.take_snapshot();
    let snap = kernel.latest_snapshot.clone().unwrap();

    for i in 5..8 {
        let e = kernel.new_event("increment".to_string(), j(&i.to_string()));
        kernel.append(e).unwrap();
    }

    let state_before = kernel.state(&CounterFunctor);

    let mut kernel2 = IncrementalKernel::new(kernel.store.clone(), NfConfig::default(), 0);
    let replayed = kernel2.restore_from_snapshot_and_wal(&snap).unwrap();

    let state_after = kernel2.state(&CounterFunctor);
    assert_eq!(state_before, state_after, "state must be preserved after snapshot+WAL replay");
    assert_eq!(replayed, 3, "should replay exactly 3 post-snapshot events");
}

#[test]
fn incremental_kernel_persists_events() {
    let mut kernel = make_kernel();
    let e1 = kernel.new_event("op".to_string(), j("1"));
    kernel.append(e1).unwrap();
    let e2 = kernel.new_event("op".to_string(), j("2"));
    kernel.append(e2).unwrap();

    assert_eq!(kernel.store.len().unwrap(), 2);
}

#[test]
fn incremental_kernel_replay() {
    let mut kernel = make_kernel();

    for i in 0..5 {
        let e = kernel.new_event("increment".to_string(), j(&i.to_string()));
        kernel.append(e).unwrap();
    }
    let state_before = kernel.state(&CounterFunctor);

    let store = kernel.store.clone();
    let mut kernel2 = IncrementalKernel::new(store, NfConfig::default(), 0);
    kernel2.replay_from_store().unwrap();

    let state_after = kernel2.state(&CounterFunctor);
    assert_eq!(state_before, state_after, "replay must reproduce state exactly");
}

#[test]
fn incremental_kernel_diff_sync() {
    let mut k_a = make_kernel();
    let mut k_b = make_kernel();

    for i in 0..3 {
        let e = k_a.new_event("set".to_string(), j(&format!(r#"{{"key": "k{}", "val": {}}}"#, i, i)));
        k_a.append(e).unwrap();
    }

    for i in 0..2 {
        let e = k_b.new_event("set".to_string(), j(&format!(r#"{{"key": "b{}", "val": {}}}"#, i, i * 10)));
        k_b.append(e).unwrap();
    }

    let b_known = IdSet::from_vec(k_b.kernel.dag.keys());
    let a_to_b = k_a.diff_from(&b_known);

    for event in a_to_b {
        k_b.kernel.append(event);
    }

    let state_a = k_a.state(&KvFunctor);
    let state_b = k_b.state(&KvFunctor);

    for i in 0..state_a.len() {
        let k = state_a.key_at(i);
        assert_eq!(state_b.get(k), Some(state_a.val_at(i)), "B must have key {} after sync", k);
    }
}

#[test]
fn auto_snapshot_triggered_by_interval() {
    let mut kernel = IncrementalKernel::new(MemoryStore::new(), NfConfig::default(), 3);

    assert!(kernel.latest_snapshot.is_none());

    for i in 0..5 {
        let e = kernel.new_event("op".to_string(), j(&i.to_string()));
        kernel.append(e).unwrap();
    }

    assert!(kernel.latest_snapshot.is_some(), "auto-snapshot must fire after interval events");
    let snap = kernel.latest_snapshot.clone().unwrap();
    assert_eq!(snap.seq, 1);
    assert_eq!(snap.source_event_count, 3);
    assert_eq!(snap.events.len(), 4);
}

#[test]
fn snapshot_to_dag_rebuilds_ids() {
    let mut kernel = make_kernel();
    let e = kernel.new_event("op".to_string(), j("1"));
    let eid = e.id.clone();
    kernel.append(e).unwrap();
    kernel.take_snapshot();
    let snap = kernel.latest_snapshot.clone().unwrap();
    let dag = snap.to_dag();
    assert_eq!(dag.len(), 2);
    assert!(dag.contains(&eid));
    assert!(dag.contains(&Event::genesis().id));
    let se = SerializableEvent::from_event(&Event::genesis());
    assert_eq!(se.to_event().id, Event::genesis().id);
}

#[test]
fn file_store_open_and_error_text() {
    let fs = FileStore::open("wal.ndjson".to_string());
    assert_eq!(fs.path, "wal.ndjson");
    assert_eq!(FileStoreError::Io("boom".to_string()).message(), "I/O error: boom");
    assert_eq!(FileStoreError::Parse("line 1".to_string()).message(), "Parse error: line 1");
    assert_eq!(MemoryError("x".to_string()).message(), "MemoryStore error: x");
}

#[test]
fn snapshot_is_stamped_with_the_current_time() {
    let mut dag = CausalDag::new();
    dag.insert(Event::genesis());
    let s = Snapshot::from_dag(&dag, 1, 1);
    assert!(s.timestamp > 1_600_000_000, "seconds since the epoch");
    assert_eq!(s.seq, 1);
    assert_eq!(s.events.len(), 1);
}

#[test]
fn replay_events_rebuilds_from_given_events() {
    let mut source = make_kernel();
    for i in 0..4 {
        let e = source.new_event("increment".to_string(), j(&i.to_string()));
        source.append(e).unwrap();
    }
    assert_eq!(source.store.len().unwrap(), 4);
    let events = source.store.load_all().unwrap();
    let mut fresh = make_kernel();
    let n = fresh.replay_events(&events);
    assert_eq!(n, 4);
    assert_eq!(fresh.event_count, 4);
    assert_eq!(fresh.history_size(), 5);
    assert_eq!(fresh.state(&CounterFunctor), source.state(&CounterFunctor));
    assert_eq!(fresh.state(&CounterFunctor), 6);
}

#[test]
fn replay_wal_skips_events_in_the_snapshot() {
    let mut k = make_kernel();
    let a = k.new_event("increment".to_string(), j("5"));
    let aid = a.id.clone();
    k.append(a.clone()).unwrap();
    let b = k.new_event("increment".to_string(), j("7"));
    let mut fresh = make_kernel();
    let n = fresh.replay_wal(&IdSet::singleton(aid), &vec![a, b]);
    assert_eq!(n, 1, "only the event outside the snapshot is appended");
    assert_eq!(fresh.state(&CounterFunctor), 7);
}

#[test]
fn store_is_written_ahead_of_every_append() {
    let mut kernel = IncrementalKernel::new(MemoryStore::new(), NfConfig::default(), 3);
    for i in 0..5 {
        let e = kernel.new_event("op".to_string(), j(&i.to_string()));
        kernel.append(e).unwrap();
        assert_eq!(kernel.store.len().unwrap(), i + 1);
    }
    assert_eq!(kernel.event_count, 5);
    let snap = kernel.latest_snapshot.clone().unwrap();
    assert_eq!(snap.seq, 1);
    assert_eq!(snap.source_event_count, 3);
}

#[test]
fn a_failed_write_is_returned_and_nothing_is_applied() {
    let mut kernel = make_kernel();
    let e = kernel.new_event("op".to_string(), j("1"));
    let r = kernel.apply_written(e.clone(), Err(MemoryError("disk full".to_string())));
    assert_eq!(r.unwrap_err(), MemoryError("disk full".to_string()));
    assert_eq!(kernel.event_count, 0);
    assert_eq!(kernel.history_size(), 1);
    let ok = kernel.apply_written(e, Ok(()));
    assert!(ok.is_ok());
    assert_eq!(kernel.event_count, 1);
    assert_eq!(kernel.history_size(), 2);
}
