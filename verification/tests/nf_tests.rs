use jc_computation::cone::ConeHasher;
use jc_computation::dag::CausalDag;
use jc_computation::event::{Event, EventId, Payload};
use jc_computation::ids::IdSet;
use jc_computation::json::JsonValue;
use jc_computation::nf::{NfConfig, NormalForm};

fn j(text: &str) -> JsonValue {
    JsonValue::parse(text).unwrap()
}

fn genesis_dag() -> (CausalDag, EventId) {
    let mut dag = CausalDag::new();
    let g = Event::genesis();
    let gid = g.id.clone();
    dag.insert(g);
    (dag, gid)
}

fn find_by_payload<'a>(dag: &'a CausalDag, p: &Payload) -> Option<&'a Event> {
    (0..dag.len()).map(|i| dag.event_at(i)).find(|e| &e.payload == p)
}

#[test]
fn noops_eliminated() {
    let (mut dag, gid) = genesis_dag();
    let noop = Event::noop(IdSet::singleton(gid.clone()));
    let real = Event::data("op".to_string(), j("1"), IdSet::singleton(noop.id.clone()));
    dag.insert(noop);
    dag.insert(real);

    let size_before = dag.len();
    let mut nf = NormalForm::default();
    let stats = nf.reduce(&mut dag);

    assert!(dag.len() < size_before, "noop should be eliminated");
    assert!(stats.noops_eliminated > 0);
}

#[test]
fn normal_form_is_idempotent() {
    let (mut dag, gid) = genesis_dag();
    let e1 = Event::data("op".to_string(), j("1"), IdSet::singleton(gid.clone()));
    let e2 = Event::data("op".to_string(), j("2"), IdSet::singleton(gid.clone()));
    dag.insert(e1);
    dag.insert(e2);

    let mut nf = NormalForm::default();
    nf.reduce(&mut dag);
    let size_after_first = dag.len();
    nf.reduce(&mut dag);
    let size_after_second = dag.len();

    assert_eq!(size_after_first, size_after_second, "nf is idempotent");
}

#[test]
fn chain_contraction_works() {
    let (mut dag, gid) = genesis_dag();
    let n1 = Event::noop(IdSet::singleton(gid.clone()));
    let n2 = Event::noop(IdSet::singleton(n1.id.clone()));
    let data = Event::data("result".to_string(), j("42"), IdSet::singleton(n2.id.clone()));
    dag.insert(n1);
    dag.insert(n2);
    dag.insert(data);

    assert_eq!(dag.len(), 4);
    let mut nf = NormalForm::default();
    nf.reduce(&mut dag);
    assert!(dag.len() < 4, "both noops should be gone");
}

#[test]
fn c3_single_noop_bridges_to_genesis() {
    let (mut dag, gid) = genesis_dag();
    let noop = Event::noop(IdSet::singleton(gid.clone()));
    let data = Event::data("x".to_string(), j("1"), IdSet::singleton(noop.id.clone()));
    let data_payload = data.payload.clone();
    dag.insert(noop);
    dag.insert(data);

    let mut nf = NormalForm::default();
    let stats = nf.reduce(&mut dag);

    assert_eq!(dag.len(), 2, "genesis + data only");
    assert_eq!(stats.noops_eliminated, 1);
    let survivor = find_by_payload(&dag, &data_payload).unwrap();
    assert!(survivor.parents.contains(&gid), "data event must point directly to genesis after noop removal");
    assert!(dag.is_causally_closed());
}

#[test]
fn c3_long_noop_chain_batch_correct() {
    let (mut dag, gid) = genesis_dag();
    let mut tip = gid.clone();
    for _ in 0..10 {
        let n = Event::noop(IdSet::singleton(tip.clone()));
        tip = n.id.clone();
        dag.insert(n);
    }
    let data = Event::data("end".to_string(), j("99"), IdSet::singleton(tip.clone()));
    dag.insert(data);

    assert_eq!(dag.len(), 12);
    let mut nf = NormalForm::default();
    let stats = nf.reduce(&mut dag);

    assert_eq!(dag.len(), 2, "genesis + data only");
    assert_eq!(stats.noops_eliminated, 10);
    assert!(dag.is_causally_closed());
}

#[test]
fn c3_diamond_noop_arms_collapsed() {
    let (mut dag, gid) = genesis_dag();
    let na = Event::noop(IdSet::singleton(gid.clone()));
    let nb = Event::noop(IdSet::singleton(gid.clone()));
    let naid = na.id.clone();
    let nbid = nb.id.clone();
    dag.insert(na);
    dag.insert(nb);
    let data = Event::data("merge".to_string(), j("0"), IdSet::from_vec(vec![naid, nbid]));
    dag.insert(data);

    let mut nf = NormalForm::default();
    let stats = nf.reduce(&mut dag);

    assert!(stats.noops_eliminated >= 1, "at least one noop eliminated");
    assert!(dag.is_causally_closed());
}

#[test]
fn c3_interleaved_noops_preserve_data_order() {
    let (mut dag, gid) = genesis_dag();
    let a = Event::data("a".to_string(), j("1"), IdSet::singleton(gid.clone()));
    let noop1 = Event::noop(IdSet::singleton(a.id.clone()));
    let b = Event::data("b".to_string(), j("2"), IdSet::singleton(noop1.id.clone()));
    let noop2 = Event::noop(IdSet::singleton(b.id.clone()));
    let c = Event::data("c".to_string(), j("3"), IdSet::singleton(noop2.id.clone()));
    let aid = a.id.clone();
    dag.insert(a);
    dag.insert(noop1);
    dag.insert(b);
    dag.insert(noop2);
    dag.insert(c);

    let mut nf = NormalForm::default();
    let stats = nf.reduce(&mut dag);

    assert_eq!(stats.noops_eliminated, 2);
    assert_eq!(dag.len(), 4, "genesis + a + b + c");
    assert!(dag.is_causally_closed());

    let b_payload = Payload::Data { kind: "b".to_string(), value: j("2") };
    let b_ev = find_by_payload(&dag, &b_payload).expect("event b must still exist after noop elimination");
    assert!(b_ev.parents.contains(&aid), "b must still parent a after noop removal");
}

#[test]
fn compact_tombstones_unknown_ids_is_noop() {
    let (mut dag, _gid) = genesis_dag();
    let size_before = dag.len();
    let unknown = IdSet::singleton("does_not_exist".to_string());
    dag.compact_tombstones(&unknown);
    assert_eq!(dag.len(), size_before);
}

#[test]
fn compact_tombstones_empty_set_is_noop() {
    let (mut dag, _gid) = genesis_dag();
    let size_before = dag.len();
    dag.compact_tombstones(&IdSet::new());
    assert_eq!(dag.len(), size_before);
}

#[test]
fn compact_tombstones_causal_closure_maintained() {
    let (mut dag, gid) = genesis_dag();
    let n1 = Event::noop(IdSet::singleton(gid.clone()));
    let n2 = Event::noop(IdSet::singleton(n1.id.clone()));
    let d = Event::data("op".to_string(), j("7"), IdSet::singleton(n2.id.clone()));
    let n1id = n1.id.clone();
    let n2id = n2.id.clone();
    dag.insert(n1);
    dag.insert(n2);
    dag.insert(d);

    let tombstones = IdSet::from_vec(vec![n1id, n2id]);
    dag.compact_tombstones(&tombstones);

    assert!(dag.is_causally_closed());
}

#[test]
fn c1_isomorphic_cones_detected_by_hasher() {
    let mut dag = CausalDag::new();
    let g = Event::genesis();
    let gid = g.id.clone();
    dag.insert(g);

    let e1 = Event::data("op".to_string(), j(r#"{"v": 1}"#), IdSet::singleton(gid.clone()));
    dag.insert(e1.clone());

    let mut hasher = ConeHasher::new();
    hasher.compute_all(&dag);
    let groups = hasher.isomorphic_groups();
    assert!(groups.is_empty());
}

#[test]
fn c1_merge_manually_injected_isomorphic_pair() {
    let mut dag = CausalDag::new();
    let g = Event::genesis();
    let gid = g.id.clone();
    dag.insert(g);

    let payload = Payload::Data { kind: "op".to_string(), value: j(r#"{"x": 42}"#) };
    let payload_bytes = payload.json_bytes();

    let ev_a = Event {
        id: "node_a_event_001".to_string(),
        payload: payload.clone(),
        parents: IdSet::singleton(gid.clone()),
        payload_bytes: payload_bytes.clone(),
        cached_payload_hash: String::new(),
        cached_parent_set_hash: String::new(),
    };
    let ev_b = Event {
        id: "node_b_event_001".to_string(),
        payload: payload.clone(),
        parents: IdSet::singleton(gid.clone()),
        payload_bytes: payload_bytes.clone(),
        cached_payload_hash: String::new(),
        cached_parent_set_hash: String::new(),
    };

    dag.insert(ev_a.clone());
    dag.insert(ev_b.clone());

    let mut hasher = ConeHasher::new();
    hasher.compute_all(&dag);

    let h_a = hasher.get(&ev_a.id).unwrap().clone();
    let h_b = hasher.get(&ev_b.id).unwrap().clone();
    assert_eq!(h_a, h_b);

    let groups = hasher.isomorphic_groups();
    assert_eq!(groups.len(), 1);
    assert_eq!(groups[0].len(), 2);

    let size_before = dag.len();
    let mut nf = NormalForm::default();
    nf.config.assume_content_addressed = false;
    let stats = nf.reduce(&mut dag);

    assert!(stats.cones_merged >= 1);
    assert_eq!(dag.len(), size_before - 1);
    assert!(dag.is_causally_closed());
}

#[test]
fn c3_batch_completes_linearly() {
    const N: usize = 5_000;
    let (mut dag, gid) = genesis_dag();
    let mut tip = gid.clone();
    for _ in 0..N {
        let n = Event::noop(IdSet::singleton(tip.clone()));
        tip = n.id.clone();
        dag.insert(n);
    }
    let sentinel = Event::data("end".to_string(), j("1"), IdSet::singleton(tip.clone()));
    dag.insert(sentinel);

    let t0 = std::time::Instant::now();
    let mut nf = NormalForm::default();
    let stats = nf.reduce(&mut dag);
    let elapsed = t0.elapsed();

    assert_eq!(stats.noops_eliminated, N);
    assert_eq!(dag.len(), 2, "genesis + sentinel");
    assert!(dag.is_causally_closed());
    assert!(elapsed.as_secs() < 2, "C3 took {}ms — likely O(N²) regression", elapsed.as_millis());
}

#[test]
fn nf_convergence_in_one_iteration_for_noop_chain() {
    let (mut dag, gid) = genesis_dag();
    let mut tip = gid.clone();
    for _ in 0..100 {
        let n = Event::noop(IdSet::singleton(tip.clone()));
        tip = n.id.clone();
        dag.insert(n);
    }
    let data = Event::data("end".to_string(), j("1"), IdSet::singleton(tip.clone()));
    dag.insert(data);

    let mut nf = NormalForm::default();
    let stats = nf.reduce(&mut dag);

    assert_eq!(stats.noops_eliminated, 100);
    assert_eq!(stats.iterations, 1, "noop-chain must converge in 1 iteration");
}

#[test]
fn nf_data_only_dag_skips_cone_hashing() {
    let (mut dag, gid) = genesis_dag();
    let mut tip = gid.clone();
    for i in 0..50 {
        let e = Event::data("op".to_string(), j(&i.to_string()), IdSet::singleton(tip.clone()));
        tip = e.id.clone();
        dag.insert(e);
    }

    let mut nf = NormalForm::default();
    let stats = nf.reduce(&mut dag);

    assert_eq!(stats.cones_merged, 0, "no cone merges in data-only DAG");
    assert_eq!(stats.iterations, 1, "data-only DAG converges in 1 iteration");
}

#[test]
fn nf_idempotent_mixed_dag() {
    let (mut dag, gid) = genesis_dag();
    let n = Event::noop(IdSet::singleton(gid.clone()));
    let d1 = Event::data("a".to_string(), j("1"), IdSet::singleton(n.id.clone()));
    let d2 = Event::data("b".to_string(), j("2"), IdSet::singleton(gid.clone()));
    dag.insert(n);
    dag.insert(d1);
    dag.insert(d2);

    let mut nf = NormalForm::default();
    nf.reduce(&mut dag);
    let h1 = dag.len();
    nf.reduce(&mut dag);
    let h2 = dag.len();

    assert_eq!(h1, h2, "nf is idempotent");
}

#[test]
fn nf_data_only_dag_unchanged() {
    let (mut dag, gid) = genesis_dag();
    let d1 = Event::data("x".to_string(), j("1"), IdSet::singleton(gid.clone()));
    let d2 = Event::data("y".to_string(), j("2"), IdSet::singleton(gid.clone()));
    dag.insert(d1);
    dag.insert(d2);
    let size_before = dag.len();

    let mut nf = NormalForm::default();
    let stats = nf.reduce(&mut dag);

    assert_eq!(dag.len(), size_before);
    assert_eq!(stats.noops_eliminated, 0);
    assert_eq!(stats.cones_merged, 0);
}

#[test]
fn nf_genesis_only_dag() {
    let (mut dag, _) = genesis_dag();
    let mut nf = NormalForm::default();
    let stats = nf.reduce(&mut dag);
    assert_eq!(dag.len(), 1);
    assert_eq!(stats.noops_eliminated, 0);
    assert_eq!(stats.iterations, 1);
}

#[test]
fn nf_zero_iterations_changes_nothing() {
    let (mut dag, gid) = genesis_dag();
    let n = Event::noop(IdSet::singleton(gid.clone()));
    dag.insert(n);
    let mut cfg = NfConfig::default();
    cfg.max_iterations = 0;
    let mut nf = NormalForm::new(cfg);
    let stats = nf.reduce(&mut dag);
    assert_eq!(dag.len(), 2);
    assert_eq!(stats.iterations, 0);
    assert_eq!(stats.noops_eliminated, 0);
    assert_eq!(stats.events_before, 2);
    assert_eq!(stats.events_after, 2);
}

#[test]
fn nf_without_noop_elimination_keeps_noops() {
    let (mut dag, gid) = genesis_dag();
    let n = Event::noop(IdSet::singleton(gid.clone()));
    dag.insert(n);
    let mut cfg = NfConfig::default();
    cfg.enable_noop_elim = false;
    cfg.enable_cone_merge = false;
    let mut nf = NormalForm::new(cfg);
    let stats = nf.reduce(&mut dag);
    assert_eq!(dag.len(), 2);
    assert_eq!(stats.noops_eliminated, 0);
    assert_eq!(stats.iterations, 1);
    assert_eq!(stats.chains_contracted, 0);
}

#[test]
fn merge_cone_groups_redirects_children() {
    let mut dag = CausalDag::new();
    let g = Event::genesis();
    dag.insert(g.clone());
    let a = Event::data("a".to_string(), j("1"), IdSet::singleton(g.id.clone()));
    let b = Event::data("b".to_string(), j("2"), IdSet::singleton(g.id.clone()));
    let c = Event::data("c".to_string(), j("3"), IdSet::singleton(b.id.clone()));
    dag.insert(a.clone());
    dag.insert(b.clone());
    dag.insert(c.clone());
    let mut group = vec![a.id.clone(), b.id.clone()];
    group.sort();
    let (keep, gone) = (group[0].clone(), group[1].clone());
    let (merged, dirty) = jc_computation::nf::merge_cone_groups(&mut dag, &vec![vec![b.id.clone(), a.id.clone()]]);
    assert_eq!(merged, 1);
    assert_eq!(dag.len(), 3);
    assert!(dag.contains(&keep));
    assert!(!dag.contains(&gone));
    if gone == b.id {
        // c pointed at b: it now points at a, under its old key, with a new id
        assert_eq!(dirty.to_vec(), vec![c.id.clone()]);
        let c_now = dag.get(&c.id).unwrap();
        assert!(c_now.parents.contains(&a.id));
        assert_ne!(c_now.id, c.id);
    } else {
        assert_eq!(dirty.len(), 0);
    }
}

#[test]
fn cone_merge_keeps_the_least_member_and_counts_each_removal_once() {
    let mut dag = CausalDag::new();
    let g = Event::genesis();
    let gid = g.id.clone();
    dag.insert(g);
    let payload = Payload::Data { kind: "op".to_string(), value: j(r#"{"x": 42}"#) };
    let payload_bytes = payload.json_bytes();
    let make = |id: &str, parents: IdSet| Event {
        id: id.to_string(),
        payload: payload.clone(),
        parents,
        payload_bytes: payload_bytes.clone(),
        cached_payload_hash: String::new(),
        cached_parent_set_hash: String::new(),
    };
    dag.insert(make("node_a_event_001", IdSet::singleton(gid.clone())));
    dag.insert(make("node_b_event_001", IdSet::singleton(gid.clone())));
    let child = Event::data("after".to_string(), j("1"), IdSet::singleton("node_b_event_001".to_string()));
    let child_id = child.id.clone();
    dag.insert(child);

    let mut nf = NormalForm::default();
    nf.config.assume_content_addressed = false;
    let stats = nf.reduce(&mut dag);

    assert_eq!(stats.cones_merged, 1, "one event merged away, counted once");
    assert_eq!(stats.events_before - stats.events_after, stats.cones_merged + stats.noops_eliminated);
    assert!(dag.contains(&"node_a_event_001".to_string()));
    assert!(!dag.contains(&"node_b_event_001".to_string()));
    let c = dag.get(&child_id).unwrap();
    assert_eq!(c.id, child_id, "a redirected event keeps its identifier and key");
    assert_eq!(c.parents.to_vec(), vec!["node_a_event_001".to_string()]);
    assert!(dag.is_causally_closed());
}

#[test]
fn cone_merging_runs_until_nothing_changes() {
    let mut dag = CausalDag::new();
    let g = Event::genesis();
    let gid = g.id.clone();
    dag.insert(g);
    let payload = Payload::Data { kind: "op".to_string(), value: j(r#"{"x": 42}"#) };
    let payload_bytes = payload.json_bytes();
    let make = |id: &str| Event {
        id: id.to_string(),
        payload: payload.clone(),
        parents: IdSet::singleton(gid.clone()),
        payload_bytes: payload_bytes.clone(),
        cached_payload_hash: String::new(),
        cached_parent_set_hash: String::new(),
    };
    let a1 = "node_a_event_001".to_string();
    let a2 = "node_b_event_001".to_string();
    dag.insert(make(&a1));
    dag.insert(make(&a2));
    let c = Event::data("join".to_string(), j("7"), IdSet::from_vec(vec![a1.clone(), a2.clone()]));
    let d = Event::data("join".to_string(), j("7"), IdSet::singleton(a1.clone()));
    dag.insert(c);
    dag.insert(d);
    assert_eq!(dag.len(), 5);

    let mut nf = NormalForm::default();
    nf.config.assume_content_addressed = false;
    let stats = nf.reduce(&mut dag);

    assert_eq!(dag.len(), 3, "genesis, one of the pair, one of c and d");
    assert_eq!(stats.cones_merged, 2);
    assert!(stats.iterations >= 2, "the second merge needs a second round");
    assert!(dag.contains(&a1));
    assert!(dag.is_causally_closed());
}
