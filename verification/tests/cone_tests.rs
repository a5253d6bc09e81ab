use jc_computation::cone::ConeHasher;
use jc_computation::dag::CausalDag;
use jc_computation::event::Event;
use jc_computation::ids::IdSet;
use jc_computation::json::JsonValue;

fn j(text: &str) -> JsonValue {
    JsonValue::parse(text).unwrap()
}

#[test]
fn identical_subtrees_have_same_cone_hash() {
    let mut dag = CausalDag::new();
    let g = Event::genesis();
    dag.insert(g.clone());
    let e1 = Event::data("op".to_string(), j(r#"{"x": 1}"#), IdSet::singleton(g.id.clone()));
    assert_eq!(e1.id, e1.id);
    dag.insert(e1.clone());
    let mut hasher = ConeHasher::new();
    hasher.compute_all(&dag);
    let h = hasher.get(&e1.id).unwrap();
    assert!(!h.is_empty());
}

#[test]
fn different_payloads_differ_in_cone_hash() {
    let mut dag = CausalDag::new();
    let g = Event::genesis();
    dag.insert(g.clone());
    let e1 = Event::data("op".to_string(), j(r#"{"x": 1}"#), IdSet::singleton(g.id.clone()));
    let e2 = Event::data("op".to_string(), j(r#"{"x": 2}"#), IdSet::singleton(g.id.clone()));
    dag.insert(e1.clone());
    dag.insert(e2.clone());
    let mut hasher = ConeHasher::new();
    hasher.compute_all(&dag);
    assert_ne!(hasher.get(&e1.id).unwrap(), hasher.get(&e2.id).unwrap());
}

#[test]
fn isomorphic_groups_detected() {
    let mut dag = CausalDag::new();
    let g = Event::genesis();
    dag.insert(g.clone());
    let e1 = Event::data("op".to_string(), j("1"), IdSet::singleton(g.id.clone()));
    let e2 = Event::data("op".to_string(), j("2"), IdSet::singleton(g.id.clone()));
    dag.insert(e1);
    dag.insert(e2);
    let mut hasher = ConeHasher::new();
    hasher.compute_all(&dag);
    assert!(hasher.isomorphic_groups().is_empty());
}

#[test]
fn incremental_matches_full_recompute() {
    let mut dag = CausalDag::new();
    let g = Event::genesis();
    dag.insert(g.clone());
    let e1 = Event::data("a".to_string(), j("1"), IdSet::singleton(g.id.clone()));
    let e2 = Event::data("b".to_string(), j("2"), IdSet::singleton(e1.id.clone()));
    dag.insert(e1.clone());
    dag.insert(e2.clone());

    let mut hasher = ConeHasher::new();
    hasher.compute_all(&dag);
    let full_h_e2 = hasher.get(&e2.id).unwrap().clone();

    let dirty = IdSet::singleton(e1.id.clone());
    hasher.invalidate(&dirty, &dag);
    hasher.compute_dirty(&dag);

    let incr_h_e2 = hasher.get(&e2.id).unwrap().clone();
    assert_eq!(full_h_e2, incr_h_e2, "incremental must match full recompute");
}

#[test]
fn invalidation_propagates_to_descendants() {
    let mut dag = CausalDag::new();
    let g = Event::genesis();
    dag.insert(g.clone());
    let a = Event::data("a".to_string(), j("1"), IdSet::singleton(g.id.clone()));
    let b = Event::data("b".to_string(), j("2"), IdSet::singleton(a.id.clone()));
    let c = Event::data("c".to_string(), j("3"), IdSet::singleton(b.id.clone()));
    let aid = a.id.clone();
    let bid = b.id.clone();
    let cid = c.id.clone();
    dag.insert(a);
    dag.insert(b);
    dag.insert(c);

    let mut hasher = ConeHasher::new();
    hasher.compute_all(&dag);

    let dirty = IdSet::singleton(aid.clone());
    hasher.invalidate(&dirty, &dag);

    assert!(hasher.get(&aid).is_none());
    assert!(hasher.get(&bid).is_none());
    assert!(hasher.get(&cid).is_none());
    assert!(hasher.get(&g.id).is_some());
}

#[test]
fn compute_dirty_noop_when_cache_valid() {
    let mut dag = CausalDag::new();
    let g = Event::genesis();
    dag.insert(g.clone());
    let mut hasher = ConeHasher::new();
    hasher.compute_all(&dag);
    let h_before = hasher.get(&g.id).unwrap().clone();
    hasher.compute_dirty(&dag);
    let h_after = hasher.get(&g.id).unwrap().clone();
    assert_eq!(h_before, h_after);
}

#[test]
fn cone_hash_of_genesis_is_sha256_of_its_payload() {
    // genesis has no parents: its cone hash is sha256("\"Genesis\"")
    let mut dag = CausalDag::new();
    let g = Event::genesis();
    dag.insert(g.clone());
    let mut hasher = ConeHasher::new();
    hasher.compute_all(&dag);
    let h = hasher.get(&g.id).unwrap();
    assert_eq!(h.len(), 64);
    assert_eq!(h, &jc_computation::digest::digest_to_hex(b"\"Genesis\""));
    hasher.clear();
    assert!(hasher.get(&g.id).is_none());
}

#[test]
fn events_with_missing_ancestors_get_no_cone_hash() {
    let mut dag = CausalDag::new();
    let g = Event::genesis();
    dag.insert(g.clone());
    let orphan = Event::data("o".to_string(), j("1"), IdSet::singleton("missing".to_string()));
    dag.insert(orphan.clone());
    let mut hasher = ConeHasher::new();
    hasher.compute_all(&dag);
    assert!(hasher.get(&g.id).is_some());
    assert!(hasher.get(&orphan.id).is_none());
}
