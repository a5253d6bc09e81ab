use jc_computation::dag::CausalDag;
use jc_computation::event::Event;
use jc_computation::ids::IdSet;
use jc_computation::json::JsonValue;
use jc_computation::kernel::{CounterFunctor, KvFunctor};
use jc_computation::merge::{merge_histories, merge_histories_with_config, DistributedNode};
use jc_computation::nf::NfConfig;

fn j(text: &str) -> JsonValue {
    JsonValue::parse(text).unwrap()
}

#[test]
fn merge_is_commutative() {
    let g = Event::genesis();
    let gid = g.id.clone();

    let mut dag_a = CausalDag::new();
    dag_a.insert(g.clone());
    let e_a = Event::data("op".to_string(), j("1"), IdSet::singleton(gid.clone()));
    dag_a.insert(e_a);

    let mut dag_b = CausalDag::new();
    dag_b.insert(g.clone());
    let e_b = Event::data("op".to_string(), j("2"), IdSet::singleton(gid.clone()));
    dag_b.insert(e_b);

    let ab = merge_histories(&dag_a, &dag_b);
    let ba = merge_histories(&dag_b, &dag_a);

    assert_eq!(ab.len(), ba.len(), "merge is commutative (same size)");
    let mut ids_ab = ab.keys();
    let mut ids_ba = ba.keys();
    ids_ab.sort();
    ids_ba.sort();
    assert_eq!(ids_ab, ids_ba, "merge is commutative (same events)");
}

#[test]
fn merge_is_idempotent() {
    let mut dag = CausalDag::new();
    dag.insert(Event::genesis());

    let merged = merge_histories(&dag, &dag);
    assert_eq!(dag.len(), merged.len(), "merge(A,A) = A");
}

#[test]
fn distributed_convergence() {
    let mut node_a = DistributedNode::new("A".to_string());
    let mut node_b = DistributedNode::new("B".to_string());

    let frontier_a = node_a.history.frontier();
    let ea = Event::data("set".to_string(), j(r#"{"key": "x", "val": 1}"#), frontier_a);
    node_a.append(ea);

    let frontier_b = node_b.history.frontier();
    let eb = Event::data("set".to_string(), j(r#"{"key": "y", "val": 2}"#), frontier_b);
    node_b.append(eb);

    node_a.sync_with(&node_b);
    node_b.sync_with(&node_a);

    let state_a = node_a.state(&KvFunctor);
    let state_b = node_b.state(&KvFunctor);

    let x = "x".to_string();
    let y = "y".to_string();
    assert_eq!(state_a.get(&x), state_b.get(&x), "convergent x");
    assert_eq!(state_a.get(&y), state_b.get(&y), "convergent y");
    assert_eq!(state_a.get(&x), Some(&j("1")));
    assert_eq!(state_a.get(&y), Some(&j("2")));
}

#[test]
fn counter_convergence() {
    let mut node_a = DistributedNode::new("A".to_string());
    let mut node_b = DistributedNode::new("B".to_string());

    let fa = node_a.history.frontier();
    node_a.append(Event::data("increment".to_string(), j("10"), fa));

    let fb = node_b.history.frontier();
    node_b.append(Event::data("increment".to_string(), j("5"), fb));

    node_a.sync_with(&node_b);
    node_b.sync_with(&node_a);

    let ca = node_a.state(&CounterFunctor);
    let cb = node_b.state(&CounterFunctor);
    assert_eq!(ca, cb, "counter converges");
    assert_eq!(ca, 15, "total = 15");
}

#[test]
fn merge_drops_noops_of_both_sides() {
    let g = Event::genesis();
    let mut a = CausalDag::new();
    a.insert(g.clone());
    let n = Event::noop(IdSet::singleton(g.id.clone()));
    a.insert(n.clone());
    let mut b = CausalDag::new();
    b.insert(g.clone());
    let d = Event::data("k".to_string(), j("3"), IdSet::singleton(n.id.clone()));
    b.insert(d.clone());
    let m = merge_histories(&a, &b);
    assert_eq!(m.len(), 2);
    assert!(m.contains(&g.id) && m.contains(&d.id));
    assert!(m.get(&d.id).unwrap().parents.contains(&g.id));
    assert!(m.is_causally_closed());
}

#[test]
fn merge_with_noops_kept() {
    let g = Event::genesis();
    let mut a = CausalDag::new();
    a.insert(g.clone());
    let n = Event::noop(IdSet::singleton(g.id.clone()));
    let mut b = CausalDag::new();
    b.insert(n.clone());
    let mut cfg = NfConfig::default();
    cfg.enable_noop_elim = false;
    cfg.enable_cone_merge = false;
    let m = merge_histories_with_config(&a, &b, cfg);
    assert_eq!(m.len(), 2);
    assert!(m.contains(&n.id));
}

#[test]
fn merge_is_associative_on_data_histories() {
    let g = Event::genesis();
    let mk = |v: &str| {
        let mut d = CausalDag::new();
        d.insert(g.clone());
        d.insert(Event::data("op".to_string(), j(v), IdSet::singleton(g.id.clone())));
        d
    };
    let (a, b, c) = (mk("1"), mk("2"), mk("3"));
    let left = merge_histories(&merge_histories(&a, &b), &c);
    let right = merge_histories(&a, &merge_histories(&b, &c));
    assert_eq!(left.keys(), right.keys());
    assert_eq!(left.len(), 4);
}

#[test]
fn receive_order_does_not_matter() {
    let g = Event::genesis();
    let gid = g.id.clone();
    let a = Event::data("set".to_string(), j(r#"{"key": "x", "val": 1}"#), IdSet::singleton(gid.clone()));
    let b = Event::data("set".to_string(), j(r#"{"key": "y", "val": 2}"#), IdSet::singleton(a.id.clone()));
    let n = Event::noop(IdSet::singleton(gid.clone()));

    let mut node_1 = DistributedNode::new("one".to_string());
    let mut node_2 = DistributedNode::new("two".to_string());
    node_1.receive(&vec![a.clone(), n.clone(), b.clone()]);
    node_2.receive(&vec![b.clone(), a.clone(), b.clone(), n.clone(), a.clone()]);

    let mut k1 = node_1.history.keys();
    let mut k2 = node_2.history.keys();
    k1.sort();
    k2.sort();
    assert_eq!(k1.len(), 3, "genesis, a and b; the no-op is normalized away");
    assert_eq!(k1, k2);
    let s1 = node_1.state(&KvFunctor);
    let s2 = node_2.state(&KvFunctor);
    assert_eq!(s1.len(), s2.len());
    assert_eq!(s1.len(), 2);
}
