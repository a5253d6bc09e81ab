use jc_computation::dag::CausalDag;
use jc_computation::event::{Event, Payload};
use jc_computation::ids::IdSet;
use jc_computation::json::JsonValue;

fn j(text: &str) -> JsonValue {
    JsonValue::parse(text).unwrap()
}

fn make_chain(n: usize) -> CausalDag {
    let mut dag = CausalDag::with_capacity(n + 1);
    let g = Event::genesis();
    let mut prev_id = g.id.clone();
    dag.insert(g);
    for i in 0..n {
        let e = Event::data("step".to_string(), j(&format!(r#"{{"i": {}}}"#, i)), IdSet::singleton(prev_id.clone()));
        prev_id = e.id.clone();
        dag.insert(e);
    }
    dag
}

#[test]
fn topological_order_respects_causality() {
    let dag = make_chain(5);
    let order = dag.topological_order();
    for (i, id) in order.iter().enumerate() {
        let event = dag.get(id).unwrap();
        for parent in event.parents.to_vec() {
            let parent_pos = order.iter().position(|x| *x == parent).unwrap();
            assert!(parent_pos < i, "parent must come before child in topo order");
        }
    }
}

#[test]
fn causal_closure_detection() {
    let mut dag = CausalDag::new();
    let e = Event {
        id: "abc".to_string(),
        payload: Payload::Genesis,
        parents: IdSet::singleton("missing_parent".to_string()),
        payload_bytes: vec![],
        cached_payload_hash: String::new(),
        cached_parent_set_hash: String::new(),
    };
    dag.insert(e);
    assert!(!dag.is_causally_closed());
}

#[test]
fn frontier_is_tips() {
    let dag = make_chain(3);
    let frontier = dag.frontier();
    assert_eq!(frontier.len(), 1);
}

#[test]
fn with_capacity_behaves_identically_to_new() {
    let mut dag_new = CausalDag::new();
    let mut dag_cap = CausalDag::with_capacity(16);
    let g = Event::genesis();
    dag_new.insert(g.clone());
    dag_cap.insert(g);
    assert_eq!(dag_new.len(), dag_cap.len());
    assert_eq!(dag_new.topological_order(), dag_cap.topological_order());
}

#[test]
fn topo_order_deterministic_across_runs() {
    let mut dag = CausalDag::new();
    let g = Event::genesis();
    dag.insert(g.clone());
    let e1 = Event::data("a".to_string(), j("1"), IdSet::singleton(g.id.clone()));
    let e2 = Event::data("b".to_string(), j("2"), IdSet::singleton(g.id.clone()));
    dag.insert(e1);
    dag.insert(e2);
    let order1 = dag.topological_order();
    let order2 = dag.topological_order();
    assert_eq!(order1, order2, "topo order must be deterministic");
}

#[test]
fn insert_keeps_first_event_under_a_key() {
    let mut dag = CausalDag::new();
    let g = Event::genesis();
    assert!(dag.insert(g.clone()));
    assert!(!dag.insert(g.clone()));
    assert_eq!(dag.len(), 1);
    assert!(dag.contains(&g.id));
}

#[test]
fn missing_ancestors_and_closure() {
    let mut dag = make_chain(2);
    assert!(dag.is_causally_closed());
    assert_eq!(dag.missing_ancestors().len(), 0);
    let e = Event::data("x".to_string(), j("1"), IdSet::singleton("nowhere".to_string()));
    dag.insert(e);
    let missing = dag.missing_ancestors();
    assert_eq!(missing.to_vec(), vec!["nowhere".to_string()]);
    assert!(!dag.is_causally_closed());
}

#[test]
fn ancestry_and_concurrency() {
    let mut dag = CausalDag::new();
    let g = Event::genesis();
    dag.insert(g.clone());
    let a = Event::data("a".to_string(), j("1"), IdSet::singleton(g.id.clone()));
    let b = Event::data("b".to_string(), j("2"), IdSet::singleton(g.id.clone()));
    let c = Event::data("c".to_string(), j("3"), IdSet::singleton(a.id.clone()));
    dag.insert(a.clone());
    dag.insert(b.clone());
    dag.insert(c.clone());
    assert!(dag.causally_precedes(&g.id, &c.id));
    assert!(dag.causally_precedes(&a.id, &c.id));
    assert!(!dag.causally_precedes(&c.id, &a.id));
    assert!(dag.are_concurrent(&b.id, &c.id));
    assert!(!dag.are_concurrent(&a.id, &c.id));
    let anc = dag.ancestors(&c.id);
    assert_eq!(anc.len(), 2);
    assert!(anc.contains(&g.id) && anc.contains(&a.id));
}

#[test]
fn remove_reconnects_children() {
    let mut dag = CausalDag::new();
    let g = Event::genesis();
    dag.insert(g.clone());
    let a = Event::data("a".to_string(), j("1"), IdSet::singleton(g.id.clone()));
    let b = Event::data("b".to_string(), j("2"), IdSet::singleton(a.id.clone()));
    dag.insert(a.clone());
    dag.insert(b.clone());
    let removed = dag.remove(&a.id).unwrap();
    assert_eq!(removed.id, a.id);
    assert_eq!(dag.len(), 2);
    let b_now = dag.get(&b.id).unwrap();
    assert!(b_now.parents.contains(&g.id));
    assert!(!b_now.parents.contains(&a.id));
    assert!(dag.is_causally_closed());
    assert!(dag.remove(&"absent".to_string()).is_none());
}

#[test]
fn union_with_adds_missing_events() {
    let g = Event::genesis();
    let mut a = CausalDag::new();
    a.insert(g.clone());
    let mut b = CausalDag::new();
    b.insert(g.clone());
    let e = Event::data("x".to_string(), j("1"), IdSet::singleton(g.id.clone()));
    b.insert(e.clone());
    a.union_with(&b);
    assert_eq!(a.len(), 2);
    assert!(a.contains(&e.id));
}

#[test]
fn causal_precedence_is_transitive_along_a_chain() {
    let mut dag = make_chain(6);
    let order = dag.topological_order();
    assert_eq!(order.len(), 7);
    for i in 0..order.len() {
        for k in (i + 1)..order.len() {
            assert!(dag.causally_precedes(&order[i], &order[k]), "every earlier link precedes every later one");
            assert!(!dag.causally_precedes(&order[k], &order[i]));
        }
        assert!(!dag.causally_precedes(&order[i], &order[i]));
    }
}
