use jc_computation::dag::CausalDag;
use jc_computation::event::Event;
use jc_computation::ids::IdSet;
use jc_computation::json::JsonValue;
use jc_computation::kernel::{CachedKvFunctor, CounterFunctor, JcKernel, KvFunctor, LogFunctor, SemanticFunctor};
use jc_computation::nf::NfConfig;

fn j(text: &str) -> JsonValue {
    JsonValue::parse(text).unwrap()
}

#[test]
fn kernel_starts_with_genesis() {
    let k = JcKernel::default();
    assert_eq!(k.history_size(), 1);
    let f = k.frontier();
    assert_eq!(f.to_vec(), vec![Event::genesis().id]);
}

#[test]
fn kv_state_last_write_wins() {
    let mut k = JcKernel::default();
    let e1 = k.new_event("set".to_string(), j(r#"{"key": "user", "val": "Alice"}"#));
    k.append(e1);
    let e2 = k.new_event("set".to_string(), j(r#"{"key": "role", "val": "admin"}"#));
    k.append(e2);
    let e3 = k.new_event("set".to_string(), j(r#"{"key": "user", "val": "Bob"}"#));
    k.append(e3);
    let ignored = k.new_event("set".to_string(), j(r#"{"key": 5, "val": "x"}"#));
    k.append(ignored);
    let state = k.state(&KvFunctor);
    assert_eq!(state.len(), 2);
    assert_eq!(state.get(&"user".to_string()), Some(&j("\"Bob\"")));
    assert_eq!(state.get(&"role".to_string()), Some(&j("\"admin\"")));
}

#[test]
fn counter_sums_increments_only() {
    let mut k = JcKernel::default();
    for v in ["10", "-3", "\"7\"", "5"] {
        let e = k.new_event("increment".to_string(), j(v));
        k.append(e);
    }
    let other = k.new_event("decrement".to_string(), j("100"));
    k.append(other);
    assert_eq!(k.state(&CounterFunctor), 12);
}

#[test]
fn counter_sum_wraps() {
    let mut k = JcKernel::default();
    let e = k.new_event("increment".to_string(), j("9223372036854775807"));
    k.append(e);
    let e = k.new_event("increment".to_string(), j("1"));
    k.append(e);
    assert_eq!(k.state(&CounterFunctor), i64::MIN);
}

#[test]
fn log_in_causal_order() {
    let mut k = JcKernel::default();
    for v in ["\"first\"", "\"second\"", "\"third\""] {
        let e = k.new_event("log".to_string(), j(v));
        k.append(e);
    }
    let noise = k.new_event("set".to_string(), j(r#"{"key":"a","val":1}"#));
    k.append(noise);
    let log = k.state(&LogFunctor);
    assert_eq!(log, vec![j("\"first\""), j("\"second\""), j("\"third\"")]);
}

#[test]
fn noops_do_not_change_state() {
    let mut clean = JcKernel::default();
    let mut noisy = JcKernel::default();
    for v in ["1", "2", "3"] {
        let e = clean.new_event("increment".to_string(), j(v));
        clean.append(e);
        let n = noisy.new_noop();
        noisy.append(n);
        let e = noisy.new_event("increment".to_string(), j(v));
        noisy.append(e);
    }
    assert_eq!(clean.state(&CounterFunctor), noisy.state(&CounterFunctor));
    assert_eq!(noisy.history_size(), 4);
    assert_eq!(noisy.total_stats.noops_eliminated, 3);
}

#[test]
fn cached_kv_functor_reuses_state_at_same_size() {
    let mut k = JcKernel::default();
    let e = k.new_event("set".to_string(), j(r#"{"key": "a", "val": 1}"#));
    k.append(e);
    let mut cache = CachedKvFunctor::new();
    let s1 = cache.get(&k);
    assert_eq!(s1.get(&"a".to_string()), Some(&j("1")));
    let e = k.new_event("set".to_string(), j(r#"{"key": "b", "val": 2}"#));
    k.append(e);
    let s2 = cache.get(&k);
    assert_eq!(s2.len(), 2);
    cache.invalidate();
    let s3 = cache.get(&k);
    assert_eq!(s3.len(), 2);
}

#[test]
fn interpret_directly_on_dag() {
    let mut dag = CausalDag::new();
    let g = Event::genesis();
    dag.insert(g.clone());
    dag.insert(Event::data("increment".to_string(), j("4"), IdSet::singleton(g.id.clone())));
    assert_eq!(CounterFunctor.interpret(&dag), 4);
}

#[test]
fn kernel_with_config_and_totals() {
    let mut k = JcKernel::new(NfConfig::default());
    let n = k.new_noop();
    let stats = k.append(n);
    assert_eq!(stats.noops_eliminated, 1);
    assert_eq!(stats.iterations, 1);
    assert_eq!(k.total_stats.noops_eliminated, 1);
    assert_eq!(k.total_stats.events_after, 1);
}

#[test]
fn history_never_shrinks_for_data_events() {
    let mut k = JcKernel::default();
    let mut prev = k.history_size();
    for v in ["1", "2", "3", "4"] {
        let e = k.new_event("op".to_string(), j(v));
        k.append(e);
        assert!(k.history_size() >= prev);
        prev = k.history_size();
    }
    assert_eq!(prev, 5);
    assert!(k.dag.is_causally_closed());
}
