use jc_computation::event::{Event, Payload};
use jc_computation::ids::IdSet;
use jc_computation::json::JsonValue;

fn j(text: &str) -> JsonValue {
    JsonValue::parse(text).unwrap()
}

#[test]
fn genesis_is_deterministic() {
    let g1 = Event::genesis();
    let g2 = Event::genesis();
    assert_eq!(g1.id, g2.id);
}

#[test]
fn content_addressing_works() {
    let g = Event::genesis();
    let e1 = Event::data("deposit".to_string(), j(r#"{"amount": 100}"#), IdSet::singleton(g.id.clone()));
    let e2 = Event::data("deposit".to_string(), j(r#"{"amount": 100}"#), IdSet::singleton(g.id.clone()));
    assert_eq!(e1.id, e2.id, "same content = same ID");
}

#[test]
fn different_payloads_differ() {
    let g = Event::genesis();
    let parents = IdSet::singleton(g.id.clone());
    let e1 = Event::data("deposit".to_string(), j(r#"{"amount": 100}"#), parents.clone());
    let e2 = Event::data("deposit".to_string(), j(r#"{"amount": 200}"#), parents);
    assert_ne!(e1.id, e2.id);
}

#[test]
fn noop_detected() {
    let e = Event::noop(IdSet::new());
    assert!(e.payload.is_noop());
}

#[test]
fn payload_bytes_matches_serde() {
    let g = Event::genesis();
    let e = Event::data("op".to_string(), j("42"), IdSet::singleton(g.id.clone()));
    let expected = br#"{"Data":{"kind":"op","value":42}}"#.to_vec();
    assert_eq!(e.payload_bytes, expected, "payload_bytes cache must match serde output");
    assert_eq!(e.payload.json_bytes(), expected);
}

#[test]
fn recompute_id_refreshes_payload_bytes() {
    let g = Event::genesis();
    let mut e = Event::data("op".to_string(), j("1"), IdSet::singleton(g.id.clone()));
    e.parents = IdSet::new();
    e.recompute_id();
    let expected = br#"{"Data":{"kind":"op","value":1}}"#.to_vec();
    assert_eq!(e.payload_bytes, expected);
}

#[test]
fn event_ids_are_64_hex_digits() {
    let g = Event::genesis();
    assert_eq!(g.id.len(), 64);
    assert!(g.id.chars().all(|c| c.is_ascii_hexdigit() && !c.is_ascii_uppercase()));
    let e = Event::data("k".to_string(), j(r#"{"a":[1,2]}"#), IdSet::singleton(g.id.clone()));
    assert_eq!(e.id.len(), 64);
}

#[test]
fn recompute_id_after_parent_change_matches_fresh_event() {
    let g = Event::genesis();
    let mut e = Event::data("op".to_string(), j("7"), IdSet::singleton(g.id.clone()));
    let before = e.id.clone();
    e.parents = IdSet::new();
    e.recompute_id();
    let fresh = Event::data("op".to_string(), j("7"), IdSet::new());
    assert_ne!(before, e.id);
    assert_eq!(e.id, fresh.id);
    assert_eq!(Event::compute_id(&e.payload, &e.parents), e.id);
}

#[test]
fn genesis_and_noop_payload_text() {
    assert_eq!(Payload::Genesis.json_bytes(), b"\"Genesis\"".to_vec());
    assert_eq!(Payload::Noop.json_bytes(), b"\"Noop\"".to_vec());
    let g1 = Event::genesis();
    let n = Event::noop(IdSet::new());
    assert_ne!(g1.id, n.id);
}
