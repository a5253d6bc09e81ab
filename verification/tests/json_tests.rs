use jc_computation::digest::digest_to_hex;
use jc_computation::json::JsonValue;

#[test]
fn digest_of_known_inputs() {
    assert_eq!(
        digest_to_hex(b"abc"),
        "ba7816bf8f01cfea414140de5dae2223b00361a396177a9cb410ff61f20015ad"
    );
    assert_eq!(
        digest_to_hex(b""),
        "e3b0c44298fc1c149afbf4c8996fb92427ae41e4649b934ca495991b7852b855"
    );
}

#[test]
fn parse_gives_compact_text_with_sorted_keys() {
    let v = JsonValue::parse("{ \"b\" : 1, \"a\": [1, 2] }").unwrap();
    assert_eq!(v.text(), r#"{"a":[1,2],"b":1}"#);
    assert!(JsonValue::parse("not json").is_none());
    assert!(JsonValue::parse("").is_none());
}

#[test]
fn member_lookup() {
    let v = JsonValue::parse(r#"{"key": "x", "val": {"n": 3}}"#).unwrap();
    assert_eq!(v.get("val").unwrap().text(), r#"{"n":3}"#);
    assert_eq!(v.get("key").unwrap().text(), r#""x""#);
    assert!(v.get("missing").is_none());
    let arr = JsonValue::parse("[1,2]").unwrap();
    assert!(arr.get("0").is_none());
}

#[test]
fn string_and_integer_views() {
    let s = JsonValue::parse(r#""hi there""#).unwrap();
    assert_eq!(s.as_str(), Some("hi there".to_string()));
    assert_eq!(s.as_i64(), None);
    let n = JsonValue::parse("42").unwrap();
    assert_eq!(n.as_i64(), Some(42));
    assert_eq!(n.as_str(), None);
    let neg = JsonValue::parse("-7").unwrap();
    assert_eq!(neg.as_i64(), Some(-7));
    let f = JsonValue::parse("1.5").unwrap();
    assert_eq!(f.as_i64(), None);
}
