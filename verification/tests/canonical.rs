use json_signer::canonical::{canonicalize, CanonicalizeError, MAX_SAFE_INTEGER, SIGNATURE_FIELD};
use json_signer::json::JsonObject;
use serde_json::Value;

fn text(s: &str) -> Value {
    Value::String(s.to_string())
}

fn make_map(pairs: &[(&str, Value)]) -> JsonObject {
    let mut m = JsonObject::new();
    for (k, v) in pairs {
        m.insert(k.to_string(), v.clone());
    }
    m
}

fn object(pairs: &[(&str, Value)]) -> Value {
    Value::Object(make_map(pairs))
}

fn numbers(items: &[i64]) -> Value {
    Value::Array(items.iter().map(|i| Value::from(*i)).collect())
}

fn canonicalize_ok(m: &JsonObject) -> Vec<u8> {
    canonicalize(m).unwrap()
}

fn canonical_text(m: &JsonObject) -> String {
    String::from_utf8(canonicalize_ok(m)).unwrap()
}

#[test]
fn test_canonicalize_empty_map() {
    let result = canonicalize_ok(&JsonObject::new());
    assert_eq!(result, b"{}");
}

#[test]
fn test_canonicalize_strips_sig_but_keeps_signature_metadata() {
    let m = make_map(&[(
        SIGNATURE_FIELD,
        object(&[("sig", text("abc")), ("alg", text("RS256"))]),
    )]);
    assert_eq!(
        String::from_utf8(canonicalize_ok(&m)).unwrap(),
        r#"{"_signature":{"alg":"RS256"}}"#
    );
}

#[test]
fn test_canonicalize_keeps_other_fields() {
    let m = make_map(&[
        ("foo", text("bar")),
        (SIGNATURE_FIELD, object(&[("sig", text("abc"))])),
    ]);
    assert_eq!(
        String::from_utf8(canonicalize_ok(&m)).unwrap(),
        r#"{"_signature":{},"foo":"bar"}"#
    );
}

#[test]
fn test_canonicalize_without_signature_is_unaffected() {
    let m = make_map(&[("a", Value::from(1))]);
    assert_eq!(canonicalize_ok(&m), br#"{"a":1}"#);
}

#[test]
fn test_canonicalize_is_deterministic() {
    let m = make_map(&[("b", Value::from(2)), ("a", Value::from(1))]);
    assert_eq!(canonicalize_ok(&m), canonicalize_ok(&m));
}

#[test]
fn test_canonicalize_sorts_keys_lexicographically() {
    let m = make_map(&[
        ("z", Value::from(3)),
        ("a", Value::from(1)),
        ("m", Value::from(2)),
    ]);
    assert_eq!(
        String::from_utf8(canonicalize_ok(&m)).unwrap(),
        r#"{"a":1,"m":2,"z":3}"#
    );
}

#[test]
fn test_canonicalize_sorts_nested_object_keys() {
    let m = make_map(&[(
        "cfg",
        object(&[("timeout", Value::from(30)), ("host", text("localhost"))]),
    )]);
    assert_eq!(
        String::from_utf8(canonicalize_ok(&m)).unwrap(),
        r#"{"cfg":{"host":"localhost","timeout":30}}"#
    );
}

#[test]
fn test_canonicalize_handles_bool_null_number_array() {
    let m = make_map(&[
        ("arr", numbers(&[1, 2, 3])),
        ("b", Value::Bool(true)),
        ("n", Value::Null),
        ("num", Value::from(42)),
    ]);
    let result = String::from_utf8(canonicalize_ok(&m)).unwrap();
    let parsed: Value = serde_json::from_str(&result).unwrap();
    assert_eq!(parsed["arr"], numbers(&[1, 2, 3]));
    assert_eq!(parsed["b"], Value::Bool(true));
    assert_eq!(parsed["n"], Value::Null);
    assert_eq!(parsed["num"], Value::from(42));
}

#[test]
fn test_canonicalize_preserves_unicode() {
    let m = make_map(&[("greeting", text("こんにちは"))]);
    let result = canonicalize_ok(&m);
    let parsed: Value = serde_json::from_slice(&result).unwrap();
    assert_eq!(parsed["greeting"], text("こんにちは"));
}

#[test]
fn test_canonicalize_escapes_special_string_chars() {
    let m = make_map(&[("s", text("line1\nline2\ttab\"quote"))]);
    let parsed: Value = serde_json::from_slice(&canonicalize_ok(&m)).unwrap();
    assert_eq!(parsed["s"].as_str().unwrap(), "line1\nline2\ttab\"quote");
}

#[test]
fn canonicalize_keeps_a_signature_field_that_is_no_object() {
    let m = make_map(&[(SIGNATURE_FIELD, text("sig"))]);
    assert_eq!(canonical_text(&m), r#"{"_signature":"sig"}"#);
}

#[test]
fn canonicalize_removes_sig_from_the_signature_block_only() {
    let m = make_map(&[
        ("sig", text("kept")),
        ("other", object(&[("sig", text("kept"))])),
        (SIGNATURE_FIELD, object(&[("sig", object(&[("sig", Value::Null)]))])),
    ]);
    assert_eq!(
        canonical_text(&m),
        r#"{"_signature":{},"other":{"sig":"kept"},"sig":"kept"}"#
    );
}

#[test]
fn canonicalize_writes_floats_as_ecmascript_does() {
    let m = make_map(&[
        ("a", Value::from(1.0)),
        ("b", Value::from(-0.0)),
        ("c", Value::from(1e21)),
        ("d", Value::from(0.1)),
        ("e", Value::from(1e-7)),
    ]);
    assert_eq!(canonical_text(&m), r#"{"a":1,"b":0,"c":1e+21,"d":0.1,"e":1e-7}"#);
}

#[test]
fn canonicalize_sorts_keys_by_utf16_units() {
    let m = make_map(&[("\u{fb33}", Value::from(1)), ("\u{1f600}", Value::from(2))]);
    assert_eq!(canonical_text(&m), "{\"\u{1f600}\":2,\"\u{fb33}\":1}");
}

#[test]
fn canonicalize_accepts_the_largest_safe_integers() {
    let max = MAX_SAFE_INTEGER as i64;
    let m = make_map(&[("lo", Value::from(-max)), ("hi", Value::from(max))]);
    assert_eq!(
        canonical_text(&m),
        r#"{"hi":9007199254740991,"lo":-9007199254740991}"#
    );
}

#[test]
fn canonicalize_refuses_unsafe_integers_at_any_depth() {
    let unsafe_integers = [
        Value::from(MAX_SAFE_INTEGER as i64 + 1),
        Value::from(-(MAX_SAFE_INTEGER as i64) - 1),
        Value::from(i64::MIN),
        Value::from(i64::MAX),
        Value::from(u64::MAX),
    ];
    for value in unsafe_integers {
        let top = make_map(&[("n", value.clone())]);
        let nested = make_map(&[("a", Value::Array(vec![Value::Null, object(&[("n", value.clone())])]))]);
        let metadata = make_map(&[(SIGNATURE_FIELD, object(&[("kid", value.clone())]))]);
        let sig = make_map(&[(SIGNATURE_FIELD, object(&[("sig", value)]))]);
        assert_eq!(canonicalize(&top), Err(CanonicalizeError::UnsafeInteger));
        assert_eq!(canonicalize(&nested), Err(CanonicalizeError::UnsafeInteger));
        assert_eq!(canonicalize(&metadata), Err(CanonicalizeError::UnsafeInteger));
        assert_eq!(canonical_text(&sig), r#"{"_signature":{}}"#);
    }
}

#[test]
fn canonicalize_does_not_change_the_document() {
    let m = make_map(&[(SIGNATURE_FIELD, object(&[("sig", text("abc"))]))]);
    let before = m.clone();
    let _ = canonicalize_ok(&m);
    assert_eq!(m, before);
}

#[test]
fn canonical_text_without_floats_reads_back() {
    let m = make_map(&[
        ("\u{1}\"\\/\u{7f}", text("\u{0}\u{1f}\u{2028}\u{10ffff}\u{8}\u{c}\r")),
        ("", numbers(&[0, -1, 9007199254740991])),
        ("deep", object(&[("x", Value::Array(vec![Value::Array(vec![]), object(&[])]))])),
    ]);
    let read: JsonObject = serde_json::from_slice(&canonicalize_ok(&m)).unwrap();
    assert_eq!(read, m);
}

#[test]
fn canonical_text_tells_deep_documents_apart() {
    let deep = |leaf: Value| {
        let mut value = leaf;
        for _ in 0..300 {
            value = Value::Array(vec![value]);
        }
        make_map(&[("a", value)])
    };
    let one = canonicalize_ok(&deep(Value::from(1)));
    assert_eq!(one, canonicalize_ok(&deep(Value::from(1.0))));
    assert_ne!(one, canonicalize_ok(&deep(Value::from(2))));
    assert_eq!(one.len(), 300 + 1 + 300 + 6);
}

#[test]
fn canonical_text_of_floats_reads_back() {
    let floats: [f64; 7] = [0.1, -1.5, 1e-7, 5e-324, 1.7976931348623157e308, 1e21, 0.30000000000000004];
    for float in floats {
        let m = make_map(&[("f", Value::from(float))]);
        let read: JsonObject = serde_json::from_slice(&canonicalize_ok(&m)).unwrap();
        assert_eq!(read["f"].as_f64().unwrap().to_bits(), float.to_bits());
    }
    let whole: [(f64, i64); 5] = [(-0.0, 0), (1.0, 1), (-3.0, -3), (1e15, 1000000000000000), (9007199254740991.0, 9007199254740991)];
    for (float, integer) in whole {
        let m = make_map(&[("f", Value::from(float))]);
        let read: JsonObject = serde_json::from_slice(&canonicalize_ok(&m)).unwrap();
        assert_eq!(read["f"].as_i64(), Some(integer));
    }
}
