use json_signer::document::{parse_json_object, render_json_object, ParseError};
use json_signer::json::JsonObject;
use serde_json::Value;

fn repeated_key(raw: &str) -> Option<String> {
    match parse_json_object(raw) {
        Err(ParseError::DuplicateKey(key)) => Some(key),
        _ => None,
    }
}

fn nested(depth: usize) -> String {
    format!("{{\"a\":{}{}}}", "[".repeat(depth - 1), "]".repeat(depth - 1))
}

#[test]
fn test_parse_json_object_accepts_unique_keys() {
    let m = parse_json_object(r#"{"a":1,"b":{"c":2}}"#).unwrap();
    assert_eq!(m["a"], Value::from(1));
}

#[test]
fn test_parse_json_object_rejects_top_level_duplicate_keys() {
    let err = parse_json_object(r#"{"env":"prod","env":"dev"}"#).unwrap_err();
    assert!(err.message().contains("duplicate"));
}

#[test]
fn test_parse_json_object_rejects_nested_duplicate_keys() {
    let err = parse_json_object(r#"{"cfg":{"host":"a","host":"b"}}"#).unwrap_err();
    assert!(err.message().contains("duplicate"));
}

#[test]
fn test_parse_json_object_rejects_duplicates_inside_arrays() {
    let err = parse_json_object(r#"{"list":[{"k":1,"k":2}]}"#).unwrap_err();
    assert!(err.message().contains("duplicate"));
}

#[test]
fn test_parse_json_object_rejects_non_object_top_level() {
    assert!(parse_json_object("[1,2,3]").is_err());
}

#[test]
fn texts_that_are_no_json_object_are_refused() {
    let texts = [
        "", " ", "1", "null", "\"a\"", "{", "{}x", "{} {}", "{\"a\":1,}", "{\"a\"}", "{a:1}",
        "{\"a\":01}", "{\"a\":1e999}", "{\"a\":\"\\ud800\"}", "{\"a\":tru}", "{\"a\":[1,]}",
        "{\"a\":1 \"b\":2}", "{,}",
    ];
    for raw in texts {
        let err = parse_json_object(raw).unwrap_err();
        assert!(matches!(err, ParseError::NotJson(_)), "{raw}");
        assert_eq!(err.message(), "Config is not valid JSON");
    }
}

#[test]
fn every_value_is_read() {
    let raw = " \n{ \"a\" : [ 1 , -2.5e3 , true , false , null , \"x\\\"}\\u00e9\" , [ ] , { } ] ,\t\"b\" : { \"c\" : { \"d\" : [ { \"e\" : 0 } ] } } }\r\n";
    let m = parse_json_object(raw).unwrap();
    let plain: JsonObject = serde_json::from_str(raw).unwrap();
    assert_eq!(m, plain);
    assert_eq!(m.len(), 2);
    assert_eq!(m["a"][5], Value::from("x\"}é"));
}

#[test]
fn the_first_repeated_key_is_named() {
    assert_eq!(repeated_key(r#"{"a":1,"b":2,"a":3}"#).unwrap(), "a");
    assert_eq!(repeated_key(r#"{"a":{"x":1,"x":2},"a":3}"#).unwrap(), "x");
    assert_eq!(repeated_key(r#"{"a":1,"a":{"x":1,"x":2}}"#).unwrap(), "a");
    assert_eq!(repeated_key(r#"{"a":[[{"":1,"b":2,"":3}]]}"#).unwrap(), "");
    assert_eq!(repeated_key("{ \"k\" : 1 ,\n \"k\" : 2 }").unwrap(), "k");
}

#[test]
fn escaped_keys_repeat_plain_ones() {
    assert_eq!(repeated_key(r#"{"a":1,"\u0061":2}"#).unwrap(), "a");
    assert_eq!(repeated_key(r#"{"é":1,"\u00e9":2}"#).unwrap(), "é");
    assert_eq!(repeated_key(r#"{"\"":{"}":1},"\u0022":2}"#).unwrap(), "\"");
}

#[test]
fn keys_may_recur_in_different_objects() {
    assert!(parse_json_object(r#"{"a":{"a":{"a":1}},"b":[{"a":1},{"a":2}]}"#).is_ok());
    assert!(parse_json_object(r#"{"a":"\"a\":1,\"a\":2"}"#).is_ok());
}

#[test]
fn nesting_is_limited() {
    let deepest = parse_json_object(&nested(127)).unwrap();
    let text = render_json_object(deepest.clone()).unwrap();
    assert_eq!(parse_json_object(&text).unwrap(), deepest);
    assert!(matches!(parse_json_object(&nested(128)), Err(ParseError::NotJson(_))));
}

#[test]
fn rendered_text_has_one_member_to_a_line() {
    let m = parse_json_object(r#"{"b":[1,{}],"a":"x"}"#).unwrap();
    let text = render_json_object(m).unwrap();
    assert_eq!(text, "{\n  \"a\": \"x\",\n  \"b\": [\n    1,\n    {}\n  ]\n}");
}

#[test]
fn rendered_text_reads_back() {
    let raw = r#"{"z":[0.1,-0.0,1e21,5e-324,1.7976931348623157e308,0.30000000000000004,18446744073709551615,-9223372036854775808,1.0],
        "é\n\"\\":"\u0000\u001f\u2028\uffff\ud83d\ude00","":null,"o":{"t":true,"f":false}}"#;
    let m = parse_json_object(raw).unwrap();
    let text = render_json_object(m.clone()).unwrap();
    let again = parse_json_object(&text).unwrap();
    assert_eq!(again, m);
    let floats = ["0.1", "-0.0", "1e21", "5e-324", "1.7976931348623157e308", "0.30000000000000004"];
    for (i, literal) in floats.iter().enumerate() {
        let expected: f64 = literal.parse().unwrap();
        assert_eq!(again["z"][i].as_f64().unwrap().to_bits(), expected.to_bits());
    }
}

#[test]
fn the_reason_for_a_refusal_is_kept() {
    match parse_json_object("{\n  \"a\": 1,\n}") {
        Err(ParseError::NotJson(reason)) => assert_eq!(reason, "trailing comma at line 3 column 1"),
        _ => panic!("a trailing comma is no JSON"),
    }
}

#[test]
fn keys_repeat_behind_any_literal() {
    assert_eq!(repeated_key(r#"{"a\\":"\\\"","b":"}{][,:","a\\":2}"#).unwrap(), "a\\");
    assert_eq!(repeated_key("{\"a\":[],\"b\":{},\"c\":-1.5e-3,\"a\":null}").unwrap(), "a");
    assert_eq!(repeated_key("{\"a\":true,\r\n\t \"é\":[[1,2],[]] , \"é\":false}").unwrap(), "é");
    assert_eq!(repeated_key(r#"{"x":[{},{"y":[{"k":"\\","k":""}]}]}"#).unwrap(), "k");
}
