use ed25519_dalek::SigningKey;
use json_signer::canonical::SIGNATURE_FIELD;
use json_signer::json::JsonObject;
use json_signer::keys::{
    load_private_key, Algorithm, KeyError, PRIVATE_KEY_TAG, PUBLIC_KEY_TAG,
};
use json_signer::signing::{
    embed_signature, exit_code, load_and_verify_json, sign_json, EmbedError, LoadError, SignError,
    VerifyError,
};
use pem::{encode as pem_encode, Pem};
use rand::rngs::OsRng;
use rsa::pkcs8::EncodePrivateKey;
use rsa::{RsaPrivateKey, RsaPublicKey};
use serde_json::Value;
use spki::EncodePublicKey;

const SIGNED_AT: &str = "2024-01-01T00:00:00Z";

fn make_test_key_pair() -> (RsaPrivateKey, RsaPublicKey) {
    let priv_key = RsaPrivateKey::new(&mut OsRng, 1024).unwrap();
    let pub_key = RsaPublicKey::from(&priv_key);
    (priv_key, pub_key)
}

fn public_key_file(pub_key: &RsaPublicKey) -> String {
    let der = pub_key.to_public_key_der().unwrap();
    pem_encode(&Pem::new(PUBLIC_KEY_TAG, der.as_bytes()))
}

fn private_key_file(priv_key: &RsaPrivateKey) -> String {
    let der = priv_key.to_pkcs8_der().unwrap();
    pem_encode(&Pem::new(PRIVATE_KEY_TAG, der.as_bytes()))
}

fn ed25519_key_files(seed: u8) -> (String, String) {
    let key = SigningKey::from_bytes(&[seed; 32]);
    let private = key.to_pkcs8_der().unwrap();
    let public = key.verifying_key().to_public_key_der().unwrap();
    (
        pem_encode(&Pem::new(PRIVATE_KEY_TAG, private.as_bytes())),
        pem_encode(&Pem::new(PUBLIC_KEY_TAG, public.as_bytes())),
    )
}

fn text(s: &str) -> Value {
    Value::String(s.to_string())
}

fn make_map(pairs: &[(&str, Value)]) -> JsonObject {
    let mut m = JsonObject::new();
    for (k, v) in pairs {
        m.insert(k.to_string(), v.clone());
    }
    m
}

fn signed_json_file(priv_key: &RsaPrivateKey, payload: &JsonObject) -> String {
    let mut full = payload.clone();
    let key = load_private_key(&private_key_file(priv_key)).unwrap();
    embed_signature(&mut full, key, "test-k1", SIGNED_AT).unwrap();
    serde_json::to_string_pretty(&Value::Object(full)).unwrap()
}

#[test]
fn test_sign_json_round_trips_with_load_and_verify() {
    let (priv_key, pub_key) = make_test_key_pair();
    let raw = r#"{"env":"prod","version":1}"#;

    let output = sign_json(raw, &private_key_file(&priv_key), "rt-key", SIGNED_AT).unwrap();
    assert!(load_and_verify_json(&output, &public_key_file(&pub_key)).unwrap());

    let signed: Value = serde_json::from_str(&output).unwrap();
    assert_eq!(signed[SIGNATURE_FIELD]["kid"], text("rt-key"));
    assert_eq!(signed["env"], text("prod"));
}

#[test]
fn test_sign_json_replaces_existing_signature() {
    let (priv_key, pub_key) = make_test_key_pair();

    let (old_priv, _) = make_test_key_pair();
    let payload = make_map(&[("env", text("prod"))]);
    let raw = signed_json_file(&old_priv, &payload);

    let output = sign_json(&raw, &private_key_file(&priv_key), "new-key", SIGNED_AT).unwrap();
    assert!(load_and_verify_json(&output, &public_key_file(&pub_key)).unwrap());
}

#[test]
fn test_sign_json_rejects_duplicate_keys() {
    let (priv_key, _) = make_test_key_pair();
    let raw = r#"{"env":"prod","env":"dev"}"#;

    let err = sign_json(raw, &private_key_file(&priv_key), "k", SIGNED_AT).unwrap_err();
    assert!(err.message().contains("duplicate"));
}

#[test]
fn test_load_and_verify_json_rejects_duplicate_keys() {
    let (priv_key, pub_key) = make_test_key_pair();

    let payload = make_map(&[("env", text("prod"))]);
    let raw = signed_json_file(&priv_key, &payload);
    let tampered = raw.replacen(
        "\"env\": \"prod\"",
        "\"env\": \"dev\",\n  \"env\": \"prod\"",
        1,
    );
    assert_ne!(raw, tampered, "test setup must inject a duplicate key");

    let err = load_and_verify_json(&tampered, &public_key_file(&pub_key)).unwrap_err();
    assert!(err.message().contains("duplicate"));
}

#[test]
fn test_load_and_verify_json_valid_file_returns_true() {
    let (priv_key, pub_key) = make_test_key_pair();

    let payload = make_map(&[("env", text("prod")), ("version", Value::from(1))]);
    let raw = signed_json_file(&priv_key, &payload);

    assert!(load_and_verify_json(&raw, &public_key_file(&pub_key)).unwrap());
}

#[test]
fn test_load_and_verify_json_tampered_content_returns_false() {
    let (priv_key, pub_key) = make_test_key_pair();

    let payload = make_map(&[("env", text("prod"))]);
    let raw = signed_json_file(&priv_key, &payload);
    let tampered = raw.replace("\"prod\"", "\"dev\"");

    assert!(!load_and_verify_json(&tampered, &public_key_file(&pub_key)).unwrap());
}

#[test]
fn test_load_and_verify_json_missing_signature_field_is_error() {
    let (_, pub_key) = make_test_key_pair();

    let err = load_and_verify_json(r#"{"env":"prod"}"#, &public_key_file(&pub_key)).unwrap_err();
    assert!(err.message().contains(SIGNATURE_FIELD));
}

#[test]
fn test_load_and_verify_json_signature_field_not_object_is_error() {
    let (_, pub_key) = make_test_key_pair();

    let raw = format!(r#"{{"env":"prod","{SIGNATURE_FIELD}":"not-an-object"}}"#);

    let err = load_and_verify_json(&raw, &public_key_file(&pub_key)).unwrap_err();
    assert!(err.message().contains(SIGNATURE_FIELD));
}

#[test]
fn test_load_and_verify_json_invalid_json_content_is_error() {
    let (_, pub_key) = make_test_key_pair();

    assert!(load_and_verify_json("not valid json {{{{", &public_key_file(&pub_key)).is_err());
}

#[test]
fn test_load_and_verify_json_corrupt_pem_is_error() {
    let (priv_key, _) = make_test_key_pair();

    let payload = make_map(&[("x", Value::from(1))]);
    let raw = signed_json_file(&priv_key, &payload);
    let pem = "-----BEGIN PUBLIC KEY-----\n!!!not-valid-base64!!!\n-----END PUBLIC KEY-----\n";

    assert!(load_and_verify_json(&raw, pem).is_err());
}

#[test]
fn test_load_and_verify_json_wrong_public_key_returns_false() {
    let (priv_key, _) = make_test_key_pair();
    let (_, other_pub) = make_test_key_pair();

    let payload = make_map(&[("env", text("prod"))]);
    let raw = signed_json_file(&priv_key, &payload);

    assert!(!load_and_verify_json(&raw, &public_key_file(&other_pub)).unwrap());
}

#[test]
fn signed_text_verifies_with_ed25519() {
    let (private, public) = ed25519_key_files(1);
    let raw = r#"{"f":0.1,"list":[1,{"a":"\u0000é"}],"n":-0.0,"big":1e300}"#;
    let output = sign_json(raw, &private, "key-v1", SIGNED_AT).unwrap();
    assert_eq!(load_and_verify_json(&output, &public).unwrap(), true);
    let signed: Value = serde_json::from_str(&output).unwrap();
    assert_eq!(signed[SIGNATURE_FIELD]["alg"], text("EdDSA"));
    assert_eq!(signed[SIGNATURE_FIELD]["signed_at"], text(SIGNED_AT));
}

#[test]
fn layout_and_key_order_do_not_matter() {
    let (private, public) = ed25519_key_files(1);
    let one = sign_json(r#"{"a":1,"b":{"c":2,"d":3}}"#, &private, "k", SIGNED_AT).unwrap();
    let two = sign_json("{ \"b\" : {\"d\":3,\n\"c\":2},\t\"a\":1 }", &private, "k", SIGNED_AT).unwrap();
    assert_eq!(one, two);
    let compact: Value = serde_json::from_str(&one).unwrap();
    let relaid = serde_json::to_string(&compact).unwrap();
    assert_ne!(relaid, one);
    assert_eq!(load_and_verify_json(&relaid, &public).unwrap(), true);
}

#[test]
fn signing_twice_gives_the_same_text() {
    let (private, _) = ed25519_key_files(1);
    let once = sign_json(r#"{"a":1}"#, &private, "k", SIGNED_AT).unwrap();
    let twice = sign_json(&once, &private, "k", SIGNED_AT).unwrap();
    assert_eq!(once, twice);
}

#[test]
fn the_deepest_document_can_be_signed() {
    let (private, public) = ed25519_key_files(1);
    let raw = format!("{{\"a\":{}{}}}", "[".repeat(126), "]".repeat(126));
    let output = sign_json(&raw, &private, "k", SIGNED_AT).unwrap();
    assert_eq!(load_and_verify_json(&output, &public).unwrap(), true);
}

#[test]
fn each_sign_error_has_its_input() {
    let (private, public) = ed25519_key_files(1);
    assert!(matches!(sign_json("[]", "no pem", "k", "t"), Err(SignError::Parse(_))));
    assert!(matches!(
        sign_json("{}", "no pem", "k", "t"),
        Err(SignError::Key(KeyError::PrivatePem))
    ));
    assert!(matches!(
        sign_json("{}", &public, "k", "t"),
        Err(SignError::Key(KeyError::PrivateKey))
    ));
    let err = sign_json(r#"{"n":9007199254740992}"#, &private, "k", "t").unwrap_err();
    assert!(matches!(err, SignError::Embed(EmbedError::UnsafeInteger)));
    assert_eq!(err.message(), EmbedError::UnsafeInteger.message());
}

#[test]
fn each_load_error_has_its_input() {
    let (private, public) = ed25519_key_files(1);
    assert!(matches!(load_and_verify_json("[]", "no pem"), Err(LoadError::Parse(_))));
    assert!(matches!(
        load_and_verify_json("{}", "no pem"),
        Err(LoadError::Key(KeyError::PublicPem))
    ));
    assert!(matches!(
        load_and_verify_json("{}", &private),
        Err(LoadError::Key(KeyError::PublicKey))
    ));
    let raw = r#"{"n":-9223372036854775808,"_signature":{"sig":""}}"#;
    assert!(matches!(
        load_and_verify_json(raw, &public),
        Err(LoadError::Verify(VerifyError::UnsafeInteger))
    ));
}

#[test]
fn keys_of_the_other_scheme_do_not_verify() {
    let (private, _) = ed25519_key_files(1);
    let (_, rsa_public) = make_test_key_pair();
    let output = sign_json("{}", &private, "k", "t").unwrap();
    assert!(matches!(
        load_and_verify_json(&output, &public_key_file(&rsa_public)),
        Err(LoadError::Verify(VerifyError::SignatureLength))
    ));
}

#[test]
fn the_program_ends_well_only_on_a_valid_signature() {
    assert_eq!(exit_code(&Ok(true)), 0);
    assert_eq!(exit_code(&Ok(false)), 1);
    assert_eq!(exit_code(&Err(LoadError::Key(KeyError::PublicPem))), 1);
}

#[test]
fn the_scheme_follows_from_the_key() {
    let (private, _) = ed25519_key_files(1);
    assert_eq!(load_private_key(&private).unwrap().algorithm, Algorithm::Ed25519);
    let (rsa_private, _) = make_test_key_pair();
    let key = load_private_key(&private_key_file(&rsa_private)).unwrap();
    assert_eq!(key.algorithm, Algorithm::Rsa);
    assert_eq!(key.der, rsa_private.to_pkcs8_der().unwrap().as_bytes());
}

#[test]
fn order_and_space_inside_the_signature_block_do_not_matter() {
    let (private, public) = ed25519_key_files(1);
    let output = sign_json(r#"{"b":[1, {"d":1,"c":2}],"a":""}"#, &private, "k", "t").unwrap();
    let signed: Value = serde_json::from_str(&output).unwrap();
    let sig = signed[SIGNATURE_FIELD]["sig"].as_str().unwrap();
    let relaid = format!(
        "\t{{\n\"b\" :[ 1,{{\"c\":2 , \"d\":1}} ] ,\"_signature\":{{\"sig\":\"{sig}\",\"signed_at\":\"t\",\r\n\"kid\":\"k\",\"alg\":\"EdDSA\"}},\"a\":\"\"}} "
    );
    assert_eq!(load_and_verify_json(&relaid, &public).unwrap(), true);
    let changed = relaid.replace("[ 1,", "[ 2,");
    assert_eq!(load_and_verify_json(&changed, &public).unwrap(), false);
}
