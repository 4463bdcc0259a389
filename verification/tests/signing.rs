use base64::engine::general_purpose::URL_SAFE_NO_PAD;
use base64::Engine;
use ed25519_dalek::SigningKey;
use json_signer::canonical::{canonicalize, SIGNATURE_FIELD};
use json_signer::json::JsonObject;
use json_signer::keys::{Algorithm, PrivateKey, PublicKey};
use json_signer::signing::{
    attach_signature, embed_signature, embedded_signature, prepare_document, verify_json, EmbedError,
    VerifyError,
};
use rand::rngs::OsRng;
use rsa::pkcs8::EncodePrivateKey;
use rsa::traits::PrivateKeyParts;
use rsa::{BigUint, RsaPrivateKey, RsaPublicKey};
use serde_json::Value;
use signature::{SignatureEncoding, Signer};
use spki::EncodePublicKey;

fn rsa_private(key: &RsaPrivateKey) -> PrivateKey {
    PrivateKey {
        algorithm: Algorithm::Rsa,
        der: key.to_pkcs8_der().unwrap().as_bytes().to_vec(),
    }
}

fn make_test_key_pair() -> (PrivateKey, PublicKey) {
    let priv_key = RsaPrivateKey::new(&mut OsRng, 1024).unwrap();
    let pub_key = RsaPublicKey::from(&priv_key);
    let public = PublicKey {
        algorithm: Algorithm::Rsa,
        der: pub_key.to_public_key_der().unwrap().into_vec(),
    };
    (rsa_private(&priv_key), public)
}

fn make_ed25519_key_pair(seed: u8) -> (PrivateKey, PublicKey) {
    let key = SigningKey::from_bytes(&[seed; 32]);
    let private = PrivateKey {
        algorithm: Algorithm::Ed25519,
        der: key.to_pkcs8_der().unwrap().as_bytes().to_vec(),
    };
    let public = PublicKey {
        algorithm: Algorithm::Ed25519,
        der: key.verifying_key().to_public_key_der().unwrap().into_vec(),
    };
    (private, public)
}

fn text(s: &str) -> Value {
    Value::String(s.to_string())
}

fn make_map(pairs: &[(&str, Value)]) -> JsonObject {
    let mut m = JsonObject::new();
    for (k, v) in pairs {
        m.insert(k.to_string(), v.clone());
    }
    m
}

fn object(pairs: &[(&str, Value)]) -> Value {
    Value::Object(make_map(pairs))
}

fn signed_map(priv_key: PrivateKey, payload: &JsonObject) -> JsonObject {
    let mut m = payload.clone();
    embed_signature(&mut m, priv_key, "test-key", "2024-01-01T00:00:00Z").unwrap();
    m
}

fn tamper_sig_block(m: &mut JsonObject, field: &str, value: Value) {
    m.get_mut(SIGNATURE_FIELD)
        .and_then(Value::as_object_mut)
        .unwrap()
        .insert(field.to_string(), value);
}

#[test]
fn test_verify_json_valid_signature_returns_true() {
    let (priv_key, pub_key) = make_test_key_pair();
    let signed = signed_map(
        priv_key,
        &make_map(&[("env", text("prod")), ("v", Value::from(2))]),
    );

    assert!(verify_json(&signed, pub_key).unwrap());
}

#[test]
fn test_verify_json_tampered_value_returns_false() {
    let (priv_key, pub_key) = make_test_key_pair();
    let mut signed = signed_map(priv_key, &make_map(&[("env", text("prod"))]));

    signed.insert("env".into(), text("dev"));

    assert!(!verify_json(&signed, pub_key).unwrap());
}

#[test]
fn test_verify_json_injected_field_returns_false() {
    let (priv_key, pub_key) = make_test_key_pair();
    let mut signed = signed_map(priv_key, &make_map(&[("env", text("prod"))]));

    signed.insert("injected".into(), text("evil"));

    assert!(!verify_json(&signed, pub_key).unwrap());
}

#[test]
fn test_verify_json_removed_field_returns_false() {
    let (priv_key, pub_key) = make_test_key_pair();
    let mut signed = signed_map(
        priv_key,
        &make_map(&[("a", Value::from(1)), ("b", Value::from(2))]),
    );

    signed.remove("b");

    assert!(!verify_json(&signed, pub_key).unwrap());
}

#[test]
fn test_verify_json_tampered_kid_returns_false() {
    let (priv_key, pub_key) = make_test_key_pair();
    let mut signed = signed_map(priv_key, &make_map(&[("env", text("prod"))]));

    tamper_sig_block(&mut signed, "kid", text("other-key"));

    assert!(!verify_json(&signed, pub_key).unwrap());
}

#[test]
fn test_verify_json_tampered_signed_at_returns_false() {
    let (priv_key, pub_key) = make_test_key_pair();
    let mut signed = signed_map(priv_key, &make_map(&[("env", text("prod"))]));

    tamper_sig_block(&mut signed, "signed_at", text("2030-01-01T00:00:00Z"));

    assert!(!verify_json(&signed, pub_key).unwrap());
}

#[test]
fn test_verify_json_wrong_key_returns_false() {
    let (priv_key, _) = make_test_key_pair();
    let (_, other_pub) = make_test_key_pair();
    let signed = signed_map(priv_key, &make_map(&[("x", Value::from(1))]));

    assert!(!verify_json(&signed, other_pub).unwrap());
}

#[test]
fn test_verify_json_missing_signature_block_is_error() {
    let (_, pub_key) = make_test_key_pair();
    let payload = make_map(&[("x", Value::from(1))]);

    let err = verify_json(&payload, pub_key).unwrap_err();
    assert!(err.message().contains(SIGNATURE_FIELD));
}

#[test]
fn test_verify_json_missing_sig_field_is_error() {
    let (_, pub_key) = make_test_key_pair();
    let mut payload = make_map(&[("x", Value::from(1))]);
    payload.insert(SIGNATURE_FIELD.into(), object(&[("alg", text("RS256"))]));

    let err = verify_json(&payload, pub_key).unwrap_err();
    assert!(err.message().contains("sig"));
}

#[test]
fn test_verify_json_invalid_base64_is_error() {
    let (_, pub_key) = make_test_key_pair();
    let mut payload = make_map(&[("x", Value::from(1))]);
    payload.insert(
        SIGNATURE_FIELD.into(),
        object(&[("sig", text("!!!not-base64!!!"))]),
    );

    assert!(verify_json(&payload, pub_key).is_err());
}

#[test]
fn test_verify_json_truncated_signature_does_not_verify() {
    let (_, pub_key) = make_test_key_pair();
    let mut payload = make_map(&[("x", Value::from(1))]);
    let bad_sig = URL_SAFE_NO_PAD.encode(b"way_too_short");
    payload.insert(SIGNATURE_FIELD.into(), object(&[("sig", text(&bad_sig))]));

    match verify_json(&payload, pub_key) {
        Ok(false) | Err(_) => {}
        Ok(true) => panic!("truncated signature must not verify"),
    }
}

#[test]
fn test_verify_json_empty_payload_with_valid_sig_returns_true() {
    let (priv_key, pub_key) = make_test_key_pair();
    let signed = signed_map(priv_key, &JsonObject::new());

    assert!(verify_json(&signed, pub_key).unwrap());
}

#[test]
fn ed25519_signs_and_verifies() {
    let (private, public) = make_ed25519_key_pair(1);
    let signed = signed_map(private, &make_map(&[("env", text("prod"))]));
    assert_eq!(signed[SIGNATURE_FIELD]["alg"], text("EdDSA"));
    assert_eq!(verify_json(&signed, public), Ok(true));
}

#[test]
fn ed25519_rejects_tampering() {
    let payload = make_map(&[("env", text("prod")), ("n", Value::from(1))]);
    for (field, value) in [("env", text("dev")), ("n", Value::from(2)), ("new", Value::Null)] {
        let (private, public) = make_ed25519_key_pair(1);
        let mut signed = signed_map(private, &payload);
        signed.insert(field.to_string(), value);
        assert_eq!(verify_json(&signed, public), Ok(false));
    }
    for field in ["alg", "kid", "signed_at", "extra"] {
        let (private, public) = make_ed25519_key_pair(1);
        let mut signed = signed_map(private, &payload);
        tamper_sig_block(&mut signed, field, text("other"));
        assert_eq!(verify_json(&signed, public), Ok(false));
    }
    let (private, _) = make_ed25519_key_pair(1);
    let (_, other) = make_ed25519_key_pair(2);
    assert_eq!(verify_json(&signed_map(private, &payload), other), Ok(false));
}

#[test]
fn equal_numbers_have_one_canonical_form() {
    let (private, public) = make_ed25519_key_pair(1);
    let mut signed = signed_map(private, &make_map(&[("n", Value::from(1))]));
    signed.insert("n".to_string(), Value::from(1.0));
    assert_eq!(verify_json(&signed, public), Ok(true));
}

#[test]
fn the_signature_is_made_over_the_canonical_bytes() {
    let (private, _) = make_ed25519_key_pair(7);
    let signed = signed_map(private, &make_map(&[("b", Value::from(2)), ("a", Value::from(1))]));
    let bytes = br#"{"_signature":{"alg":"EdDSA","kid":"test-key","signed_at":"2024-01-01T00:00:00Z"},"a":1,"b":2}"#;
    let expected = SigningKey::from_bytes(&[7; 32]).sign(bytes);
    assert_eq!(
        signed[SIGNATURE_FIELD]["sig"],
        text(&URL_SAFE_NO_PAD.encode(expected.to_bytes()))
    );
}

#[test]
fn embedding_replaces_the_block_and_nothing_else() {
    let (private, _) = make_test_key_pair();
    let mut m = make_map(&[
        ("env", text("prod")),
        (SIGNATURE_FIELD, object(&[("sig", text("old")), ("extra", Value::Null)])),
    ]);
    assert_eq!(embed_signature(&mut m, private, "k", "t"), Ok(()));
    assert_eq!(m.len(), 2);
    assert_eq!(m["env"], text("prod"));
    let block = m[SIGNATURE_FIELD].as_object().unwrap();
    assert_eq!(block.len(), 4);
    assert_eq!(block["alg"], text("RS256"));
    assert_eq!(block["kid"], text("k"));
    assert_eq!(block["signed_at"], text("t"));
    assert!(block["sig"].is_string());
}

#[test]
fn embedding_again_changes_nothing() {
    let (private, _) = make_ed25519_key_pair(3);
    let (again, _) = make_ed25519_key_pair(3);
    let once = signed_map(private, &make_map(&[("env", text("prod"))]));
    assert_eq!(signed_map(again, &once), once);
}

#[test]
fn embedding_refuses_unsafe_integers_and_leaves_no_signature() {
    let (private, public) = make_ed25519_key_pair(1);
    let mut m = make_map(&[("n", Value::from(i64::MIN))]);
    assert_eq!(
        embed_signature(&mut m, private, "k", "t"),
        Err(EmbedError::UnsafeInteger)
    );
    assert_eq!(
        m[SIGNATURE_FIELD],
        object(&[("alg", text("EdDSA")), ("kid", text("k")), ("signed_at", text("t"))])
    );
    tamper_sig_block(&mut m, "sig", text("AAAA"));
    assert_eq!(verify_json(&m, public), Err(VerifyError::UnsafeInteger));
}

#[test]
fn a_key_that_is_too_short_does_not_sign() {
    let short = RsaPrivateKey::new(&mut OsRng, 256).unwrap();
    let mut m = make_map(&[("a", Value::from(1))]);
    let done = embed_signature(&mut m, rsa_private(&short), "k", "t");
    assert_eq!(done, Err(EmbedError::Signing));
    assert_eq!(EmbedError::Signing.message(), "Failed to sign config");
}

#[test]
fn each_verify_error_has_its_input() {
    let cases = [
        (make_map(&[]), VerifyError::NoSignatureBlock),
        (make_map(&[(SIGNATURE_FIELD, Value::Array(vec![]))]), VerifyError::NoSignatureBlock),
        (make_map(&[(SIGNATURE_FIELD, object(&[]))]), VerifyError::NoSig),
        (
            make_map(&[(SIGNATURE_FIELD, object(&[("sig", Value::from(1))]))]),
            VerifyError::NoSig,
        ),
        (
            make_map(&[(SIGNATURE_FIELD, object(&[("sig", text("ab=="))]))]),
            VerifyError::Base64,
        ),
        (
            make_map(&[
                ("n", Value::from(u64::MAX)),
                (SIGNATURE_FIELD, object(&[("sig", text("AAAA"))])),
            ]),
            VerifyError::UnsafeInteger,
        ),
        (
            make_map(&[(SIGNATURE_FIELD, object(&[("sig", text("AAAA"))]))]),
            VerifyError::SignatureLength,
        ),
        (
            make_map(&[(SIGNATURE_FIELD, object(&[("sig", text(""))]))]),
            VerifyError::SignatureLength,
        ),
    ];
    for (document, error) in cases {
        let (_, public) = make_ed25519_key_pair(1);
        assert_eq!(verify_json(&document, public), Err(error));
    }
}

#[test]
fn rsa_signature_of_impossible_length_is_error() {
    let (_, public) = make_test_key_pair();
    let sig = URL_SAFE_NO_PAD.encode([1u8; 64]);
    let m = make_map(&[(SIGNATURE_FIELD, object(&[("sig", text(&sig))]))]);
    let err = verify_json(&m, public).unwrap_err();
    assert_eq!(err, VerifyError::SignatureLength);
    assert_eq!(err.message(), "Invalid signature bytes");
}

#[test]
fn rsa_signature_of_right_length_that_does_not_match_is_invalid() {
    let (_, public) = make_test_key_pair();
    let sig = URL_SAFE_NO_PAD.encode([1u8; 128]);
    let m = make_map(&[(SIGNATURE_FIELD, object(&[("sig", text(&sig))]))]);
    assert_eq!(verify_json(&m, public), Ok(false));
}

#[test]
fn verify_error_messages() {
    assert_eq!(
        VerifyError::NoSignatureBlock.message(),
        "No '_signature' object found in config"
    );
    assert_eq!(VerifyError::NoSig.message(), "Signature block missing 'sig' field");
    assert_eq!(VerifyError::Base64.message(), "Failed to base64-decode signature");
    assert_eq!(VerifyError::UnsafeInteger.message(), EmbedError::UnsafeInteger.message());
}

#[test]
fn signatures_are_unpadded_base64url() {
    let with_sig = |sig: &str| make_map(&[(SIGNATURE_FIELD, object(&[("sig", text(sig))]))]);
    for sig in ["Zg==", "Zh", "+/+/", "Z", "Zm9v ", "é"] {
        let (_, public) = make_ed25519_key_pair(1);
        assert_eq!(verify_json(&with_sig(sig), public), Err(VerifyError::Base64), "{sig}");
    }
    for sig in ["Zg", "Zm8", "Zm9v", "-_-_"] {
        let (_, public) = make_ed25519_key_pair(1);
        assert_eq!(verify_json(&with_sig(sig), public), Err(VerifyError::SignatureLength), "{sig}");
    }
    let (_, public) = make_ed25519_key_pair(1);
    let zeros = "A".repeat(86);
    assert_eq!(verify_json(&with_sig(&zeros), public), Ok(false));
}

#[test]
fn preparing_puts_in_the_metadata() {
    let mut m = make_map(&[("a", Value::from(1)), (SIGNATURE_FIELD, Value::from(2))]);
    prepare_document(&mut m, Algorithm::Rsa, "k", "t");
    assert_eq!(
        Value::Object(m),
        object(&[
            ("a", Value::from(1)),
            (
                SIGNATURE_FIELD,
                object(&[("alg", text("RS256")), ("kid", text("k")), ("signed_at", text("t"))]),
            ),
        ])
    );
}

#[test]
fn attaching_writes_base64url() {
    let cases: [(&[u8], &str); 5] = [
        (b"", ""),
        (b"f", "Zg"),
        (b"fo", "Zm8"),
        (b"foo", "Zm9v"),
        (&[0xfb, 0xff, 0xbf], "-_-_"),
    ];
    for (bytes, expected) in cases {
        let mut m = make_map(&[(SIGNATURE_FIELD, object(&[("sig", Value::Null)]))]);
        attach_signature(&mut m, bytes);
        assert_eq!(m[SIGNATURE_FIELD], object(&[("sig", text(expected))]));
        assert_eq!(embedded_signature(&m).unwrap(), bytes);
    }
    let mut unsigned = make_map(&[("a", Value::from(1))]);
    attach_signature(&mut unsigned, b"foo");
    assert_eq!(unsigned, make_map(&[("a", Value::from(1))]));
    assert_eq!(embedded_signature(&unsigned), Err(VerifyError::NoSignatureBlock));
}

#[test]
fn attached_signatures_read_back_at_every_length() {
    for length in 0..70u8 {
        let bytes: Vec<u8> = (0..length).map(|i| i.wrapping_mul(37) ^ 0xa5).collect();
        let mut m = make_map(&[(SIGNATURE_FIELD, object(&[]))]);
        attach_signature(&mut m, &bytes);
        assert_eq!(embedded_signature(&m), Ok(bytes));
    }
}

#[test]
fn a_key_with_primes_of_unlike_length_signs() {
    let like = RsaPrivateKey::new(&mut OsRng, 1024).unwrap();
    let long = like.primes()[0].clone();
    let unlike = RsaPrivateKey::from_p_q(BigUint::from(3u8), long, BigUint::from(65537u32)).unwrap();
    let public = PublicKey {
        algorithm: Algorithm::Rsa,
        der: RsaPublicKey::from(&unlike).to_public_key_der().unwrap().into_vec(),
    };
    let signed = signed_map(rsa_private(&unlike), &make_map(&[("a", Value::from(1))]));
    assert_eq!(verify_json(&signed, public), Ok(true));
}

#[test]
fn a_changed_float_is_noticed() {
    let floats = [0.1, 0.2, 1.5, 2.0, 3.0, -2.0, 1e21, 1e22, 1e300, 5e-324, 9007199254740994.0];
    for (i, before) in floats.iter().enumerate() {
        for (j, after) in floats.iter().enumerate() {
            let (private, public) = make_ed25519_key_pair(1);
            let mut signed = signed_map(private, &make_map(&[("f", Value::from(*before))]));
            signed.insert("f".to_string(), Value::from(*after));
            assert_eq!(verify_json(&signed, public), Ok(i == j));
        }
    }
}

#[test]
fn a_changed_string_beside_a_float_is_noticed() {
    let (private, public) = make_ed25519_key_pair(1);
    let mut signed = signed_map(private, &make_map(&[("f", Value::from(0.5)), ("s", text("a"))]));
    signed.insert("s".to_string(), text("b"));
    assert_eq!(verify_json(&signed, public), Ok(false));
}

#[test]
fn a_long_public_key_verifies() {
    let long = (BigUint::from(1u8) << 4423) - BigUint::from(1u8);
    let private = RsaPrivateKey::from_p_q(BigUint::from(3u8), long, BigUint::from(65537u32)).unwrap();
    let public = PublicKey {
        algorithm: Algorithm::Rsa,
        der: RsaPublicKey::from(&private).to_public_key_der().unwrap().into_vec(),
    };
    let mut signed = signed_map(rsa_private(&private), &make_map(&[("a", Value::from(1))]));
    let again = PublicKey { algorithm: Algorithm::Rsa, der: public.der.clone() };
    assert_eq!(verify_json(&signed, public), Ok(true));
    signed.insert("a".to_string(), Value::from(2));
    assert_eq!(verify_json(&signed, again), Ok(false));
}

#[test]
fn rsa_signatures_are_those_of_the_whole_key() {
    let like = RsaPrivateKey::new(&mut OsRng, 1024).unwrap();
    let exponent = BigUint::from(65537u32);
    let (p, q) = (like.primes()[0].clone(), like.primes()[1].clone());
    let keys = [
        RsaPrivateKey::from_p_q(p.clone(), q.clone(), exponent.clone()).unwrap(),
        RsaPrivateKey::from_p_q(q, p.clone(), exponent.clone()).unwrap(),
        RsaPrivateKey::from_p_q(p, BigUint::from(15u8), exponent).unwrap(),
    ];
    for key in keys {
        for n in 0..8 {
            let payload = make_map(&[("n", Value::from(n))]);
            let mut prepared = payload.clone();
            prepare_document(&mut prepared, Algorithm::Rsa, "k", "t");
            let bytes = canonicalize(&prepared).unwrap();
            let signer = rsa::pkcs1v15::SigningKey::<sha2::Sha256>::new(key.clone());
            let expected: Option<rsa::pkcs1v15::Signature> = signer.try_sign(&bytes).ok();
            let mut signed = payload;
            match (embed_signature(&mut signed, rsa_private(&key), "k", "t"), expected) {
                (Ok(()), Some(signature)) => {
                    assert_eq!(embedded_signature(&signed).unwrap(), signature.to_vec());
                }
                (Err(e), None) => assert_eq!(e, EmbedError::Signing),
                _ => panic!("signing must go as the key goes"),
            }
        }
    }
}
