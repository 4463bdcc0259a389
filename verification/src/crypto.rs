//! The two signature schemes, on keys in their DER encodings: Ed25519, and RSA
//! with PKCS#1 v1.5 padding and SHA-256. Private keys are PKCS#8, public keys
//! SubjectPublicKeyInfo.

use vstd::prelude::*;

use rsa::pkcs8::{DecodePrivateKey, EncodePrivateKey};
use rsa::traits::{PrivateKeyParts, PublicKeyParts};
use signature::{SignatureEncoding, Signer, Verifier};
use spki::{DecodePublicKey, EncodePublicKey};

use crate::keys::KeyPairError;

verus! {

/// How many bytes an Ed25519 signature has.
pub const ED25519_SIGNATURE_LENGTH: usize = 64;

/// The bytes are the PKCS#8 encoding of an Ed25519 private key.
pub uninterp spec fn is_ed25519_private(der: Seq<u8>) -> bool;

/// The bytes are the PKCS#8 encoding of a valid RSA private key.
pub uninterp spec fn is_rsa_private(der: Seq<u8>) -> bool;

/// The bytes are the SubjectPublicKeyInfo encoding of an Ed25519 public key.
pub uninterp spec fn is_ed25519_public(der: Seq<u8>) -> bool;

/// The bytes are the SubjectPublicKeyInfo encoding of an RSA public key.
pub uninterp spec fn is_rsa_public(der: Seq<u8>) -> bool;

/// The encoding of the public key that belongs to an Ed25519 private key.
pub uninterp spec fn ed25519_public_of(private: Seq<u8>) -> Option<Seq<u8>>;

/// The encoding of the public key that belongs to an RSA private key.
pub uninterp spec fn rsa_public_of(private: Seq<u8>) -> Option<Seq<u8>>;

/// The Ed25519 signature of a message.
pub uninterp spec fn ed25519_signature(private: Seq<u8>, message: Seq<u8>) -> Option<Seq<u8>>;

/// The RSA signature of a message.
pub uninterp spec fn rsa_signature(private: Seq<u8>, message: Seq<u8>) -> Option<Seq<u8>>;

/// The Ed25519 public key accepts the signature of the message.
pub uninterp spec fn ed25519_accepts(public: Seq<u8>, message: Seq<u8>, signature: Seq<u8>) -> bool;

/// The RSA public key accepts the signature of the message.
pub uninterp spec fn rsa_accepts(public: Seq<u8>, message: Seq<u8>, signature: Seq<u8>) -> bool;

/// The lengths in bits of the two factors of the modulus of an RSA private key.
pub uninterp spec fn rsa_factor_bits(private: Seq<u8>) -> Option<(nat, nat)>;

/// The length in bits of the modulus of an RSA public key. It may be longer than
/// that of a key file may.
pub uninterp spec fn rsa_modulus_bits(public: Seq<u8>) -> Option<nat>;

/// How many bytes that many bits fill.
pub open spec fn byte_length(bits: nat) -> nat {
    (bits + 7) / 8
}

/// `from_pkcs8_der` of `ed25519_dalek::SigningKey`. It goes by the algorithm
/// identifier in the encoding, so no RSA key passes. No public key passes as a
/// private one or the other way round, since PKCS#8 starts with a number and
/// SubjectPublicKeyInfo with the algorithm identifier.
#[verifier::external_body]
pub(crate) fn ed25519_private_decodes(der: &[u8]) -> (decodes: bool)
    ensures
        decodes == is_ed25519_private(der@),
        decodes ==> !is_rsa_private(der@),
        decodes ==> !is_ed25519_public(der@) && !is_rsa_public(der@),
{
    ed25519_dalek::SigningKey::from_pkcs8_der(der).is_ok()
}

/// `from_pkcs8_der` of `rsa::RsaPrivateKey`, which checks the key's numbers too.
/// It goes by the algorithm identifier in the encoding, so no Ed25519 key
/// passes, and no public key does.
#[verifier::external_body]
pub(crate) fn rsa_private_decodes(der: &[u8]) -> (decodes: bool)
    ensures
        decodes == is_rsa_private(der@),
        decodes ==> !is_ed25519_private(der@),
        decodes ==> !is_ed25519_public(der@) && !is_rsa_public(der@),
{
    rsa::RsaPrivateKey::from_pkcs8_der(der).is_ok()
}

/// `from_public_key_der` of `ed25519_dalek::VerifyingKey`. It goes by the
/// algorithm identifier in the encoding, so no RSA key passes, and no private key
/// does.
#[verifier::external_body]
pub(crate) fn ed25519_public_decodes(der: &[u8]) -> (decodes: bool)
    ensures
        decodes == is_ed25519_public(der@),
        decodes ==> !is_rsa_public(der@),
        decodes ==> !is_ed25519_private(der@) && !is_rsa_private(der@),
{
    ed25519_dalek::VerifyingKey::from_public_key_der(der).is_ok()
}

/// `from_public_key_der` of `rsa::RsaPublicKey`, which accepts a modulus of up to
/// 4096 bits. It goes by the algorithm identifier in the encoding, so no Ed25519
/// key passes, and no private key does.
#[verifier::external_body]
pub(crate) fn rsa_public_decodes(der: &[u8]) -> (decodes: bool)
    ensures
        decodes == is_rsa_public(der@),
        decodes ==> !is_ed25519_public(der@),
        decodes ==> !is_ed25519_private(der@) && !is_rsa_private(der@),
{
    rsa::RsaPublicKey::from_public_key_der(der).is_ok()
}

/// `to_public_key_der` of the `verifying_key` of an `ed25519_dalek::SigningKey`:
/// there is one for every private key.
#[verifier::external_body]
pub(crate) fn ed25519_public_der(private: &[u8]) -> (public: Option<Vec<u8>>)
    ensures
        match public {
            Some(der) => ed25519_public_of(private@) == Some(der@),
            None => ed25519_public_of(private@) is None && !is_ed25519_private(private@),
        },
{
    let key = ed25519_dalek::SigningKey::from_pkcs8_der(private).ok()?;
    Some(key.verifying_key().to_public_key_der().ok()?.into_vec())
}

/// `to_public_key_der` of the `rsa::RsaPublicKey` of an `rsa::RsaPrivateKey`:
/// there is one for every private key.
#[verifier::external_body]
pub(crate) fn rsa_public_der(private: &[u8]) -> (public: Option<Vec<u8>>)
    ensures
        match public {
            Some(der) => rsa_public_of(private@) == Some(der@),
            None => rsa_public_of(private@) is None && !is_rsa_private(private@),
        },
{
    let key = rsa::RsaPrivateKey::from_pkcs8_der(private).ok()?;
    Some(rsa::RsaPublicKey::from(&key).to_public_key_der().ok()?.into_vec())
}

/// `try_sign` of `ed25519_dalek::SigningKey`: every private key signs every
/// message, and the public key that belongs to it accepts the signature.
#[verifier::external_body]
pub(crate) fn ed25519_sign(private: &[u8], message: &[u8]) -> (signature: Option<Vec<u8>>)
    ensures
        match signature {
            Some(bytes) => ed25519_signature(private@, message@) == Some(bytes@)
                && bytes@.len() == ED25519_SIGNATURE_LENGTH
                && ed25519_public_of(private@) is Some
                && ed25519_accepts(ed25519_public_of(private@)->Some_0, message@, bytes@),
            None => ed25519_signature(private@, message@) is None && !is_ed25519_private(private@),
        },
{
    let key = ed25519_dalek::SigningKey::from_pkcs8_der(private).ok()?;
    Some(key.try_sign(message).ok()?.to_vec())
}

/// The lengths in bits of the two factors that an `rsa::RsaPrivateKey` has, in
/// their order.
#[verifier::external_body]
fn rsa_factor_lengths(private: &[u8]) -> (lengths: Option<(usize, usize)>)
    ensures
        match lengths {
            Some((first, second)) => rsa_factor_bits(private@) == Some((first as nat, second as nat)),
            None => rsa_factor_bits(private@) is None,
        },
{
    let key = rsa::RsaPrivateKey::from_pkcs8_der(private).ok()?;
    Some((key.primes()[0].bits(), key.primes()[1].bits()))
}

/// `try_sign` of `rsa::pkcs1v15::SigningKey` with SHA-256. The scheme is
/// deterministic. It fails on a modulus that is too short for the padded hash,
/// and where raising the signature to the public exponent does not give the
/// padded hash back. What it returns has the length of the modulus, and the
/// public key that belongs to the private one accepts it. It adds the first
/// factor of the modulus to a number below zero, whose size is less than that of
/// the second, until it is above: the first must not be the shorter one.
#[verifier::external_body]
fn rsa_sign_in_order(private: &[u8], message: &[u8]) -> (signature: Option<Vec<u8>>)
    requires
        rsa_factor_bits(private@) matches Some((first, second)) ==> first >= second,
    ensures
        match signature {
            Some(bytes) => rsa_signature(private@, message@) == Some(bytes@)
                && is_rsa_private(private@)
                && rsa_public_of(private@) is Some
                && rsa_modulus_bits(rsa_public_of(private@)->Some_0) is Some
                && bytes@.len() == byte_length(rsa_modulus_bits(rsa_public_of(private@)->Some_0)->Some_0)
                && rsa_accepts(rsa_public_of(private@)->Some_0, message@, bytes@),
            None => rsa_signature(private@, message@) is None,
        },
{
    let key = rsa::RsaPrivateKey::from_pkcs8_der(private).ok()?;
    let signer = rsa::pkcs1v15::SigningKey::<sha2::Sha256>::new(key);
    let signature: rsa::pkcs1v15::Signature = signer.try_sign(message).ok()?;
    Some(signature.to_vec())
}

/// `try_sign` of `rsa::pkcs1v15::SigningKey` with SHA-256, for the same key with
/// its two factors in the other order. The signature is the one number below the
/// modulus that leaves given remainders by the two factors, or, where they have a
/// factor in common, is computed without them: their order does not matter to it.
#[verifier::external_body]
fn rsa_sign_reversed(private: &[u8], message: &[u8]) -> (signature: Option<Vec<u8>>)
    requires
        rsa_factor_bits(private@) matches Some((first, second)) ==> first <= second,
    ensures
        match signature {
            Some(bytes) => rsa_signature(private@, message@) == Some(bytes@)
                && is_rsa_private(private@)
                && rsa_public_of(private@) is Some
                && rsa_modulus_bits(rsa_public_of(private@)->Some_0) is Some
                && bytes@.len() == byte_length(rsa_modulus_bits(rsa_public_of(private@)->Some_0)->Some_0)
                && rsa_accepts(rsa_public_of(private@)->Some_0, message@, bytes@),
            None => rsa_signature(private@, message@) is None,
        },
{
    let key = rsa::RsaPrivateKey::from_pkcs8_der(private).ok()?;
    let factors = vec![key.primes()[1].clone(), key.primes()[0].clone()];
    let (n, e, d) = (key.n().clone(), key.e().clone(), key.d().clone());
    let reversed = rsa::RsaPrivateKey::from_components(n, e, d, factors).ok()?;
    let signer = rsa::pkcs1v15::SigningKey::<sha2::Sha256>::new(reversed);
    let signature: rsa::pkcs1v15::Signature = signer.try_sign(message).ok()?;
    Some(signature.to_vec())
}

/// Signs a message with an RSA key, whichever of its two factors is the longer
/// one.
pub(crate) fn rsa_sign(private: &[u8], message: &[u8]) -> (signature: Option<Vec<u8>>)
    ensures
        match signature {
            Some(bytes) => rsa_signature(private@, message@) == Some(bytes@)
                && is_rsa_private(private@)
                && rsa_public_of(private@) is Some
                && rsa_modulus_bits(rsa_public_of(private@)->Some_0) is Some
                && bytes@.len() == byte_length(rsa_modulus_bits(rsa_public_of(private@)->Some_0)->Some_0)
                && rsa_accepts(rsa_public_of(private@)->Some_0, message@, bytes@),
            None => rsa_signature(private@, message@) is None,
        },
{
    match rsa_factor_lengths(private) {
        Some((first, second)) => if first < second {
            rsa_sign_reversed(private, message)
        } else {
            rsa_sign_in_order(private, message)
        },
        None => rsa_sign_in_order(private, message),
    }
}

/// `verify` of `ed25519_dalek::VerifyingKey`. Bytes that do not decode as a key
/// accept nothing, and neither does any key accept a signature of another length
/// than 64 bytes.
#[verifier::external_body]
pub(crate) fn ed25519_verify(public: &[u8], message: &[u8], signature: &[u8]) -> (accepted: bool)
    ensures
        accepted == ed25519_accepts(public@, message@, signature@),
{
    match (
        ed25519_dalek::VerifyingKey::from_public_key_der(public),
        ed25519_dalek::Signature::try_from(signature),
    ) {
        (Ok(key), Ok(signature)) => key.verify(message, &signature).is_ok(),
        _ => false,
    }
}

/// `verify` of `rsa::pkcs1v15::VerifyingKey` with SHA-256, for a key with a modulus
/// of any length. There is no answer for bytes that do not decode as a key; they
/// accept nothing.
#[verifier::external_body]
pub(crate) fn rsa_verify(public: &[u8], message: &[u8], signature: &[u8]) -> (accepted: Option<bool>)
    ensures
        match accepted {
            Some(a) => a == rsa_accepts(public@, message@, signature@),
            None => !rsa_accepts(public@, message@, signature@) && rsa_modulus_bits(public@) is None,
        },
{
    let info = spki::SubjectPublicKeyInfoRef::try_from(public).ok()?;
    info.algorithm.assert_algorithm_oid(rsa::pkcs1::ALGORITHM_OID).ok()?;
    let parts = rsa::pkcs1::RsaPublicKey::try_from(info.subject_public_key.as_bytes()?).ok()?;
    let n = rsa::BigUint::from_bytes_be(parts.modulus.as_bytes());
    let e = rsa::BigUint::from_bytes_be(parts.public_exponent.as_bytes());
    let key = rsa::RsaPublicKey::new_with_max_size(n, e, usize::MAX).ok()?;
    let signature = rsa::pkcs1v15::Signature::try_from(signature).ok()?;
    Some(rsa::pkcs1v15::VerifyingKey::<sha2::Sha256>::new(key).verify(message, &signature).is_ok())
}

/// `bits` of the modulus of an `rsa::RsaPublicKey`, of any length. Signatures that
/// the key can accept have as many bytes as the modulus.
#[verifier::external_body]
pub(crate) fn rsa_modulus_length(public: &[u8]) -> (length: Option<usize>)
    ensures
        match length {
            Some(n) => rsa_modulus_bits(public@) == Some(n as nat),
            None => rsa_modulus_bits(public@) is None && !is_rsa_public(public@),
        },
{
    let info = spki::SubjectPublicKeyInfoRef::try_from(public).ok()?;
    info.algorithm.assert_algorithm_oid(rsa::pkcs1::ALGORITHM_OID).ok()?;
    let parts = rsa::pkcs1::RsaPublicKey::try_from(info.subject_public_key.as_bytes()?).ok()?;
    let n = rsa::BigUint::from_bytes_be(parts.modulus.as_bytes());
    let e = rsa::BigUint::from_bytes_be(parts.public_exponent.as_bytes());
    let key = rsa::RsaPublicKey::new_with_max_size(n, e, usize::MAX).ok()?;
    Some(key.n().bits())
}

/// `generate` of `ed25519_dalek::SigningKey`, from the random numbers of the
/// operating system: some Ed25519 private key, in its PKCS#8 encoding. Its public
/// key decodes. Neither passes for the other. `generate` returns a key whatever the numbers are, and the
/// encoding has the same few fields of fixed size for each, so that
/// `to_pkcs8_der` does not fail.
#[verifier::external_body]
pub(crate) fn ed25519_generate() -> (private: Result<Vec<u8>, KeyPairError>)
    ensures
        private is Ok,
        private matches Ok(der) ==> is_ed25519_private(der@) && !is_ed25519_public(der@) && !is_rsa_public(der@),
        private matches Ok(der) ==> ed25519_public_of(der@) is Some && is_ed25519_public(
            ed25519_public_of(der@)->Some_0,
        ) && !is_ed25519_private(ed25519_public_of(der@)->Some_0) && !is_rsa_private(
            ed25519_public_of(der@)->Some_0,
        ),
{
    match ed25519_dalek::SigningKey::generate(&mut rand::rngs::OsRng).to_pkcs8_der() {
        Ok(document) => Ok(document.as_bytes().to_vec()),
        Err(_) => Err(KeyPairError::PrivateExport),
    }
}

/// `new` of `rsa::RsaPrivateKey`, from the random numbers of the operating
/// system: some RSA private key with a modulus of exactly that many bits, in its
/// PKCS#8 encoding. Up to 4096 bits its public key decodes. Neither of the two
/// passes for the other, or as an Ed25519 key. With this many bits `new` goes on
/// until it has two numbers that it takes for primes, and makes a key of them; only
/// the encoding can fail, where they have a factor in common.
#[verifier::external_body]
pub(crate) fn rsa_generate(bits: usize) -> (private: Result<Vec<u8>, KeyPairError>)
    requires
        1024 <= bits <= 4096,
    ensures
        private matches Ok(der) ==> is_rsa_private(der@) && !is_ed25519_private(der@) && !is_ed25519_public(der@)
            && !is_rsa_public(der@),
        private matches Ok(der) ==> rsa_public_of(der@) is Some && is_rsa_public(rsa_public_of(der@)->Some_0)
            && !is_ed25519_public(rsa_public_of(der@)->Some_0) && !is_ed25519_private(
            rsa_public_of(der@)->Some_0,
        ) && !is_rsa_private(rsa_public_of(der@)->Some_0),
        private matches Ok(der) ==> rsa_modulus_bits(rsa_public_of(der@)->Some_0) == Some(bits as nat),
        private matches Err(e) ==> e == KeyPairError::PrivateExport,
{
    match rsa::RsaPrivateKey::new(&mut rand::rngs::OsRng, bits) {
        Ok(key) => match key.to_pkcs8_der() {
            Ok(document) => Ok(document.as_bytes().to_vec()),
            Err(_) => Err(KeyPairError::PrivateExport),
        },
        Err(_) => Err(KeyPairError::Generation),
    }
}

} // verus!
