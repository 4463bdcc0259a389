//! Keys: reading them from PEM, making new pairs, and signing and checking bytes
//! with them.

use vstd::prelude::*;

use crate::crypto::{ED25519_SIGNATURE_LENGTH, byte_length, ed25519_accepts, ed25519_generate, ed25519_private_decodes, ed25519_public_decodes, ed25519_public_der, ed25519_public_of, ed25519_sign, ed25519_signature, ed25519_verify, is_ed25519_private, is_ed25519_public, is_rsa_private, is_rsa_public, rsa_accepts, rsa_generate, rsa_modulus_bits, rsa_modulus_length, rsa_private_decodes, rsa_public_decodes, rsa_public_der, rsa_public_of, rsa_sign, rsa_signature, rsa_verify};

verus! {

/// The PEM tag of a private key (PKCS#8).
pub const PRIVATE_KEY_TAG: &'static str = "PRIVATE KEY";

/// The PEM tag of a public key (SubjectPublicKeyInfo).
pub const PUBLIC_KEY_TAG: &'static str = "PUBLIC KEY";

/// The size of the RSA keys that are made.
pub const RSA_BITS: usize = 2048;

/// A signature scheme.
#[derive(Clone, Copy, Debug, PartialEq, Eq, Structural)]
pub enum Algorithm {
    Ed25519,
    Rsa,
}

/// A private key, in its PKCS#8 encoding.
pub struct PrivateKey {
    pub algorithm: Algorithm,
    pub der: Vec<u8>,
}

/// A public key, in its SubjectPublicKeyInfo encoding.
pub struct PublicKey {
    pub algorithm: Algorithm,
    pub der: Vec<u8>,
}

/// What a key is: its scheme and its encoding.
pub struct Key {
    pub algorithm: Algorithm,
    pub der: Seq<u8>,
}

impl View for PrivateKey {
    type V = Key;

    open spec fn view(&self) -> Key {
        Key { algorithm: self.algorithm, der: self.der@ }
    }
}

impl View for PublicKey {
    type V = Key;

    open spec fn view(&self) -> Key {
        Key { algorithm: self.algorithm, der: self.der@ }
    }
}

/// Why a key file is not accepted.
#[derive(Clone, Copy, Debug, PartialEq, Eq, Structural)]
pub enum KeyError {
    /// The private key file is not PEM.
    PrivatePem,
    /// The private key file holds no private key of either scheme.
    PrivateKey,
    /// The public key file is not PEM.
    PublicPem,
    /// The public key file holds no public key of either scheme.
    PublicKey,
}

impl KeyError {
    /// What to tell the user.
    pub open spec fn text(&self) -> Seq<char> {
        match self {
            KeyError::PrivatePem => "Failed to parse private key PEM"@,
            KeyError::PrivateKey => "Failed to load private key"@,
            KeyError::PublicPem => "Failed to parse public key PEM"@,
            KeyError::PublicKey => "Failed to load public key"@,
        }
    }

    /// What to tell the user.
    pub fn message(&self) -> (message: &'static str)
        ensures
            message@ == self.text(),
    {
        match self {
            KeyError::PrivatePem => "Failed to parse private key PEM",
            KeyError::PrivateKey => "Failed to load private key",
            KeyError::PublicPem => "Failed to parse public key PEM",
            KeyError::PublicKey => "Failed to load public key",
        }
    }
}

/// Why no key pair was made.
#[derive(Clone, Copy, Debug, PartialEq, Eq, Structural)]
pub enum KeyPairError {
    /// No private key could be made.
    Generation,
    /// The private key could not be exported.
    PrivateExport,
    /// The public key could not be exported.
    PublicExport,
}

impl KeyPairError {
    /// What to tell the user.
    pub open spec fn text(&self) -> Seq<char> {
        match self {
            KeyPairError::Generation => "Key generation failed"@,
            KeyPairError::PrivateExport => "Failed to export private key"@,
            KeyPairError::PublicExport => "Failed to export public key"@,
        }
    }

    /// What to tell the user.
    pub fn message(&self) -> (message: &'static str)
        ensures
            message@ == self.text(),
    {
        match self {
            KeyPairError::Generation => "Key generation failed",
            KeyPairError::PrivateExport => "Failed to export private key",
            KeyPairError::PublicExport => "Failed to export public key",
        }
    }
}

/// A new pair of keys, as the texts of the two key files.
pub struct KeyPair {
    pub private_pem: String,
    pub public_pem: String,
}

/// Makes `pem::PemError` known to the verifier, as an opaque type.
#[verifier::external_type_specification]
#[verifier::external_body]
pub struct ExPemError(pem::PemError);

/// The contents of the first PEM block in a text.
pub uninterp spec fn pem_contents(text: Seq<char>) -> Option<Seq<u8>>;

/// The text of a PEM block.
pub uninterp spec fn pem_text(tag: Seq<char>, contents: Seq<u8>) -> Seq<char>;

/// `pem::parse`, and the `contents` of what it finds. The tag may be any.
#[verifier::external_body]
fn read_pem(text: &str) -> (contents: Result<Vec<u8>, pem::PemError>)
    ensures
        match contents {
            Ok(bytes) => pem_contents(text@) == Some(bytes@),
            Err(_) => pem_contents(text@) is None,
        },
{
    Ok(pem::parse(text)?.into_contents())
}

/// `pem::encode` of a block without headers. Parsed again, the text gives the
/// contents back, as long as the tag is not empty and has no hyphen, which could
/// end it early.
#[verifier::external_body]
fn write_pem(tag: &str, contents: &[u8]) -> (text: String)
    ensures
        text@ == pem_text(tag@, contents@),
        tag@.len() > 0 && !tag@.contains('-') ==> pem_contents(text@) == Some(contents@),
{
    pem::encode(&pem::Pem::new(tag, contents))
}

/// The bytes are a private key of the scheme.
pub open spec fn is_private(algorithm: Algorithm, der: Seq<u8>) -> bool {
    match algorithm {
        Algorithm::Ed25519 => is_ed25519_private(der),
        Algorithm::Rsa => is_rsa_private(der),
    }
}

/// The private key is one for Ed25519.
pub open spec fn is_ed25519_key(private: Key) -> bool {
    private.algorithm is Ed25519 && is_ed25519_private(private.der)
}

/// The encoding of the public key that belongs to a private key.
pub open spec fn public_of(private: Key) -> Option<Seq<u8>> {
    match private.algorithm {
        Algorithm::Ed25519 => ed25519_public_of(private.der),
        Algorithm::Rsa => rsa_public_of(private.der),
    }
}

/// The two keys are a pair.
pub open spec fn is_pair(private: Key, public: Key) -> bool {
    &&& public.algorithm == private.algorithm
    &&& public_of(private) == Some(public.der)
}

/// The signature of a message.
pub open spec fn signature_of(private: Key, message: Seq<u8>) -> Option<Seq<u8>> {
    match private.algorithm {
        Algorithm::Ed25519 => ed25519_signature(private.der, message),
        Algorithm::Rsa => rsa_signature(private.der, message),
    }
}

/// The public key accepts the signature of the message.
pub open spec fn accepts(public: Key, message: Seq<u8>, signature: Seq<u8>) -> bool {
    match public.algorithm {
        Algorithm::Ed25519 => ed25519_accepts(public.der, message, signature),
        Algorithm::Rsa => rsa_accepts(public.der, message, signature),
    }
}

/// How many bytes the signatures have that a public key can accept.
pub open spec fn signature_length(public: Key) -> Option<nat> {
    match public.algorithm {
        Algorithm::Ed25519 => Some(ED25519_SIGNATURE_LENGTH as nat),
        Algorithm::Rsa => match rsa_modulus_bits(public.der) {
            Some(bits) => Some(byte_length(bits)),
            None => None,
        },
    }
}

/// What reading a private key comes to.
pub open spec fn private_key_outcome(pem: Seq<char>) -> Result<Key, KeyError> {
    match pem_contents(pem) {
        None => Err(KeyError::PrivatePem),
        Some(der) => if is_ed25519_private(der) {
            Ok(Key { algorithm: Algorithm::Ed25519, der })
        } else if is_rsa_private(der) {
            Ok(Key { algorithm: Algorithm::Rsa, der })
        } else {
            Err(KeyError::PrivateKey)
        },
    }
}

/// What reading a public key comes to.
pub open spec fn public_key_outcome(pem: Seq<char>) -> Result<Key, KeyError> {
    match pem_contents(pem) {
        None => Err(KeyError::PublicPem),
        Some(der) => if is_ed25519_public(der) {
            Ok(Key { algorithm: Algorithm::Ed25519, der })
        } else if is_rsa_public(der) {
            Ok(Key { algorithm: Algorithm::Rsa, der })
        } else {
            Err(KeyError::PublicKey)
        },
    }
}

/// Reads a private key from PEM. What is in it says which scheme it is for. No
/// private key file is also a public key file.
pub fn load_private_key(pem_data: &str) -> (key: Result<PrivateKey, KeyError>)
    ensures
        match key {
            Ok(k) => private_key_outcome(pem_data@) == Ok::<Key, KeyError>(k@)
                && public_key_outcome(pem_data@) == Err::<Key, KeyError>(KeyError::PublicKey),
            Err(e) => private_key_outcome(pem_data@) == Err::<Key, KeyError>(e),
        },
{
    match read_pem(pem_data) {
        Ok(der) => if ed25519_private_decodes(der.as_slice()) {
            Ok(PrivateKey { algorithm: Algorithm::Ed25519, der })
        } else if rsa_private_decodes(der.as_slice()) {
            Ok(PrivateKey { algorithm: Algorithm::Rsa, der })
        } else {
            Err(KeyError::PrivateKey)
        },
        Err(_) => Err(KeyError::PrivatePem),
    }
}

/// Reads a public key from PEM. What is in it says which scheme it is for. No
/// public key file is also a private key file.
pub fn load_public_key(pem_data: &str) -> (key: Result<PublicKey, KeyError>)
    ensures
        match key {
            Ok(k) => public_key_outcome(pem_data@) == Ok::<Key, KeyError>(k@)
                && private_key_outcome(pem_data@) == Err::<Key, KeyError>(KeyError::PrivateKey),
            Err(e) => public_key_outcome(pem_data@) == Err::<Key, KeyError>(e),
        },
{
    match read_pem(pem_data) {
        Ok(der) => if ed25519_public_decodes(der.as_slice()) {
            Ok(PublicKey { algorithm: Algorithm::Ed25519, der })
        } else if rsa_public_decodes(der.as_slice()) {
            Ok(PublicKey { algorithm: Algorithm::Rsa, der })
        } else {
            Err(KeyError::PublicKey)
        },
        Err(_) => Err(KeyError::PublicPem),
    }
}

/// The key files for a private key: the key itself, and the public key that
/// belongs to it.
pub fn key_pair_of(private: &PrivateKey) -> (pair: Result<KeyPair, KeyPairError>)
    ensures
        match pair {
            Ok(p) => public_of(private@) is Some
                && p.private_pem@ == pem_text(PRIVATE_KEY_TAG@, private@.der)
                && p.public_pem@ == pem_text(PUBLIC_KEY_TAG@, public_of(private@)->Some_0)
                && pem_contents(p.private_pem@) == Some(private@.der)
                && pem_contents(p.public_pem@) == public_of(private@),
            Err(e) => public_of(private@) is None && e == KeyPairError::PublicExport,
        },
        is_private(private@.algorithm, private@.der) ==> pair is Ok,
{
    let public = match private.algorithm {
        Algorithm::Ed25519 => ed25519_public_der(private.der.as_slice()),
        Algorithm::Rsa => rsa_public_der(private.der.as_slice()),
    };
    proof {
        reveal_strlit("PRIVATE KEY");
        reveal_strlit("PUBLIC KEY");
    }
    match public {
        Some(public_der) => Ok(
            KeyPair {
                private_pem: write_pem(PRIVATE_KEY_TAG, private.der.as_slice()),
                public_pem: write_pem(PUBLIC_KEY_TAG, public_der.as_slice()),
            },
        ),
        None => Err(KeyPairError::PublicExport),
    }
}

/// The texts are the key files of some pair of the scheme: they read back as a
/// private key and as the public key that belongs to it, neither reads as the
/// other, and the modulus of an RSA key has its full length.
pub open spec fn are_key_files(algorithm: Algorithm, private_pem: Seq<char>, public_pem: Seq<char>) -> bool {
    exists|private: Key, public: Key|
        {
            &&& private.algorithm == algorithm
            &&& #[trigger] is_pair(private, public)
            &&& private_pem == pem_text(PRIVATE_KEY_TAG@, private.der)
            &&& public_pem == pem_text(PUBLIC_KEY_TAG@, public.der)
            &&& private_key_outcome(private_pem) == Ok::<Key, KeyError>(private)
            &&& public_key_outcome(public_pem) == Ok::<Key, KeyError>(public)
            &&& public_key_outcome(private_pem) == Err::<Key, KeyError>(KeyError::PublicKey)
            &&& private_key_outcome(public_pem) == Err::<Key, KeyError>(KeyError::PrivateKey)
            &&& algorithm is Rsa ==> rsa_modulus_bits(public.der) == Some(RSA_BITS as nat)
        }
}

/// Makes a new pair of keys. Which one is up to chance. There always is one for
/// Ed25519. For RSA there is none where the two numbers that were taken for primes
/// have a factor in common, which shows when the private key is exported.
pub fn generate_key_pair(algorithm: Algorithm) -> (pair: Result<KeyPair, KeyPairError>)
    ensures
        algorithm is Ed25519 ==> pair is Ok,
        pair matches Err(e) ==> algorithm is Rsa && e == KeyPairError::PrivateExport,
        pair matches Ok(p) ==> are_key_files(algorithm, p.private_pem@, p.public_pem@),
{
    let der = match algorithm {
        Algorithm::Ed25519 => ed25519_generate(),
        Algorithm::Rsa => rsa_generate(RSA_BITS),
    };
    match der {
        Ok(der) => {
            let private = PrivateKey { algorithm, der };
            let pair = key_pair_of(&private);
            proof {
                if public_of(private@) is Some {
                    let public = Key { algorithm, der: public_of(private@)->Some_0 };
                    assert(is_pair(private@, public));
                }
            }
            pair
        },
        Err(e) => Err(e),
    }
}

/// Signs a message.
pub(crate) fn sign_message(key: &PrivateKey, message: &[u8]) -> (signature: Option<Vec<u8>>)
    ensures
        match signature {
            Some(bytes) => signature_of(key@, message@) == Some(bytes@) && forall|public: Key| #[trigger]
                is_pair(key@, public) ==> accepts(public, message@, bytes@) && signature_length(public) == Some(
                    bytes@.len(),
                ),
            None => signature_of(key@, message@) is None && !is_ed25519_key(key@),
        },
{
    match key.algorithm {
        Algorithm::Ed25519 => ed25519_sign(key.der.as_slice(), message),
        Algorithm::Rsa => rsa_sign(key.der.as_slice(), message),
    }
}

/// Checks the signature of a message, and says nothing where the signature has a
/// length that the key's signatures cannot have.
pub(crate) fn check_signature(key: &PublicKey, message: &[u8], signature: &[u8]) -> (accepted: Option<bool>)
    ensures
        accepted == (if signature_length(key@) == Some(signature@.len()) {
            Some(accepts(key@, message@, signature@))
        } else {
            None
        }),
{
    match key.algorithm {
        Algorithm::Ed25519 => if signature.len() == ED25519_SIGNATURE_LENGTH {
            Some(ed25519_verify(key.der.as_slice(), message, signature))
        } else {
            None
        },
        Algorithm::Rsa => match rsa_modulus_length(key.der.as_slice()) {
            Some(bits) => {
                let length: usize = if bits % 8 == 0 {
                    bits / 8
                } else {
                    bits / 8 + 1
                };
                if signature.len() == length {
                    rsa_verify(key.der.as_slice(), message, signature)
                } else {
                    None
                }
            },
            None => None,
        },
    }
}

} // verus!
