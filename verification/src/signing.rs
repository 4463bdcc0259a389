//! Signing documents and verifying signed ones.

use vstd::prelude::*;

use crate::base64url::{base64url, base64url_bytes, decode_base64url, encode_base64url, lemma_base64url_round_trip};
use crate::canonical::{CanonicalizeError, SIGNATURE_FIELD, SIG_FIELD, canonicalize, safe_integers, signed_bytes, signed_part};
use crate::document::{MAX_NESTING, ParseError, ParseFailure, nests_within, parse_json_object, parse_outcome, pretty_text, render_json_object};
use crate::json::{Json, JsonObject, Members, Shape, members_of, object_get, object_get_mut, object_value, shape_of, text_value, value_as_object_mut};
use crate::keys::{Algorithm, Key, KeyError, PrivateKey, PublicKey, accepts, check_signature, is_ed25519_key, is_pair, load_private_key, load_public_key, private_key_outcome, public_key_outcome, sign_message, signature_length, signature_of};

verus! {

/// The member of the signature block that names the signature scheme.
pub const ALG_FIELD: &'static str = "alg";

/// The member of the signature block that names the key.
pub const KID_FIELD: &'static str = "kid";

/// The member of the signature block that says when the document was signed.
pub const SIGNED_AT_FIELD: &'static str = "signed_at";

/// Why a document could not be signed.
#[derive(Clone, Copy, Debug, PartialEq, Eq, Structural)]
pub enum EmbedError {
    /// The document has no canonical form.
    UnsafeInteger,
    /// The key does not sign.
    Signing,
}

/// Why a signed document could not be checked.
#[derive(Clone, Copy, Debug, PartialEq, Eq, Structural)]
pub enum VerifyError {
    /// There is no signature block, or it is not an object.
    NoSignatureBlock,
    /// The signature block has no signature, or it is not a string.
    NoSig,
    /// The signature is not base64.
    Base64,
    /// The document has no canonical form.
    UnsafeInteger,
    /// The signature has a length that signatures of the key cannot have.
    SignatureLength,
}

impl EmbedError {
    /// What to tell the user.
    pub open spec fn text(&self) -> Seq<char> {
        match self {
            EmbedError::UnsafeInteger => "Config holds an integer outside the JSON safe-integer range"@,
            EmbedError::Signing => "Failed to sign config"@,
        }
    }

    /// What to tell the user.
    pub fn message(&self) -> (message: &'static str)
        ensures
            message@ == self.text(),
    {
        match self {
            EmbedError::UnsafeInteger => "Config holds an integer outside the JSON safe-integer range",
            EmbedError::Signing => "Failed to sign config",
        }
    }
}

impl VerifyError {
    /// What to tell the user.
    pub open spec fn text(&self) -> Seq<char> {
        match self {
            VerifyError::NoSignatureBlock => "No '_signature' object found in config"@,
            VerifyError::NoSig => "Signature block missing 'sig' field"@,
            VerifyError::Base64 => "Failed to base64-decode signature"@,
            VerifyError::UnsafeInteger => "Config holds an integer outside the JSON safe-integer range"@,
            VerifyError::SignatureLength => "Invalid signature bytes"@,
        }
    }

    /// What to tell the user.
    pub fn message(&self) -> (message: &'static str)
        ensures
            message@ == self.text(),
    {
        match self {
            VerifyError::NoSignatureBlock => "No '_signature' object found in config",
            VerifyError::NoSig => "Signature block missing 'sig' field",
            VerifyError::Base64 => "Failed to base64-decode signature",
            VerifyError::UnsafeInteger => "Config holds an integer outside the JSON safe-integer range",
            VerifyError::SignatureLength => "Invalid signature bytes",
        }
    }
}

/// Why a text could not be signed.
#[derive(Debug)]
pub enum SignError {
    Parse(ParseError),
    Key(KeyError),
    Embed(EmbedError),
    Serialization,
}

/// Why a signed text could not be checked.
#[derive(Debug)]
pub enum LoadError {
    Parse(ParseError),
    Key(KeyError),
    Verify(VerifyError),
}

/// Why a text could not be signed.
pub enum SignFailure {
    Parse(ParseFailure),
    Key(KeyError),
    Embed(EmbedError),
    Serialization,
}

/// Why a signed text could not be checked.
pub enum LoadFailure {
    Parse(ParseFailure),
    Key(KeyError),
    Verify(VerifyError),
}

impl View for SignError {
    type V = SignFailure;

    open spec fn view(&self) -> SignFailure {
        match self {
            SignError::Parse(e) => SignFailure::Parse(e@),
            SignError::Key(e) => SignFailure::Key(*e),
            SignError::Embed(e) => SignFailure::Embed(*e),
            SignError::Serialization => SignFailure::Serialization,
        }
    }
}

impl View for LoadError {
    type V = LoadFailure;

    open spec fn view(&self) -> LoadFailure {
        match self {
            LoadError::Parse(e) => LoadFailure::Parse(e@),
            LoadError::Key(e) => LoadFailure::Key(*e),
            LoadError::Verify(e) => LoadFailure::Verify(*e),
        }
    }
}

impl SignError {
    /// What to tell the user.
    pub open spec fn text(&self) -> Seq<char> {
        match self {
            SignError::Parse(e) => e.text(),
            SignError::Key(e) => e.text(),
            SignError::Embed(e) => e.text(),
            SignError::Serialization => "Serialization failed"@,
        }
    }

    /// What to tell the user.
    pub fn message(&self) -> (message: &'static str)
        ensures
            message@ == self.text(),
    {
        match self {
            SignError::Parse(e) => e.message(),
            SignError::Key(e) => e.message(),
            SignError::Embed(e) => e.message(),
            SignError::Serialization => "Serialization failed",
        }
    }
}

impl LoadError {
    /// What to tell the user.
    pub open spec fn text(&self) -> Seq<char> {
        match self {
            LoadError::Parse(e) => e.text(),
            LoadError::Key(e) => e.text(),
            LoadError::Verify(e) => e.text(),
        }
    }

    /// What to tell the user.
    pub fn message(&self) -> (message: &'static str)
        ensures
            message@ == self.text(),
    {
        match self {
            LoadError::Parse(e) => e.message(),
            LoadError::Key(e) => e.message(),
            LoadError::Verify(e) => e.message(),
        }
    }
}

/// The name of a signature scheme in a signature block.
pub open spec fn alg_name(algorithm: Algorithm) -> Seq<char> {
    match algorithm {
        Algorithm::Ed25519 => "EdDSA"@,
        Algorithm::Rsa => "RS256"@,
    }
}

/// A signature block without its signature.
pub open spec fn metadata(algorithm: Algorithm, key_id: Seq<char>, signed_at: Seq<char>) -> Members {
    Members::empty().insert(ALG_FIELD@, Json::Text(alg_name(algorithm))).insert(KID_FIELD@, Json::Text(key_id)).insert(
        SIGNED_AT_FIELD@,
        Json::Text(signed_at),
    )
}

/// The document with a signature block that has no signature yet, in place of
/// any that it had.
pub open spec fn prepared(
    members: Members,
    algorithm: Algorithm,
    key_id: Seq<char>,
    signed_at: Seq<char>,
) -> Members {
    members.insert(SIGNATURE_FIELD@, Json::Object(metadata(algorithm, key_id, signed_at)))
}

/// The document has a signature block.
pub open spec fn has_block(members: Members) -> bool {
    members.contains_key(SIGNATURE_FIELD@) && members[SIGNATURE_FIELD@] is Object
}

/// The fields of the signature block.
pub open spec fn block_of(members: Members) -> Members {
    members[SIGNATURE_FIELD@]->Object_0
}

/// The document with another `sig` in its signature block.
pub open spec fn with_sig(members: Members, sig: Json) -> Members {
    members.insert(SIGNATURE_FIELD@, Json::Object(block_of(members).insert(SIG_FIELD@, sig)))
}

/// The document with a complete signature block, in place of any that it had.
pub open spec fn signed(
    members: Members,
    algorithm: Algorithm,
    key_id: Seq<char>,
    signed_at: Seq<char>,
    signature: Seq<u8>,
) -> Members {
    with_sig(prepared(members, algorithm, key_id, signed_at), Json::Text(base64url(signature)))
}

/// What signing a document comes to.
pub open spec fn embed_outcome(
    members: Members,
    key: Key,
    key_id: Seq<char>,
    signed_at: Seq<char>,
) -> Result<Members, EmbedError> {
    let document = prepared(members, key.algorithm, key_id, signed_at);
    if !safe_integers(Json::Object(document)) {
        Err(EmbedError::UnsafeInteger)
    } else {
        match signature_of(key, signed_bytes(document)) {
            Some(signature) => Ok(signed(members, key.algorithm, key_id, signed_at, signature)),
            None => Err(EmbedError::Signing),
        }
    }
}

/// What reading the signature out of a document comes to.
pub open spec fn embedded_outcome(members: Members) -> Result<Seq<u8>, VerifyError> {
    if !has_block(members) {
        Err(VerifyError::NoSignatureBlock)
    } else if !block_of(members).contains_key(SIG_FIELD@) || block_of(members)[SIG_FIELD@] !is Text {
        Err(VerifyError::NoSig)
    } else {
        match base64url_bytes(block_of(members)[SIG_FIELD@]->Text_0) {
            None => Err(VerifyError::Base64),
            Some(signature) => Ok(signature),
        }
    }
}

/// What verifying a document comes to.
pub open spec fn verify_outcome(members: Members, key: Key) -> Result<bool, VerifyError> {
    match embedded_outcome(members) {
        Err(e) => Err(e),
        Ok(signature) => if !safe_integers(Json::Object(signed_part(members))) {
            Err(VerifyError::UnsafeInteger)
        } else if signature_length(key) != Some(signature.len()) {
            Err(VerifyError::SignatureLength)
        } else {
            Ok(accepts(key, signed_bytes(members), signature))
        },
    }
}

/// No two members of a signature block have the same name.
pub proof fn lemma_fields_differ()
    ensures
        SIG_FIELD@ != ALG_FIELD@,
        SIG_FIELD@ != KID_FIELD@,
        SIG_FIELD@ != SIGNED_AT_FIELD@,
        ALG_FIELD@ != KID_FIELD@,
        ALG_FIELD@ != SIGNED_AT_FIELD@,
        KID_FIELD@ != SIGNED_AT_FIELD@,
{
    reveal_strlit("sig");
    reveal_strlit("alg");
    reveal_strlit("kid");
    reveal_strlit("signed_at");
    assert(SIG_FIELD@[0] == 's');
    assert(ALG_FIELD@[0] == 'a');
    assert(KID_FIELD@[0] == 'k');
    assert(SIGNED_AT_FIELD@[0] == 's');
    assert(SIG_FIELD@.len() == 3);
    assert(SIGNED_AT_FIELD@.len() == 9);
}

/// What a signature covers does not change when it is put into its block.
pub proof fn lemma_signed_part_of_signed(
    members: Members,
    algorithm: Algorithm,
    key_id: Seq<char>,
    signed_at: Seq<char>,
    signature: Seq<u8>,
)
    ensures
        signed_part(prepared(members, algorithm, key_id, signed_at)) == prepared(
            members,
            algorithm,
            key_id,
            signed_at,
        ),
        signed_part(signed(members, algorithm, key_id, signed_at, signature)) == prepared(
            members,
            algorithm,
            key_id,
            signed_at,
        ),
{
    lemma_fields_differ();
    let block = metadata(algorithm, key_id, signed_at);
    let full = block.insert(SIG_FIELD@, Json::Text(base64url(signature)));
    assert(block.remove(SIG_FIELD@) =~= block);
    assert(full.remove(SIG_FIELD@) =~= block);
    assert(signed_part(prepared(members, algorithm, key_id, signed_at)) =~= prepared(
        members,
        algorithm,
        key_id,
        signed_at,
    ));
    assert(signed_part(signed(members, algorithm, key_id, signed_at, signature)) =~= prepared(
        members,
        algorithm,
        key_id,
        signed_at,
    ));
}

/// The name of a signature scheme in a signature block.
fn alg_text(algorithm: Algorithm) -> (name: String)
    ensures
        name@ == alg_name(algorithm),
{
    match algorithm {
        Algorithm::Ed25519 => "EdDSA".to_owned(),
        Algorithm::Rsa => "RS256".to_owned(),
    }
}

/// A signature block without its signature.
fn metadata_block(algorithm: Algorithm, key_id: &str, signed_at: &str) -> (block: JsonObject)
    ensures
        members_of(block) == metadata(algorithm, key_id@, signed_at@),
{
    let mut block = serde_json::Map::new();
    let _ = block.insert(ALG_FIELD.to_owned(), text_value(alg_text(algorithm)));
    let _ = block.insert(KID_FIELD.to_owned(), text_value(key_id.to_owned()));
    let _ = block.insert(SIGNED_AT_FIELD.to_owned(), text_value(signed_at.to_owned()));
    block
}

/// Gives the document a signature block that has no signature yet, in place of
/// any that it had.
pub fn prepare_document(json: &mut JsonObject, algorithm: Algorithm, key_id: &str, signed_at: &str)
    ensures
        members_of(*final(json)) == prepared(members_of(*old(json)), algorithm, key_id@, signed_at@),
{
    let block = metadata_block(algorithm, key_id, signed_at);
    let _ = json.insert(SIGNATURE_FIELD.to_owned(), object_value(block));
}

/// Puts a signature into the signature block of the document, if it has one.
pub fn attach_signature(json: &mut JsonObject, signature: &[u8])
    ensures
        members_of(*final(json)) == (if has_block(members_of(*old(json))) {
            with_sig(members_of(*old(json)), Json::Text(base64url(signature@)))
        } else {
            members_of(*old(json))
        }),
{
    let text = encode_base64url(signature);
    if let Some(value) = object_get_mut(json, SIGNATURE_FIELD) {
        if let Some(fields) = value_as_object_mut(value) {
            let _ = fields.insert(SIG_FIELD.to_owned(), text_value(text));
        }
    }
}

/// The signature in the signature block of the document.
pub fn embedded_signature(json: &JsonObject) -> (signature: Result<Vec<u8>, VerifyError>)
    ensures
        match signature {
            Ok(bytes) => embedded_outcome(members_of(*json)) == Ok::<Seq<u8>, VerifyError>(bytes@),
            Err(e) => embedded_outcome(members_of(*json)) == Err::<Seq<u8>, VerifyError>(e),
        },
{
    let block = match object_get(json, SIGNATURE_FIELD) {
        Some(value) => match shape_of(value) {
            Shape::Object(block) => block,
            _ => {
                return Err(VerifyError::NoSignatureBlock);
            },
        },
        None => {
            return Err(VerifyError::NoSignatureBlock);
        },
    };
    let text = match object_get(block, SIG_FIELD) {
        Some(value) => match shape_of(value) {
            Shape::Text(text) => text,
            _ => {
                return Err(VerifyError::NoSig);
            },
        },
        None => {
            return Err(VerifyError::NoSig);
        },
    };
    match decode_base64url(text.as_str()) {
        Ok(signature) => {
            proof {
                lemma_base64url_round_trip(signature@);
            }
            Ok(signature)
        },
        Err(_) => Err(VerifyError::Base64),
    }
}

/// Signs the canonical form of the document and gives it the signature block, in
/// place of any that it had. The metadata goes in before signing, so that the
/// signature covers it; only `sig` itself is not covered.
pub fn embed_signature(
    json: &mut JsonObject,
    private_key: PrivateKey,
    key_id: &str,
    signed_at: &str,
) -> (done: Result<(), EmbedError>)
    ensures
        match done {
            Ok(_) => embed_outcome(members_of(*old(json)), private_key@, key_id@, signed_at@) == Ok::<
                Members,
                EmbedError,
            >(members_of(*final(json))),
            Err(e) => embed_outcome(members_of(*old(json)), private_key@, key_id@, signed_at@) == Err::<
                Members,
                EmbedError,
            >(e) && members_of(*final(json)) == prepared(
                members_of(*old(json)),
                private_key@.algorithm,
                key_id@,
                signed_at@,
            ),
        },
        is_ed25519_key(private_key@) ==> done != Err::<(), EmbedError>(EmbedError::Signing),
        done is Ok ==> forall|public: Key| #[trigger]
            is_pair(private_key@, public) ==> verify_outcome(members_of(*final(json)), public) == Ok::<
                bool,
                VerifyError,
            >(true),
{
    let ghost before = members_of(*json);
    let algorithm = private_key.algorithm;
    prepare_document(json, algorithm, key_id, signed_at);
    proof {
        lemma_signed_part_of_signed(before, algorithm, key_id@, signed_at@, Seq::empty());
    }
    let payload = match canonicalize(json) {
        Ok(payload) => payload,
        Err(CanonicalizeError::UnsafeInteger) => {
            return Err(EmbedError::UnsafeInteger);
        },
    };
    let signature = match sign_message(&private_key, payload.as_slice()) {
        Some(signature) => signature,
        None => {
            return Err(EmbedError::Signing);
        },
    };
    attach_signature(json, signature.as_slice());
    proof {
        lemma_signed_part_of_signed(before, algorithm, key_id@, signed_at@, signature@);
        lemma_base64url_round_trip(signature@);
    }
    Ok(())
}

/// Checks the embedded signature against the canonical form of the document.
///
/// `Ok(false)` is for a signature that does not match. A document whose
/// signature cannot be checked at all is an error.
pub fn verify_json(json: &JsonObject, public_key: PublicKey) -> (valid: Result<bool, VerifyError>)
    ensures
        valid == verify_outcome(members_of(*json), public_key@),
{
    let signature = match embedded_signature(json) {
        Ok(signature) => signature,
        Err(e) => {
            return Err(e);
        },
    };
    let payload = match canonicalize(json) {
        Ok(payload) => payload,
        Err(CanonicalizeError::UnsafeInteger) => {
            return Err(VerifyError::UnsafeInteger);
        },
    };
    match check_signature(&public_key, payload.as_slice(), signature.as_slice()) {
        Some(valid) => Ok(valid),
        None => Err(VerifyError::SignatureLength),
    }
}

/// What signing a text comes to: the members of the signed document.
pub open spec fn sign_outcome(
    raw: Seq<char>,
    private_pem: Seq<char>,
    key_id: Seq<char>,
    signed_at: Seq<char>,
) -> Result<Members, SignFailure> {
    match parse_outcome(raw) {
        Err(e) => Err(SignFailure::Parse(e)),
        Ok(members) => match private_key_outcome(private_pem) {
            Err(e) => Err(SignFailure::Key(e)),
            Ok(key) => match embed_outcome(members, key, key_id, signed_at) {
                Err(e) => Err(SignFailure::Embed(e)),
                Ok(signed_members) => Ok(signed_members),
            },
        },
    }
}

/// What verifying a text comes to.
pub open spec fn load_outcome(raw: Seq<char>, public_pem: Seq<char>) -> Result<bool, LoadFailure> {
    match parse_outcome(raw) {
        Err(e) => Err(LoadFailure::Parse(e)),
        Ok(members) => match public_key_outcome(public_pem) {
            Err(e) => Err(LoadFailure::Key(e)),
            Ok(key) => match verify_outcome(members, key) {
                Err(e) => Err(LoadFailure::Verify(e)),
                Ok(valid) => Ok(valid),
            },
        },
    }
}

/// The public key file goes with the private key file: both hold keys, and these
/// are a pair.
pub open spec fn key_files_match(private_pem: Seq<char>, public_pem: Seq<char>) -> bool {
    match (private_key_outcome(private_pem), public_key_outcome(public_pem)) {
        (Ok(private), Ok(public)) => is_pair(private, public),
        _ => false,
    }
}

/// A signed document nests no deeper than it may.
proof fn lemma_signed_nests(
    members: Members,
    algorithm: Algorithm,
    key_id: Seq<char>,
    signed_at: Seq<char>,
    signature: Seq<u8>,
)
    requires
        nests_within(Json::Object(members), MAX_NESTING as nat),
    ensures
        nests_within(
            Json::Object(signed(members, algorithm, key_id, signed_at, signature)),
            MAX_NESTING as nat,
        ),
{
    let after = signed(members, algorithm, key_id, signed_at, signature);
    let depth = (MAX_NESTING as nat - 1) as nat;
    let before = Json::Object(members);
    let block = after[SIGNATURE_FIELD@]->Object_0;
    assert forall|key: Seq<char>| #[trigger] block.contains_key(key) implies nests_within(
        block[key],
        (depth - 1) as nat,
    ) by {
        assert(block[key] is Text);
    }
    assert forall|key: Seq<char>| #[trigger] after.contains_key(key) implies nests_within(
        after[key],
        depth,
    ) by {
        if key == SIGNATURE_FIELD@ {
            assert(nests_within(Json::Object(block), depth));
        } else {
            assert(before->Object_0.contains_key(key));
            assert(nests_within(before->Object_0[key], depth));
        }
    }
}

/// Signs the text of a document, with the private key that is in the PEM text.
/// The signed text verifies with the public key of the pair.
pub fn sign_json(raw: &str, private_pem: &str, key_id: &str, signed_at: &str) -> (output: Result<
    String,
    SignError,
>)
    ensures
        match output {
            Ok(text) => {
                &&& sign_outcome(raw@, private_pem@, key_id@, signed_at@) is Ok
                &&& text@ == pretty_text(sign_outcome(raw@, private_pem@, key_id@, signed_at@)->Ok_0)
                &&& parse_outcome(text@) == Ok::<Members, ParseFailure>(
                    sign_outcome(raw@, private_pem@, key_id@, signed_at@)->Ok_0,
                )
            },
            Err(e) => sign_outcome(raw@, private_pem@, key_id@, signed_at@) == Err::<Members, SignFailure>(e@),
        },
        output matches Err(SignError::Embed(EmbedError::Signing)) ==> !is_ed25519_key(
            private_key_outcome(private_pem@)->Ok_0,
        ),
        output matches Ok(text) ==> forall|public_pem: Seq<char>| #[trigger]
            key_files_match(private_pem@, public_pem) ==> load_outcome(text@, public_pem) == Ok::<
                bool,
                LoadFailure,
            >(true),
{
    let mut json = match parse_json_object(raw) {
        Ok(json) => json,
        Err(e) => {
            return Err(SignError::Parse(e));
        },
    };
    let private_key = match load_private_key(private_pem) {
        Ok(key) => key,
        Err(e) => {
            return Err(SignError::Key(e));
        },
    };
    let ghost members = members_of(json);
    let ghost key = private_key@;
    match embed_signature(&mut json, private_key, key_id, signed_at) {
        Ok(_) => {},
        Err(e) => {
            return Err(SignError::Embed(e));
        },
    }
    proof {
        let document = prepared(members, key.algorithm, key_id@, signed_at@);
        lemma_signed_nests(
            members,
            key.algorithm,
            key_id@,
            signed_at@,
            signature_of(key, signed_bytes(document))->Some_0,
        );
    }
    match render_json_object(json) {
        Ok(text) => Ok(text),
        Err(_) => Err(SignError::Serialization),
    }
}

/// Verifies the signature in the text of a document, with the public key that is
/// in the PEM text.
pub fn load_and_verify_json(raw: &str, public_pem: &str) -> (valid: Result<bool, LoadError>)
    ensures
        match valid {
            Ok(b) => load_outcome(raw@, public_pem@) == Ok::<bool, LoadFailure>(b),
            Err(e) => load_outcome(raw@, public_pem@) == Err::<bool, LoadFailure>(e@),
        },
{
    let json = match parse_json_object(raw) {
        Ok(json) => json,
        Err(e) => {
            return Err(LoadError::Parse(e));
        },
    };
    let public_key = match load_public_key(public_pem) {
        Ok(key) => key,
        Err(e) => {
            return Err(LoadError::Key(e));
        },
    };
    match verify_json(&json, public_key) {
        Ok(valid) => Ok(valid),
        Err(e) => Err(LoadError::Verify(e)),
    }
}

/// How the program ends after it has checked a signature: with 0 where the
/// signature is valid, with 1 where it is not or could not be checked.
pub fn exit_code(valid: &Result<bool, LoadError>) -> (code: u8)
    ensures
        code == (if valid matches Ok(true) {
            0u8
        } else {
            1u8
        }),
{
    match valid {
        Ok(true) => 0,
        _ => 1,
    }
}

} // verus!
