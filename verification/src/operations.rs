//! What each operation does, said of its inputs and its result alone: in terms of
//! the fields of a document, of what occurs in it, and of what the two signature
//! schemes and the canonical form are.

use vstd::prelude::*;
use vstd::utf8::encode_utf8;

use crate::base64url::{base64url, base64url_bytes, lemma_base64url_injective, lemma_base64url_round_trip};
use crate::canonical::{canonical_text, safe_integers, signed_bytes, signed_part};
use crate::crypto::{ed25519_accepts, ed25519_public_of, ed25519_signature, is_ed25519_private, is_ed25519_public, is_rsa_private, is_rsa_public, rsa_accepts, rsa_modulus_bits, rsa_public_of, rsa_signature};
use crate::document::{MAX_NESTING, ParseError, ParseFailure, parse_outcome, parsed_object, refusal};
use crate::files::{GenerateError, KeyFiles, Siblings, WriteStep, are_new_key_files, is_run, lemma_write_is_atomic, step_after};
use crate::json::{Json, JsonNumber, Members};
use crate::keys::{Algorithm, Key, KeyError, KeyPairError, PRIVATE_KEY_TAG, PUBLIC_KEY_TAG, PrivateKey, PublicKey, RSA_BITS, are_key_files, is_ed25519_key, is_pair, pem_contents, pem_text, private_key_outcome, public_key_outcome, public_of};
use crate::outline::{Tree, first_members, first_repeat, lemma_first_members, tree_json, tree_nests, tree_of};
use crate::places::{all_keys_differ, is_first_repeated, lemma_first_repeat_is_first};
use crate::signing::{EmbedError, LoadError, LoadFailure, SignError, SignFailure, VerifyError, embed_outcome, embedded_outcome, has_block, key_files_match, lemma_fields_differ, lemma_signed_part_of_signed, load_outcome, prepared, sign_outcome, signed, verify_outcome, with_sig};

verus! {

/// The value is somewhere in the other one, or is the other one.
pub open spec fn occurs(part: Json, whole: Json) -> bool
    decreases whole,
{
    ||| part == whole
    ||| match whole {
        Json::Array(elements) => exists|i: int| 0 <= i < elements.len() && occurs(part, #[trigger] elements[i]),
        Json::Object(members) => exists|key: Seq<char>| #[trigger]
            members.contains_key(key) && occurs(part, members[key]),
        _ => false,
    }
}

/// Every integer that occurs in the value is one that every JSON reader holds
/// exactly.
pub open spec fn holds_exact_integers(json: Json) -> bool {
    forall|i: int| #[trigger]
        occurs(Json::Number(JsonNumber::Integer(i)), json) ==> -9007199254740991 <= i <= 9007199254740991
}

/// The document has this signature block, and in it this signature.
pub open spec fn carries(members: Members, block: Members, signature: Seq<u8>) -> bool {
    &&& members.contains_key("_signature"@)
    &&& members["_signature"@] == Json::Object(block)
    &&& block.contains_key("sig"@)
    &&& block["sig"@] == Json::Text(base64url(signature))
}

/// The document with this signature block, but for the signature in it.
pub open spec fn without_signature(members: Members, block: Members) -> Members {
    members.insert("_signature"@, Json::Object(block.remove("sig"@)))
}

/// The bytes of the canonical text of a document.
pub open spec fn canonical_bytes(members: Members) -> Seq<u8> {
    encode_utf8(canonical_text(members))
}

/// The signature has the length that the signatures of the key have.
pub open spec fn has_right_length(key: Key, signature: Seq<u8>) -> bool {
    match key.algorithm {
        Algorithm::Ed25519 => signature.len() == 64,
        Algorithm::Rsa => match rsa_modulus_bits(key.der) {
            Some(bits) => bits <= 8 * signature.len() < bits + 8,
            None => false,
        },
    }
}

/// What the scheme of the key says of a signature of the message.
pub open spec fn scheme_accepts(key: Key, message: Seq<u8>, signature: Seq<u8>) -> bool {
    match key.algorithm {
        Algorithm::Ed25519 => ed25519_accepts(key.der, message, signature),
        Algorithm::Rsa => rsa_accepts(key.der, message, signature),
    }
}

/// The signature that the scheme of the key makes of the message.
pub open spec fn scheme_signature(key: Key, message: Seq<u8>) -> Option<Seq<u8>> {
    match key.algorithm {
        Algorithm::Ed25519 => ed25519_signature(key.der, message),
        Algorithm::Rsa => rsa_signature(key.der, message),
    }
}

/// Nothing but integers out of range is refused: a value has a canonical form
/// exactly where every integer that occurs in it is in range, whatever else does.
pub proof fn law_only_integers_out_of_range_are_refused(json: Json)
    ensures
        safe_integers(json) <==> holds_exact_integers(json),
    decreases json,
{
    match json {
        Json::Array(elements) => {
            assert forall|i: int| 0 <= i < elements.len() implies (safe_integers(#[trigger] elements[i])
                <==> holds_exact_integers(elements[i])) by {
                law_only_integers_out_of_range_are_refused(elements[i]);
            }
            if safe_integers(json) {
                assert forall|n: int| #[trigger] occurs(Json::Number(JsonNumber::Integer(n)), json) implies
                    -9007199254740991 <= n <= 9007199254740991 by {
                    let i = choose|i: int|
                        0 <= i < elements.len() && occurs(
                            Json::Number(JsonNumber::Integer(n)),
                            #[trigger] elements[i],
                        );
                    assert(safe_integers(elements[i]));
                }
            } else {
                let i = choose|i: int| 0 <= i < elements.len() && !safe_integers(#[trigger] elements[i]);
                let n = choose|n: int| #[trigger]
                    occurs(Json::Number(JsonNumber::Integer(n)), elements[i]) && !(-9007199254740991 <= n
                        <= 9007199254740991);
                assert(occurs(Json::Number(JsonNumber::Integer(n)), json->Array_0[i]));
                assert(occurs(Json::Number(JsonNumber::Integer(n)), json));
            }
        },
        Json::Object(members) => {
            assert forall|key: Seq<char>| #[trigger] members.contains_key(key) implies (safe_integers(members[key])
                <==> holds_exact_integers(members[key])) by {
                law_only_integers_out_of_range_are_refused(members[key]);
            }
            if safe_integers(json) {
                assert forall|n: int| #[trigger] occurs(Json::Number(JsonNumber::Integer(n)), json) implies
                    -9007199254740991 <= n <= 9007199254740991 by {
                    let key = choose|key: Seq<char>| #[trigger]
                        json->Object_0.contains_key(key) && occurs(
                            Json::Number(JsonNumber::Integer(n)),
                            json->Object_0[key],
                        );
                    assert(members.contains_key(key));
                }
            } else {
                let key = choose|key: Seq<char>| #[trigger]
                    json->Object_0.contains_key(key) && !safe_integers(json->Object_0[key]);
                assert(members.contains_key(key));
                let n = choose|n: int| #[trigger]
                    occurs(Json::Number(JsonNumber::Integer(n)), members[key]) && !(-9007199254740991 <= n
                        <= 9007199254740991);
                assert(json->Object_0.contains_key(key));
                assert(occurs(Json::Number(JsonNumber::Integer(n)), json));
            }
        },
        Json::Number(JsonNumber::Integer(i)) => {
            assert(occurs(Json::Number(JsonNumber::Integer(i)), json));
        },
        _ => {},
    }
}

/// What is signed, and what is checked, is the canonical text of the whole document
/// but for the signature in its block; and there are such bytes exactly where the
/// integers in that part are in range.
pub proof fn law_canonical_bytes(members: Members)
    ensures
        forall|block: Members| #![trigger without_signature(members, block)]
            members.contains_key("_signature"@) && members["_signature"@] == Json::Object(block) ==> {
                &&& signed_part(members) == without_signature(members, block)
                &&& signed_bytes(members) == canonical_bytes(without_signature(members, block))
                &&& safe_integers(Json::Object(signed_part(members))) <==> holds_exact_integers(
                    Json::Object(without_signature(members, block)),
                )
            },
        !members.contains_key("_signature"@) || members["_signature"@] !is Object ==> {
            &&& signed_part(members) == members
            &&& signed_bytes(members) == canonical_bytes(members)
            &&& safe_integers(Json::Object(signed_part(members))) <==> holds_exact_integers(Json::Object(members))
        },
{
    law_only_integers_out_of_range_are_refused(Json::Object(signed_part(members)));
}

/// Verifying says whether the scheme of the key accepts the signature in the
/// document for everything else in it. There is an answer exactly where the
/// document carries a signature of the right length and its integers are in range;
/// each error says which of these does not hold.
pub proof fn law_verify(members: Members, key: Key)
    ensures
        match verify_outcome(members, key) {
            Ok(valid) => exists|block: Members, signature: Seq<u8>| #[trigger]
                carries(members, block, signature) && has_right_length(key, signature) && holds_exact_integers(
                    Json::Object(without_signature(members, block)),
                ) && valid == scheme_accepts(
                    key,
                    canonical_bytes(without_signature(members, block)),
                    signature,
                ),
            Err(VerifyError::NoSignatureBlock) => !members.contains_key("_signature"@)
                || members["_signature"@] !is Object,
            Err(VerifyError::NoSig) => members.contains_key("_signature"@) && match members["_signature"@] {
                Json::Object(block) => !block.contains_key("sig"@) || block["sig"@] !is Text,
                _ => false,
            },
            Err(VerifyError::Base64) => members.contains_key("_signature"@) && match members["_signature"@] {
                Json::Object(block) => block.contains_key("sig"@) && match block["sig"@] {
                    Json::Text(text) => forall|bytes: Seq<u8>| #[trigger] base64url(bytes) != text,
                    _ => false,
                },
                _ => false,
            },
            Err(VerifyError::UnsafeInteger) => exists|block: Members, signature: Seq<u8>| #[trigger]
                carries(members, block, signature) && !holds_exact_integers(
                    Json::Object(without_signature(members, block)),
                ),
            Err(VerifyError::SignatureLength) => exists|block: Members, signature: Seq<u8>| #[trigger]
                carries(members, block, signature) && !has_right_length(key, signature) && holds_exact_integers(
                    Json::Object(without_signature(members, block)),
                ),
        },
{
    law_canonical_bytes(members);
    if members.contains_key("_signature"@) && members["_signature"@] is Object {
        let block = members["_signature"@]->Object_0;
        let stripped = without_signature(members, block);
        if block.contains_key("sig"@) && block["sig"@] is Text {
            let text = block["sig"@]->Text_0;
            if base64url_bytes(text) is Some {
                let signature = base64url_bytes(text)->Some_0;
                assert(carries(members, block, signature));
            }
        }
    }
}

/// Any two documents that carry the same block carry the same signature: the bytes
/// that a text stands for are the only ones.
pub proof fn law_one_signature(members: Members, block: Members, a: Seq<u8>, b: Seq<u8>)
    requires
        carries(members, block, a),
        carries(members, block, b),
    ensures
        a == b,
{
    lemma_base64url_injective(a, b);
}

/// The fields are those of a fresh signature block without its signature: the scheme
/// of the key, the name that was given for it, and the time.
pub open spec fn is_fresh(fields: Members, key: Key, key_id: Seq<char>, signed_at: Seq<char>) -> bool {
    &&& fields.dom() == set!["alg"@, "kid"@, "signed_at"@]
    &&& fields["alg"@] == Json::Text(
        match key.algorithm {
            Algorithm::Ed25519 => "EdDSA"@,
            Algorithm::Rsa => "RS256"@,
        },
    )
    &&& fields["kid"@] == Json::Text(key_id)
    &&& fields["signed_at"@] == Json::Text(signed_at)
}

/// The second document is the first one with a fresh signature block in place of
/// any that it had, and in the block is the signature that the scheme of the key
/// makes of all the rest.
pub open spec fn is_signed_form(
    before: Members,
    after: Members,
    key: Key,
    key_id: Seq<char>,
    signed_at: Seq<char>,
) -> bool {
    &&& after.remove("_signature"@) == before.remove("_signature"@)
    &&& holds_exact_integers(Json::Object(before.remove("_signature"@)))
    &&& exists|block: Members, signature: Seq<u8>| #[trigger]
        carries(after, block, signature) && is_fresh(block.remove("sig"@), key, key_id, signed_at)
            && scheme_signature(key, canonical_bytes(without_signature(after, block))) == Some(signature)
}

/// The document cannot be signed, and this is why: an integer outside its signature
/// block is out of range, or the scheme makes no signature with the key.
pub open spec fn is_unsignable(
    before: Members,
    key: Key,
    key_id: Seq<char>,
    signed_at: Seq<char>,
    why: EmbedError,
) -> bool {
    match why {
        EmbedError::UnsafeInteger => !holds_exact_integers(Json::Object(before.remove("_signature"@))),
        EmbedError::Signing => holds_exact_integers(Json::Object(before.remove("_signature"@)))
            && exists|fields: Members| #[trigger]
                is_fresh(fields, key, key_id, signed_at) && scheme_signature(
                    key,
                    canonical_bytes(before.insert("_signature"@, Json::Object(fields))),
                ) is None,
    }
}

proof fn lemma_texts_hold_no_integers(fields: Members, n: int)
    requires
        forall|key: Seq<char>| #[trigger] fields.contains_key(key) ==> fields[key] is Text,
    ensures
        !occurs(Json::Number(JsonNumber::Integer(n)), Json::Object(fields)),
{
    let whole = Json::Object(fields);
    assert forall|key: Seq<char>| #[trigger] whole->Object_0.contains_key(key) implies !occurs(
        Json::Number(JsonNumber::Integer(n)),
        whole->Object_0[key],
    ) by {
        assert(fields.contains_key(key));
    }
}

/// Texts in the signature block do not matter to which integers occur.
proof fn lemma_integers_outside_block(members: Members, fields: Members)
    requires
        forall|key: Seq<char>| #[trigger] fields.contains_key(key) ==> fields[key] is Text,
    ensures
        holds_exact_integers(Json::Object(members.insert("_signature"@, Json::Object(fields))))
            <==> holds_exact_integers(Json::Object(members.remove("_signature"@))),
{
    let with = Json::Object(members.insert("_signature"@, Json::Object(fields)));
    let without = Json::Object(members.remove("_signature"@));
    assert forall|n: int|
        #![trigger occurs(Json::Number(JsonNumber::Integer(n)), with)]
        #![trigger occurs(Json::Number(JsonNumber::Integer(n)), without)]
        occurs(Json::Number(JsonNumber::Integer(n)), with) <==> occurs(
            Json::Number(JsonNumber::Integer(n)),
            without,
        ) by {
        let part = Json::Number(JsonNumber::Integer(n));
        lemma_texts_hold_no_integers(fields, n);
        if occurs(part, with) {
            let key = choose|key: Seq<char>| #[trigger]
                with->Object_0.contains_key(key) && occurs(part, with->Object_0[key]);
            assert(without->Object_0.contains_key(key));
        }
        if occurs(part, without) {
            let key = choose|key: Seq<char>| #[trigger]
                without->Object_0.contains_key(key) && occurs(part, without->Object_0[key]);
            assert(with->Object_0.contains_key(key));
        }
    }
}

/// Preparing a document gives it a fresh block in place of any that it had, and
/// leaves the rest as it is.
pub proof fn law_prepare(members: Members, key: Key, key_id: Seq<char>, signed_at: Seq<char>)
    ensures
        prepared(members, key.algorithm, key_id, signed_at).remove("_signature"@) == members.remove("_signature"@),
        exists|fields: Members| #[trigger]
            is_fresh(fields, key, key_id, signed_at) && prepared(members, key.algorithm, key_id, signed_at)
                == members.insert("_signature"@, Json::Object(fields)),
{
    lemma_fields_differ();
    let after = prepared(members, key.algorithm, key_id, signed_at);
    let fields = after["_signature"@]->Object_0;
    assert(fields.dom() =~= set!["alg"@, "kid"@, "signed_at"@]);
    assert(is_fresh(fields, key, key_id, signed_at));
    assert(after.remove("_signature"@) =~= members.remove("_signature"@));
    assert(after =~= members.insert("_signature"@, Json::Object(fields)));
}

/// Signing a document gives its signed form, with the signature of the whole
/// canonical text, or says why there is none.
pub proof fn law_embed(members: Members, key: Key, key_id: Seq<char>, signed_at: Seq<char>)
    ensures
        match embed_outcome(members, key, key_id, signed_at) {
            Ok(after) => is_signed_form(members, after, key, key_id, signed_at),
            Err(why) => is_unsignable(members, key, key_id, signed_at, why),
        },
{
    lemma_fields_differ();
    law_prepare(members, key, key_id, signed_at);
    let document = prepared(members, key.algorithm, key_id, signed_at);
    let fields = choose|fields: Members| #[trigger]
        is_fresh(fields, key, key_id, signed_at) && document == members.insert(
            "_signature"@,
            Json::Object(fields),
        );
    assert forall|name: Seq<char>| #[trigger] fields.contains_key(name) implies fields[name] is Text by {
        assert(fields.dom().contains(name));
    }
    lemma_integers_outside_block(members, fields);
    law_only_integers_out_of_range_are_refused(Json::Object(document));
    lemma_signed_part_of_signed(members, key.algorithm, key_id, signed_at, Seq::empty());
    match embed_outcome(members, key, key_id, signed_at) {
        Ok(after) => {
            let block = after["_signature"@]->Object_0;
            assert(after.remove("_signature"@) =~= members.remove("_signature"@));
            assert(block.remove("sig"@) =~= fields);
            let signature = scheme_signature(key, signed_bytes(document))->Some_0;
            assert(without_signature(after, block) =~= document);
            assert(carries(after, block, signature));
        },
        Err(_) => {},
    }
}

/// The private key file holds this key, and nothing that could be taken for a key of
/// the other scheme first.
pub open spec fn holds_private_key(pem: Seq<char>, key: Key) -> bool {
    &&& pem_contents(pem) == Some(key.der)
    &&& match key.algorithm {
        Algorithm::Ed25519 => is_ed25519_private(key.der),
        Algorithm::Rsa => is_rsa_private(key.der) && !is_ed25519_private(key.der),
    }
}

/// The public key file holds this key, and nothing that could be taken for a key of
/// the other scheme first.
pub open spec fn holds_public_key(pem: Seq<char>, key: Key) -> bool {
    &&& pem_contents(pem) == Some(key.der)
    &&& match key.algorithm {
        Algorithm::Ed25519 => is_ed25519_public(key.der),
        Algorithm::Rsa => is_rsa_public(key.der) && !is_ed25519_public(key.der),
    }
}

/// A key file gives the key that it holds, of the scheme that it is for, and is
/// refused exactly where it holds none.
pub proof fn law_key_files(pem: Seq<char>)
    ensures
        match private_key_outcome(pem) {
            Ok(key) => holds_private_key(pem, key),
            Err(KeyError::PrivatePem) => pem_contents(pem) is None,
            Err(KeyError::PrivateKey) => pem_contents(pem) is Some && !is_ed25519_private(pem_contents(pem)->Some_0)
                && !is_rsa_private(pem_contents(pem)->Some_0),
            Err(_) => false,
        },
        match public_key_outcome(pem) {
            Ok(key) => holds_public_key(pem, key),
            Err(KeyError::PublicPem) => pem_contents(pem) is None,
            Err(KeyError::PublicKey) => pem_contents(pem) is Some && !is_ed25519_public(pem_contents(pem)->Some_0)
                && !is_rsa_public(pem_contents(pem)->Some_0),
            Err(_) => false,
        },
{
}

/// Signing a text gives the signed form of the document that it holds, with the key
/// in the key file and the name and time that were given, whatever block the text
/// had; or says why not: first of the text, then of the key file, then of signing.
pub proof fn law_sign(raw: Seq<char>, pem: Seq<char>, key_id: Seq<char>, signed_at: Seq<char>)
    ensures
        match sign_outcome(raw, pem, key_id, signed_at) {
            Ok(after) => parse_outcome(raw) is Ok && exists|key: Key| #[trigger]
                holds_private_key(pem, key) && is_signed_form(
                    parse_outcome(raw)->Ok_0,
                    after,
                    key,
                    key_id,
                    signed_at,
                ),
            Err(SignFailure::Parse(e)) => parse_outcome(raw) == Err::<Members, _>(e),
            Err(SignFailure::Key(e)) => parse_outcome(raw) is Ok && private_key_outcome(pem) == Err::<Key, _>(e),
            Err(SignFailure::Embed(why)) => parse_outcome(raw) is Ok && exists|key: Key| #[trigger]
                holds_private_key(pem, key) && is_unsignable(
                    parse_outcome(raw)->Ok_0,
                    key,
                    key_id,
                    signed_at,
                    why,
                ),
            Err(SignFailure::Serialization) => false,
        },
{
    law_key_files(pem);
    if parse_outcome(raw) is Ok && private_key_outcome(pem) is Ok {
        let key = private_key_outcome(pem)->Ok_0;
        assert(holds_private_key(pem, key));
        law_embed(parse_outcome(raw)->Ok_0, key, key_id, signed_at);
    }
}

/// Signing does not look at the signature block of a text: texts that hold the same
/// but for it are signed alike.
pub proof fn law_sign_ignores_the_old_block(
    raw: Seq<char>,
    other: Seq<char>,
    pem: Seq<char>,
    key_id: Seq<char>,
    signed_at: Seq<char>,
)
    requires
        parse_outcome(raw) is Ok,
        parse_outcome(other) is Ok,
        parse_outcome(raw)->Ok_0.remove("_signature"@) == parse_outcome(other)->Ok_0.remove("_signature"@),
    ensures
        sign_outcome(raw, pem, key_id, signed_at) == sign_outcome(other, pem, key_id, signed_at),
{
    let a = parse_outcome(raw)->Ok_0;
    let b = parse_outcome(other)->Ok_0;
    if private_key_outcome(pem) is Ok {
        let key = private_key_outcome(pem)->Ok_0;
        law_prepare(a, key, key_id, signed_at);
        law_prepare(b, key, key_id, signed_at);
        assert(prepared(a, key.algorithm, key_id, signed_at) =~= a.remove("_signature"@).insert(
            "_signature"@,
            prepared(a, key.algorithm, key_id, signed_at)["_signature"@],
        ));
        assert(prepared(b, key.algorithm, key_id, signed_at) =~= b.remove("_signature"@).insert(
            "_signature"@,
            prepared(b, key.algorithm, key_id, signed_at)["_signature"@],
        ));
        assert(prepared(a, key.algorithm, key_id, signed_at) == prepared(b, key.algorithm, key_id, signed_at));
        assert forall|s: Seq<u8>| #[trigger] signed(a, key.algorithm, key_id, signed_at, s) == signed(
            b,
            key.algorithm,
            key_id,
            signed_at,
            s,
        ) by {
            assert(signed(a, key.algorithm, key_id, signed_at, s) =~= signed(
                b,
                key.algorithm,
                key_id,
                signed_at,
                s,
            ));
        }
    }
}

/// Verifying a text answers for the document that it holds and the key in the key
/// file: with the answer of the scheme, or with why there is none, first of the
/// text, then of the key file, then of the signature.
pub proof fn law_load(raw: Seq<char>, pem: Seq<char>)
    ensures
        match load_outcome(raw, pem) {
            Ok(valid) => parse_outcome(raw) is Ok && exists|key: Key, block: Members, signature: Seq<u8>|
                #![trigger holds_public_key(pem, key), carries(parse_outcome(raw)->Ok_0, block, signature)]
                holds_public_key(pem, key) && carries(parse_outcome(raw)->Ok_0, block, signature)
                    && has_right_length(key, signature) && valid == scheme_accepts(
                    key,
                    canonical_bytes(without_signature(parse_outcome(raw)->Ok_0, block)),
                    signature,
                ),
            Err(LoadFailure::Parse(e)) => parse_outcome(raw) == Err::<Members, _>(e),
            Err(LoadFailure::Key(e)) => parse_outcome(raw) is Ok && public_key_outcome(pem) == Err::<Key, _>(e),
            Err(LoadFailure::Verify(why)) => parse_outcome(raw) is Ok && exists|key: Key| #[trigger]
                holds_public_key(pem, key) && verify_outcome(parse_outcome(raw)->Ok_0, key) == Err::<bool, _>(
                    why,
                ),
        },
{
    law_key_files(pem);
    if parse_outcome(raw) is Ok && public_key_outcome(pem) is Ok {
        let key = public_key_outcome(pem)->Ok_0;
        assert(holds_public_key(pem, key));
        law_verify(parse_outcome(raw)->Ok_0, key);
    }
}

/// Reading the signature out of a document gives the bytes whose text it carries, or
/// says what is not there.
pub proof fn law_embedded_signature(members: Members)
    ensures
        embedded_outcome(members) is Ok ==> exists|block: Members| #[trigger]
            carries(members, block, embedded_outcome(members)->Ok_0),
        embedded_outcome(members) == Err::<Seq<u8>, VerifyError>(VerifyError::NoSignatureBlock)
            <==> !members.contains_key("_signature"@) || members["_signature"@] !is Object,
        embedded_outcome(members) == Err::<Seq<u8>, VerifyError>(VerifyError::NoSig) <==> members.contains_key(
            "_signature"@,
        ) && match members["_signature"@] {
            Json::Object(block) => !block.contains_key("sig"@) || block["sig"@] !is Text,
            _ => false,
        },
        embedded_outcome(members) == Err::<Seq<u8>, VerifyError>(VerifyError::Base64) <==> members.contains_key(
            "_signature"@,
        ) && match members["_signature"@] {
            Json::Object(block) => block.contains_key("sig"@) && match block["sig"@] {
                Json::Text(text) => forall|bytes: Seq<u8>| #[trigger] base64url(bytes) != text,
                _ => false,
            },
            _ => false,
        },
        embedded_outcome(members) matches Err(e) ==> e is NoSignatureBlock || e is NoSig || e is Base64,
{
    if members.contains_key("_signature"@) && members["_signature"@] is Object {
        let block = members["_signature"@]->Object_0;
        if block.contains_key("sig"@) && block["sig"@] is Text {
            let text = block["sig"@]->Text_0;
            if base64url_bytes(text) is Some {
                let signature = base64url_bytes(text)->Some_0;
                assert(base64url(signature) == text);
                assert(embedded_outcome(members) == Ok::<Seq<u8>, VerifyError>(signature));
                assert(carries(members, block, embedded_outcome(members)->Ok_0));
            } else {
                assert(forall|bytes: Seq<u8>| #[trigger] base64url(bytes) != text);
            }
        }
    }
}

/// Attaching a signature to a document that has a signature block puts it into the
/// block, and leaves the rest of the block and of the document as it is. Reading it
/// out again gives it back.
pub proof fn law_attach(members: Members, block: Members, signature: Seq<u8>)
    requires
        members.contains_key("_signature"@),
        members["_signature"@] == Json::Object(block),
    ensures
        has_block(members),
        ({
            let after = with_sig(members, Json::Text(base64url(signature)));
            &&& after.remove("_signature"@) == members.remove("_signature"@)
            &&& exists|full: Members| #[trigger]
                carries(after, full, signature) && full.remove("sig"@) == block.remove("sig"@)
            &&& embedded_outcome(after) == Ok::<Seq<u8>, VerifyError>(signature)
        }),
{
    let after = with_sig(members, Json::Text(base64url(signature)));
    let full = after["_signature"@]->Object_0;
    assert(after.remove("_signature"@) =~= members.remove("_signature"@));
    assert(full.remove("sig"@) =~= block.remove("sig"@));
    assert(carries(after, full, signature));
    law_embedded_signature(after);
    lemma_base64url_round_trip(signature);
}

/// Reading a text gives the members of the object that it holds, in which no object
/// has a key twice; refuses a text that holds no object, or one that nests too deep,
/// in the words of the reader; and otherwise names the first key in the text that
/// its object has already.
pub proof fn law_parse(text: Seq<char>)
    ensures
        parse_outcome(text) matches Ok(members) ==> exists|tree: Tree|
            {
                &&& tree_of(encode_utf8(text)) == Some(tree)
                &&& tree is Object
                &&& tree_nests(tree, 127)
                &&& #[trigger] all_keys_differ(tree)
                &&& tree_json(tree) == Json::Object(members)
            },
        parse_outcome(text) matches Err(ParseFailure::NotJson(reason)) ==> reason == refusal(text),
        parse_outcome(text) matches Err(ParseFailure::NotJson(_)) <==> match tree_of(encode_utf8(text)) {
            Some(tree) => tree is Scalar || tree is Array || !tree_nests(tree, 127),
            None => true,
        },
        parse_outcome(text) matches Err(ParseFailure::DuplicateKey(_)) ==> exists|tree: Tree|
            {
                &&& tree_of(encode_utf8(text)) == Some(tree)
                &&& tree is Object
                &&& tree_nests(tree, 127)
                &&& #[trigger] is_first_repeated(tree, parse_outcome(text)->Err_0->DuplicateKey_0)
            },
{
    if let Some(tree) = tree_of(encode_utf8(text)) {
        lemma_first_repeat_is_first(tree, Seq::empty());
        assert(MAX_NESTING as nat == 127nat);
        assert(first_repeat(tree) is None ==> all_keys_differ(tree));
        if let Some(key) = first_repeat(tree) {
            assert(is_first_repeated(tree, key));
            if parsed_object(text) is Some {
                assert(is_first_repeated(tree, parse_outcome(text)->Err_0->DuplicateKey_0));
            }
        }
    }
}

/// The value of an outline has the values of its parts where they are: each element
/// at its index, and under each key the member that has it last.
pub proof fn law_outline_value(tree: Tree)
    ensures
        match tree {
            Tree::Scalar(json) => tree_json(tree) == json,
            Tree::Array(elements) => match tree_json(tree) {
                Json::Array(values) => values.len() == elements.len() && forall|i: int|
                    0 <= i < elements.len() ==> values[i] == tree_json(#[trigger] elements[i]),
                _ => false,
            },
            Tree::Object(members) => match tree_json(tree) {
                Json::Object(values) => {
                    &&& forall|key: Seq<char>| #[trigger]
                        values.contains_key(key) ==> exists|i: int|
                            0 <= i < members.len() && (#[trigger] members[i]).0 == key
                    &&& forall|i: int|
                        0 <= i < members.len() && (forall|j: int|
                            i < j < members.len() ==> (#[trigger] members[j]).0 != members[i].0)
                            ==> values.contains_key((#[trigger] members[i]).0) && values[members[i].0]
                            == tree_json(members[i].1)
                },
                _ => false,
            },
        },
{
    match tree {
        Tree::Object(members) => {
            let values = tree_json(tree)->Object_0;
            assert forall|key: Seq<char>| #[trigger] values.contains_key(key) implies exists|i: int|
                0 <= i < members.len() && (#[trigger] members[i]).0 == key by {
                lemma_first_members(members, members.len(), key);
            }
            assert forall|i: int|
                0 <= i < members.len() && (forall|j: int|
                    i < j < members.len() ==> (#[trigger] members[j]).0 != members[i].0) implies values.contains_key(
                (#[trigger] members[i]).0,
            ) && values[members[i].0] == tree_json(members[i].1) by {
                lemma_last_member_counts(members, members.len(), i);
            }
        },
        _ => {},
    }
}

proof fn lemma_last_member_counts(members: Seq<(Seq<char>, Tree)>, count: nat, i: int)
    requires
        0 <= i < count <= members.len(),
        forall|j: int| i < j < count ==> (#[trigger] members[j]).0 != members[i].0,
    ensures
        first_members(members, count).contains_key(members[i].0),
        first_members(members, count)[members[i].0] == tree_json(members[i].1),
    decreases count,
{
    if i < count - 1 {
        lemma_last_member_counts(members, (count - 1) as nat, i);
        assert(members[count - 1].0 != members[i].0);
    }
}

/// Two keys are a pair exactly where they are of one scheme and the public key is
/// the one that the scheme gives for the private key.
pub proof fn law_pair(private: Key, public: Key)
    ensures
        is_pair(private, public) <==> private.algorithm == public.algorithm && match private.algorithm {
            Algorithm::Ed25519 => ed25519_public_of(private.der) == Some(public.der),
            Algorithm::Rsa => rsa_public_of(private.der) == Some(public.der),
        },
        public_of(private) == match private.algorithm {
            Algorithm::Ed25519 => ed25519_public_of(private.der),
            Algorithm::Rsa => rsa_public_of(private.der),
        },
{
}

/// Two key files match exactly where each holds a key of its kind, both of one
/// scheme, and the public key is the one that the scheme gives for the private key.
pub proof fn law_matching_files(private_pem: Seq<char>, public_pem: Seq<char>)
    ensures
        key_files_match(private_pem, public_pem) <==> exists|private: Key, public: Key|
            {
                &&& #[trigger] holds_private_key(private_pem, private)
                &&& #[trigger] holds_public_key(public_pem, public)
                &&& private.algorithm == public.algorithm
                &&& match private.algorithm {
                    Algorithm::Ed25519 => ed25519_public_of(private.der) == Some(public.der),
                    Algorithm::Rsa => rsa_public_of(private.der) == Some(public.der),
                }
            },
{
    law_key_files(private_pem);
    law_key_files(public_pem);
    if key_files_match(private_pem, public_pem) {
        let private = private_key_outcome(private_pem)->Ok_0;
        let public = public_key_outcome(public_pem)->Ok_0;
        law_pair(private, public);
        assert(holds_private_key(private_pem, private));
        assert(holds_public_key(public_pem, public));
    }
    if exists|private: Key, public: Key|
        {
            &&& #[trigger] holds_private_key(private_pem, private)
            &&& #[trigger] holds_public_key(public_pem, public)
            &&& private.algorithm == public.algorithm
            &&& match private.algorithm {
                Algorithm::Ed25519 => ed25519_public_of(private.der) == Some(public.der),
                Algorithm::Rsa => rsa_public_of(private.der) == Some(public.der),
            }
        } {
        let (private, public) = choose|private: Key, public: Key|
            {
                &&& #[trigger] holds_private_key(private_pem, private)
                &&& #[trigger] holds_public_key(public_pem, public)
                &&& private.algorithm == public.algorithm
                &&& match private.algorithm {
                    Algorithm::Ed25519 => ed25519_public_of(private.der) == Some(public.der),
                    Algorithm::Rsa => rsa_public_of(private.der) == Some(public.der),
                }
            };
        law_pair(private, public);
        assert(private_key_outcome(private_pem) == Ok::<Key, KeyError>(private));
        assert(public_key_outcome(public_pem) == Ok::<Key, KeyError>(public));
    }
}

/// The keys with which signing cannot fail are the private keys for Ed25519.
pub proof fn law_keys_that_always_sign(key: Key)
    ensures
        is_ed25519_key(key) <==> key.algorithm is Ed25519 && is_ed25519_private(key.der),
{
}

/// New key files are PEM blocks with the tags of their kind. One holds a private key
/// of the scheme that was asked for, with 2048 bits if that is RSA, the other the
/// public key that belongs to it.
pub proof fn law_new_key_files(algorithm: Algorithm, private_pem: Seq<char>, public_pem: Seq<char>)
    requires
        are_key_files(algorithm, private_pem, public_pem),
    ensures
        exists|private: Seq<u8>, public: Seq<u8>|
            {
                &&& private_pem == #[trigger] pem_text("PRIVATE KEY"@, private)
                &&& public_pem == #[trigger] pem_text("PUBLIC KEY"@, public)
                &&& pem_contents(private_pem) == Some(private)
                &&& pem_contents(public_pem) == Some(public)
                &&& match algorithm {
                    Algorithm::Ed25519 => is_ed25519_private(private) && is_ed25519_public(public)
                        && ed25519_public_of(private) == Some(public),
                    Algorithm::Rsa => is_rsa_private(private) && is_rsa_public(public) && rsa_public_of(private)
                        == Some(public) && rsa_modulus_bits(public) == Some(2048nat),
                }
            },
{
    let (private, public) = choose|private: Key, public: Key|
        {
            &&& private.algorithm == algorithm
            &&& #[trigger] is_pair(private, public)
            &&& private_pem == pem_text(PRIVATE_KEY_TAG@, private.der)
            &&& public_pem == pem_text(PUBLIC_KEY_TAG@, public.der)
            &&& private_key_outcome(private_pem) == Ok::<Key, KeyError>(private)
            &&& public_key_outcome(public_pem) == Ok::<Key, KeyError>(public)
            &&& public_key_outcome(private_pem) == Err::<Key, KeyError>(KeyError::PublicKey)
            &&& private_key_outcome(public_pem) == Err::<Key, KeyError>(KeyError::PrivateKey)
            &&& algorithm is Rsa ==> rsa_modulus_bits(public.der) == Some(RSA_BITS as nat)
        };
    law_key_files(private_pem);
    law_key_files(public_pem);
    assert(private_pem == pem_text("PRIVATE KEY"@, private.der));
    assert(public_pem == pem_text("PUBLIC KEY"@, public.der));
}

/// New key files are made anew, never written over a file that exists, and the
/// private one is for its owner to read and write and for nobody else.
pub proof fn law_new_files(files: KeyFiles, algorithm: Algorithm)
    requires
        are_new_key_files(files, algorithm),
    ensures
        files.private.create_new,
        files.public.create_new,
        files.private.mode == Some(0o600u32),
        files.public.mode is None,
        exists|private_pem: Seq<char>, public_pem: Seq<char>|
            {
                &&& #[trigger] are_key_files(algorithm, private_pem, public_pem)
                &&& files.private.contents@ == encode_utf8(private_pem)
                &&& files.public.contents@ == encode_utf8(public_pem)
            },
{
}

/// A file is replaced by writing the temporary file and renaming it; nothing comes
/// after a failure to write, and only removing the temporary file after a failure to
/// rename. So a failure leaves a temporary file only where it could not be written
/// or could not be removed.
pub proof fn law_write_steps(contents: Seq<u8>, went: Seq<bool>, files: Seq<Siblings>)
    requires
        is_run(contents, went, files),
        went.len() == 3,
    ensures
        step_after(went, 0) is WriteTemp,
        step_after(went, 1) == (if went[0] {
            WriteStep::Rename
        } else {
            WriteStep::Finish(false)
        }),
        went[0] ==> step_after(went, 2) == (if went[1] {
            WriteStep::Finish(true)
        } else {
            WriteStep::RemoveTemp
        }),
        step_after(went, 3) == WriteStep::Finish(went[0] && went[1]),
        went[0] && went[1] ==> files[3].file == Some(contents) && files[3].temp is None,
        went[0] && !went[1] ==> files[3].file == files[0].file && (went[2] ==> files[3].temp is None),
        !went[0] ==> files[3].file == files[0].file,
{
    reveal_with_fuel(step_after, 4);
    lemma_write_is_atomic(contents, went, files, 1);
    lemma_write_is_atomic(contents, went, files, 2);
    lemma_write_is_atomic(contents, went, files, 3);
}

/// What the user is told of each error. Errors that wrap another say what it says.
pub proof fn law_messages(parse: ParseError, key: KeyError, pair: KeyPairError, embed: EmbedError, verify: VerifyError)
    ensures
        parse.text() == match parse {
            ParseError::NotJson(_) => "Config is not valid JSON"@,
            ParseError::DuplicateKey(_) => "Config contains duplicate object keys"@,
        },
        key.text() == match key {
            KeyError::PrivatePem => "Failed to parse private key PEM"@,
            KeyError::PrivateKey => "Failed to load private key"@,
            KeyError::PublicPem => "Failed to parse public key PEM"@,
            KeyError::PublicKey => "Failed to load public key"@,
        },
        pair.text() == match pair {
            KeyPairError::Generation => "Key generation failed"@,
            KeyPairError::PrivateExport => "Failed to export private key"@,
            KeyPairError::PublicExport => "Failed to export public key"@,
        },
        embed.text() == match embed {
            EmbedError::UnsafeInteger => "Config holds an integer outside the JSON safe-integer range"@,
            EmbedError::Signing => "Failed to sign config"@,
        },
        verify.text() == match verify {
            VerifyError::NoSignatureBlock => "No '_signature' object found in config"@,
            VerifyError::NoSig => "Signature block missing 'sig' field"@,
            VerifyError::Base64 => "Failed to base64-decode signature"@,
            VerifyError::UnsafeInteger => EmbedError::UnsafeInteger.text(),
            VerifyError::SignatureLength => "Invalid signature bytes"@,
        },
        SignError::Parse(parse).text() == parse.text(),
        SignError::Key(key).text() == key.text(),
        SignError::Embed(embed).text() == embed.text(),
        SignError::Serialization.text() == "Serialization failed"@,
        LoadError::Parse(parse).text() == parse.text(),
        LoadError::Key(key).text() == key.text(),
        LoadError::Verify(verify).text() == verify.text(),
        GenerateError::PrivateExists.text() == "Refusing to overwrite existing file"@,
        GenerateError::PublicExists.text() == "Refusing to overwrite existing file"@,
        GenerateError::Pair(pair).text() == pair.text(),
{
}

/// An error tells what happened, in full: the words of the reader, the key that is
/// repeated, or the error that it wraps. A key is its scheme and its encoding.
pub proof fn law_values_are_what_they_hold(
    reason: String,
    parse: ParseError,
    key: KeyError,
    embed: EmbedError,
    verify: VerifyError,
    private: PrivateKey,
    public: PublicKey,
)
    ensures
        ParseError::NotJson(reason)@ == ParseFailure::NotJson(reason@),
        ParseError::DuplicateKey(reason)@ == ParseFailure::DuplicateKey(reason@),
        SignError::Parse(parse)@ == SignFailure::Parse(parse@),
        SignError::Key(key)@ == SignFailure::Key(key),
        SignError::Embed(embed)@ == SignFailure::Embed(embed),
        SignError::Serialization@ == SignFailure::Serialization,
        LoadError::Parse(parse)@ == LoadFailure::Parse(parse@),
        LoadError::Key(key)@ == LoadFailure::Key(key),
        LoadError::Verify(verify)@ == LoadFailure::Verify(verify),
        private@.algorithm == private.algorithm && private@.der == private.der@,
        public@.algorithm == public.algorithm && public@.der == public.der@,
{
}

} // verus!
