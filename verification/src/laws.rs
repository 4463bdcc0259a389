//! What holds of signing and verifying as a whole.

use vstd::arithmetic::power2::{lemma2_to64, lemma_pow2_adds, lemma_pow2_pos, lemma_pow2_unfold, pow2};
use vstd::prelude::*;
use vstd::utf8::encode_utf8;

use crate::canonical::{SIGNATURE_FIELD, SIG_FIELD, exponent_of, has_fraction, is_nearest, is_safe, mantissa_of, reads_as, reads_back, rounds_to, safe_integers, signed_bytes, signed_part, whole_value};
use crate::document::{MAX_NESTING, parse_outcome, parsed_object};
use crate::json::{Json, JsonNumber, Members};
use crate::keys::{Algorithm, Key, are_key_files, private_key_outcome, public_key_outcome};
use crate::layout::{lemma_reordered, same_but_for_layout};
use crate::outline::{lemma_first_repeat, repeats_key, tokens_of, tree_json, tree_of};
use crate::signing::{ALG_FIELD, EmbedError, KID_FIELD, LoadFailure, SIGNED_AT_FIELD, SignFailure, alg_name, block_of, embed_outcome, has_block, key_files_match, lemma_fields_differ, load_outcome, prepared, sign_outcome, signed, verify_outcome, with_sig};

verus! {

/// A signature does not cover the `sig` value: whatever it is, the bytes that are
/// signed are the same.
pub proof fn lemma_sig_is_not_covered(members: Members, sig: Json)
    requires
        has_block(members),
    ensures
        signed_part(with_sig(members, sig)) == signed_part(members),
        signed_bytes(with_sig(members, sig)) == signed_bytes(members),
{
    let block = block_of(members);
    assert(block.insert(SIG_FIELD@, sig).remove(SIG_FIELD@) =~= block.remove(SIG_FIELD@));
    assert(signed_part(with_sig(members, sig)) =~= signed_part(members));
}

/// A signature covers everything but the `sig` value: two documents of which the
/// same is covered have the same members, and their signature blocks, if they
/// have any, differ in `sig` alone.
pub proof fn lemma_everything_else_is_covered(a: Members, b: Members)
    requires
        signed_part(a) == signed_part(b),
    ensures
        a.remove(SIGNATURE_FIELD@) == b.remove(SIGNATURE_FIELD@),
        has_block(a) == has_block(b),
        has_block(a) ==> block_of(a).remove(SIG_FIELD@) == block_of(b).remove(SIG_FIELD@),
        !has_block(a) ==> a == b,
{
    assert(signed_part(a).remove(SIGNATURE_FIELD@) =~= a.remove(SIGNATURE_FIELD@));
    assert(signed_part(b).remove(SIGNATURE_FIELD@) =~= b.remove(SIGNATURE_FIELD@));
    assert(has_block(signed_part(a)) == has_block(a));
    assert(has_block(signed_part(b)) == has_block(b));
    if has_block(a) {
        assert(block_of(signed_part(a)) == block_of(a).remove(SIG_FIELD@));
        assert(block_of(signed_part(b)) == block_of(b).remove(SIG_FIELD@));
    }
}

/// No number in the value is a float.
pub open spec fn whole_numbers(json: Json) -> bool
    decreases json,
{
    match json {
        Json::Number(number) => number is Integer,
        Json::Array(elements) => forall|i: int| 0 <= i < elements.len() ==> whole_numbers(#[trigger] elements[i]),
        Json::Object(members) => forall|key: Seq<char>| #[trigger]
            members.contains_key(key) ==> whole_numbers(members[key]),
        _ => true,
    }
}

/// The value of an integer, or of a float in the safe range without a fraction.
pub open spec fn exact_value(number: JsonNumber) -> Option<int> {
    match number {
        JsonNumber::Integer(i) => Some(i),
        JsonNumber::Float(bits) => if !has_fraction(bits) && is_safe(whole_value(bits)) {
            Some(whole_value(bits))
        } else {
            None
        },
    }
}

/// The values are the same, but that an integer may stand for a float with that
/// value, and zero for zero with a sign.
pub open spec fn agree(a: Json, b: Json) -> bool
    decreases a,
{
    match (a, b) {
        (Json::Number(x), Json::Number(y)) => {
            ||| x == y
            ||| exact_value(x) is Some && exact_value(x) == exact_value(y)
        },
        (Json::Array(x), Json::Array(y)) => x.len() == y.len() && forall|i: int|
            0 <= i < x.len() ==> agree(#[trigger] x[i], y[i]),
        (Json::Object(x), Json::Object(y)) => x.dom() == y.dom() && forall|key: Seq<char>| #[trigger]
            x.contains_key(key) ==> agree(x[key], y[key]),
        _ => a !is Number && a !is Array && a !is Object && a == b,
    }
}

/// No two floats of different size are nearest to the same whole number.
proof fn lemma_two_nearest(size: int, e1: int, m1: int, e2: int, m2: int)
    requires
        1075 <= e1,
        1075 <= e2,
        0 <= m1 < 0x10000000000000,
        0 <= m2 < 0x10000000000000,
        (0x10000000000000 + m1) * pow2((e1 - 1075) as nat) < (0x10000000000000 + m2) * pow2((e2 - 1075) as nat),
        is_nearest(size, e1, m1),
    ensures
        !is_nearest(size, e2, m2),
{
    let g1 = pow2((e1 - 1075) as nat) as int;
    let g2 = pow2((e2 - 1075) as nat) as int;
    let a: int = 0x10000000000000;
    let v1 = (a + m1) * g1;
    let v2 = (a + m2) * g2;
    lemma_pow2_pos((e1 - 1075) as nat);
    lemma_pow2_pos((e2 - 1075) as nat);
    if e1 == e2 {
        assert(m1 < m2) by (nonlinear_arith)
            requires
                (a + m1) * g1 < (a + m2) * g1,
                g1 > 0,
        ;
        assert(v2 - v1 == (m2 - m1) * g1) by (nonlinear_arith)
            requires
                v1 == (a + m1) * g1,
                v2 == (a + m2) * g1,
        ;
        if m2 == m1 + 1 {
            assert((m2 - m1) * g1 == g1) by (nonlinear_arith)
                requires
                    m2 - m1 == 1,
            ;
            assert(m1 % 2 == 0 ==> m2 % 2 == 1);
        } else {
            assert((m2 - m1) * g1 >= 2 * g1) by (nonlinear_arith)
                requires
                    m2 - m1 >= 2,
                    g1 > 0,
            ;
        }
    } else if e1 > e2 {
        lemma_pow2_adds((e1 - e2) as nat, (e2 - 1075) as nat);
        lemma_pow2_unfold((e1 - e2) as nat);
        lemma_pow2_pos((e1 - e2 - 1) as nat);
        let t = pow2((e1 - e2) as nat) as int;
        assert((e1 - e2) as nat + (e2 - 1075) as nat == (e1 - 1075) as nat);
        assert(v1 >= v2) by (nonlinear_arith)
            requires
                g1 == t * g2,
                t >= 2,
                g2 > 0,
                v1 == (a + m1) * g1,
                v2 == (a + m2) * g2,
                0 <= m1,
                m2 < a,
                a > 0,
        ;
    } else {
        lemma_pow2_adds((e2 - e1) as nat, (e1 - 1075) as nat);
        lemma_pow2_unfold((e2 - e1) as nat);
        lemma_pow2_pos((e2 - e1 - 1) as nat);
        let t = pow2((e2 - e1) as nat) as int;
        assert((e2 - e1) as nat + (e1 - 1075) as nat == (e2 - 1075) as nat);
        assert(g2 == t * g1);
        assert(t >= 2);
        assert(v2 - v1 >= m2 * g2 + g1) by (nonlinear_arith)
            requires
                g2 == t * g1,
                t >= 2,
                g1 > 0,
                v1 == (a + m1) * g1,
                v2 == (a + m2) * g2,
                0 <= m2,
                m1 < a,
                a > 0,
        ;
        if m2 > 0 {
            assert(m2 * g2 >= g2) by (nonlinear_arith)
                requires
                    m2 >= 1,
                    g2 > 0,
            ;
        } else if e2 == e1 + 1 {
            assert(pow2(0) == 1) by {
                lemma2_to64();
            }
            assert(t == 2);
            assert(v2 - v1 == (a - m1) * g1) by (nonlinear_arith)
                requires
                    g2 == 2 * g1,
                    v1 == (a + m1) * g1,
                    v2 == (a + 0) * g2,
            ;
            if m1 < a - 1 {
                assert((a - m1) * g1 >= 2 * g1) by (nonlinear_arith)
                    requires
                        a - m1 >= 2,
                        g1 > 0,
                ;
            } else {
                assert(m1 % 2 == 1);
                assert(v2 - v1 == g1);
            }
        } else {
            lemma_pow2_unfold((e2 - e1 - 1) as nat);
            lemma_pow2_pos((e2 - e1 - 2) as nat);
            assert(t >= 4);
            assert(v2 - v1 >= g2) by (nonlinear_arith)
                requires
                    g2 == t * g1,
                    t >= 4,
                    g1 > 0,
                    v1 == (a + m1) * g1,
                    v2 == (a + 0) * g2,
                    m1 < a,
                    a == 0x10000000000000,
            ;
            assert(g2 >= 4 * g1) by (nonlinear_arith)
                requires
                    g2 == t * g1,
                    t >= 4,
                    g1 > 0,
            ;
        }
    }
}

/// An integer rounds to one float at most.
pub proof fn lemma_rounding_is_unique(integer: int, x: u64, y: u64)
    requires
        !is_safe(whole_value(x)),
        !is_safe(whole_value(y)),
        rounds_to(integer, x),
        rounds_to(integer, y),
    ensures
        x == y,
{
    let size = if integer < 0 {
        -integer
    } else {
        integer
    };
    lemma_beyond_safe_range(x);
    lemma_beyond_safe_range(y);
    let (e1, m1) = (exponent_of(x), mantissa_of(x));
    let (e2, m2) = (exponent_of(y), mantissa_of(y));
    let v1 = (0x10000000000000 + m1) * pow2((e1 - 1075) as nat);
    let v2 = (0x10000000000000 + m2) * pow2((e2 - 1075) as nat);
    if v1 < v2 {
        lemma_two_nearest(size, e1, m1, e2, m2);
    } else if v2 < v1 {
        lemma_two_nearest(size, e2, m2, e1, m1);
    } else {
        lemma_same_size(e1, m1, e2, m2);
    }
}

/// A float beyond the safe range has no digits behind the point.
proof fn lemma_beyond_safe_range(bits: u64)
    requires
        !is_safe(whole_value(bits)),
    ensures
        exponent_of(bits) >= 1075,
{
    if 1023 <= exponent_of(bits) < 1075 {
        let digits = 0x10000000000000 + mantissa_of(bits);
        let unit = pow2((1075 - exponent_of(bits)) as nat) as int;
        lemma_pow2_pos((1075 - exponent_of(bits)) as nat);
        assert(0 <= digits / unit <= digits) by (nonlinear_arith)
            requires
                digits >= 0,
                unit >= 1,
        ;
    }
}

/// Numbers of the same size have the same exponent and mantissa.
proof fn lemma_same_size(e1: int, m1: int, e2: int, m2: int)
    requires
        1075 <= e1,
        1075 <= e2,
        0 <= m1 < 0x10000000000000,
        0 <= m2 < 0x10000000000000,
        (0x10000000000000 + m1) * pow2((e1 - 1075) as nat) == (0x10000000000000 + m2) * pow2((e2 - 1075) as nat),
    ensures
        e1 == e2,
        m1 == m2,
    decreases
            if e2 < e1 {
                1int
            } else {
                0int
            },
{
    let g1 = pow2((e1 - 1075) as nat) as int;
    let g2 = pow2((e2 - 1075) as nat) as int;
    let a: int = 0x10000000000000;
    lemma_pow2_pos((e1 - 1075) as nat);
    lemma_pow2_pos((e2 - 1075) as nat);
    if e1 < e2 {
        lemma_pow2_adds((e2 - e1) as nat, (e1 - 1075) as nat);
        lemma_pow2_unfold((e2 - e1) as nat);
        lemma_pow2_pos((e2 - e1 - 1) as nat);
        let t = pow2((e2 - e1) as nat) as int;
        assert((e2 - e1) as nat + (e1 - 1075) as nat == (e2 - 1075) as nat);
        assert((a + m1) * g1 < (a + m2) * g2) by (nonlinear_arith)
            requires
                g2 == t * g1,
                t >= 2,
                g1 > 0,
                0 <= m2,
                m1 < a,
                a > 0,
        ;
    } else if e2 < e1 {
        lemma_same_size(e2, m2, e1, m1);
    } else {
        assert(m1 == m2) by (nonlinear_arith)
            requires
                (a + m1) * g1 == (a + m2) * g1,
                g1 > 0,
        ;
    }
}

proof fn lemma_same_reading(read: Json, a: Json, b: Json)
    requires
        reads_as(read, a),
        reads_as(read, b),
        safe_integers(a),
        safe_integers(b),
    ensures
        agree(a, b),
    decreases a,
{
    match (a, b) {
        (Json::Array(x), Json::Array(y)) => {
            assert forall|i: int| 0 <= i < x.len() implies agree(#[trigger] x[i], y[i]) by {
                assert(reads_as(read->Array_0[i], y[i]));
                lemma_same_reading(read->Array_0[i], x[i], y[i]);
            }
        },
        (Json::Object(x), Json::Object(y)) => {
            assert forall|key: Seq<char>| #[trigger] x.contains_key(key) implies agree(x[key], y[key]) by {
                assert(y.contains_key(key));
                lemma_same_reading(read->Object_0[key], x[key], y[key]);
            }
        },
        (Json::Number(JsonNumber::Float(x)), Json::Number(JsonNumber::Float(y))) => {
            if read->Number_0 is Integer && exact_value(a->Number_0) is None {
                lemma_rounding_is_unique(read->Number_0->Integer_0, x, y);
            }
        },
        _ => {},
    }
}

/// Values without floats that agree are the same.
pub proof fn lemma_agreeing_whole_values(a: Json, b: Json)
    requires
        agree(a, b),
        whole_numbers(a),
        whole_numbers(b),
    ensures
        a == b,
    decreases a,
{
    match (a, b) {
        (Json::Array(x), Json::Array(y)) => {
            assert forall|i: int| 0 <= i < x.len() implies x[i] == y[i] by {
                lemma_agreeing_whole_values(x[i], y[i]);
            }
            assert(x =~= y);
        },
        (Json::Object(x), Json::Object(y)) => {
            assert forall|key: Seq<char>| #[trigger] x.contains_key(key) implies x[key] == y[key] by {
                assert(y.contains_key(key));
                lemma_agreeing_whole_values(x[key], y[key]);
            }
            assert(x =~= y);
        },
        _ => {},
    }
}

/// Documents with the same bytes to sign agree in everything that is covered, at
/// whatever depth. The bytes do not tell an integer from a float with that value,
/// such as 1 from 1.0, or the two zeros from each other; anything else that is
/// changed changes the bytes. Members that hold no float are equal.
/// What is asked of the documents here [`canonicalize`] ensures of every document
/// that it does not refuse.
///
/// [`canonicalize`]: crate::canonical::canonicalize
pub proof fn lemma_signed_bytes_tell_documents_apart(a: Members, b: Members)
    requires
        reads_back(a),
        reads_back(b),
        safe_integers(Json::Object(signed_part(a))),
        safe_integers(Json::Object(signed_part(b))),
        signed_bytes(a) == signed_bytes(b),
    ensures
        agree(Json::Object(signed_part(a)), Json::Object(signed_part(b))),
        signed_part(a).dom() == signed_part(b).dom(),
        forall|key: Seq<char>| #[trigger]
            signed_part(a).contains_key(key) && whole_numbers(signed_part(a)[key]) && whole_numbers(
                signed_part(b)[key],
            ) ==> signed_part(a)[key] == signed_part(b)[key],
        whole_numbers(Json::Object(signed_part(a))) && whole_numbers(Json::Object(signed_part(b)))
            ==> signed_part(a) == signed_part(b),
{
    let x = Json::Object(signed_part(a));
    let y = Json::Object(signed_part(b));
    lemma_same_reading(tree_json(tree_of(signed_bytes(a))->Some_0), x, y);
    assert forall|key: Seq<char>| #[trigger]
        signed_part(a).contains_key(key) && whole_numbers(signed_part(a)[key]) && whole_numbers(
            signed_part(b)[key],
        ) implies signed_part(a)[key] == signed_part(b)[key] by {
        assert(x->Object_0.contains_key(key));
        lemma_agreeing_whole_values(x->Object_0[key], y->Object_0[key]);
    }
    if whole_numbers(x) && whole_numbers(y) {
        lemma_agreeing_whole_values(x, y);
    }
}

/// Signing replaces any signature block that the document had, and touches
/// nothing else. The new block names the scheme of the key, the key and the time.
pub proof fn lemma_signing_replaces_the_block(
    members: Members,
    old_block: Json,
    key: Key,
    key_id: Seq<char>,
    signed_at: Seq<char>,
)
    ensures
        embed_outcome(members.insert(SIGNATURE_FIELD@, old_block), key, key_id, signed_at) == embed_outcome(
            members,
            key,
            key_id,
            signed_at,
        ),
        embed_outcome(members, key, key_id, signed_at) matches Ok(after) ==> {
            &&& after.remove(SIGNATURE_FIELD@) == members.remove(SIGNATURE_FIELD@)
            &&& has_block(after)
            &&& block_of(after).dom() == set![ALG_FIELD@, KID_FIELD@, SIGNED_AT_FIELD@, SIG_FIELD@]
            &&& block_of(after)[ALG_FIELD@] == Json::Text(alg_name(key.algorithm))
            &&& block_of(after)[KID_FIELD@] == Json::Text(key_id)
            &&& block_of(after)[SIGNED_AT_FIELD@] == Json::Text(signed_at)
            &&& block_of(after)[SIG_FIELD@] is Text
        },
{
    lemma_fields_differ();
    let replaced = members.insert(SIGNATURE_FIELD@, old_block);
    assert(prepared(replaced, key.algorithm, key_id, signed_at) =~= prepared(
        members,
        key.algorithm,
        key_id,
        signed_at,
    ));
    assert forall|signature: Seq<u8>| #[trigger]
        signed(replaced, key.algorithm, key_id, signed_at, signature) == signed(
            members,
            key.algorithm,
            key_id,
            signed_at,
            signature,
        ) by {
        assert(signed(replaced, key.algorithm, key_id, signed_at, signature) =~= signed(
            members,
            key.algorithm,
            key_id,
            signed_at,
            signature,
        ));
    }
    if let Ok(after) = embed_outcome(members, key, key_id, signed_at) {
        assert(after.remove(SIGNATURE_FIELD@) =~= members.remove(SIGNATURE_FIELD@));
        assert(block_of(after).dom() =~= set![ALG_FIELD@, KID_FIELD@, SIGNED_AT_FIELD@, SIG_FIELD@]);
    }
}

/// Signing a signed document again, with the same key, name and time, changes
/// nothing.
pub proof fn lemma_signing_again_changes_nothing(
    members: Members,
    key: Key,
    key_id: Seq<char>,
    signed_at: Seq<char>,
)
    requires
        embed_outcome(members, key, key_id, signed_at) is Ok,
    ensures
        embed_outcome(
            embed_outcome(members, key, key_id, signed_at)->Ok_0,
            key,
            key_id,
            signed_at,
        ) == embed_outcome(members, key, key_id, signed_at),
{
    let after = embed_outcome(members, key, key_id, signed_at)->Ok_0;
    lemma_signing_replaces_the_block(members, after[SIGNATURE_FIELD@], key, key_id, signed_at);
    assert(after =~= members.insert(SIGNATURE_FIELD@, after[SIGNATURE_FIELD@]));
}

/// A text in which an object repeats a key, at whatever depth, is neither signed
/// nor verified.
pub proof fn lemma_repeated_keys_are_refused(
    raw: Seq<char>,
    pem: Seq<char>,
    key_id: Seq<char>,
    signed_at: Seq<char>,
)
    requires
        tree_of(encode_utf8(raw)) is Some,
        repeats_key(tree_of(encode_utf8(raw))->Some_0),
    ensures
        parse_outcome(raw) is Err,
        parsed_object(raw) is Some ==> parse_outcome(raw)->Err_0 is DuplicateKey,
        sign_outcome(raw, pem, key_id, signed_at) == Err::<Members, SignFailure>(
            SignFailure::Parse(parse_outcome(raw)->Err_0),
        ),
        load_outcome(raw, pem) == Err::<bool, LoadFailure>(LoadFailure::Parse(parse_outcome(raw)->Err_0)),
{
    lemma_first_repeat(tree_of(encode_utf8(raw))->Some_0);
}

/// How a document is written down does not matter: texts that differ in white space
/// or in the order of keys, at whatever depth, are signed alike and verify alike,
/// or are both refused.
pub proof fn lemma_layout_does_not_matter(
    raw: Seq<char>,
    other: Seq<char>,
    pem: Seq<char>,
    key_id: Seq<char>,
    signed_at: Seq<char>,
)
    requires
        same_but_for_layout(encode_utf8(raw), encode_utf8(other)),
    ensures
        parse_outcome(raw) is Ok ==> {
            &&& parse_outcome(other) == parse_outcome(raw)
            &&& sign_outcome(other, pem, key_id, signed_at) == sign_outcome(raw, pem, key_id, signed_at)
            &&& load_outcome(other, pem) == load_outcome(raw, pem)
        },
        parse_outcome(raw) is Err ==> {
            &&& parse_outcome(other) is Err
            &&& parse_outcome(other)->Err_0 is DuplicateKey == parse_outcome(raw)->Err_0 is DuplicateKey
            &&& sign_outcome(other, pem, key_id, signed_at) is Err
            &&& sign_outcome(raw, pem, key_id, signed_at) is Err
            &&& load_outcome(other, pem) is Err
            &&& load_outcome(raw, pem) is Err
        },
{
    if tokens_of(encode_utf8(raw)) != tokens_of(encode_utf8(other)) {
        let a = tree_of(encode_utf8(raw))->Some_0;
        let b = tree_of(encode_utf8(other))->Some_0;
        lemma_reordered(a, b, MAX_NESTING as nat);
        lemma_first_repeat(a);
        lemma_first_repeat(b);
    }
}

/// A document that holds an integer outside the safe range is not signed, and a
/// signature in it is never found valid or invalid.
pub proof fn lemma_unsafe_integers_are_refused(
    members: Members,
    key: Key,
    key_id: Seq<char>,
    signed_at: Seq<char>,
)
    requires
        !safe_integers(Json::Object(members.remove(SIGNATURE_FIELD@))),
    ensures
        embed_outcome(members, key, key_id, signed_at) == Err::<Members, EmbedError>(EmbedError::UnsafeInteger),
        verify_outcome(members, key) is Err,
{
    let payload = Json::Object(members.remove(SIGNATURE_FIELD@));
    let unsafe_key = choose|k: Seq<char>| #[trigger]
        payload->Object_0.contains_key(k) && !safe_integers(payload->Object_0[k]);
    let document = Json::Object(prepared(members, key.algorithm, key_id, signed_at));
    assert(document->Object_0.contains_key(unsafe_key));
    let covered = Json::Object(signed_part(members));
    assert(covered->Object_0.contains_key(unsafe_key));
}

/// A public key file that was made with a private key file goes with it, so it
/// verifies what the private key signs; the private key is of the scheme that was
/// asked for; and neither file passes for the other.
pub proof fn lemma_new_key_files_match(algorithm: Algorithm, private_pem: Seq<char>, public_pem: Seq<char>)
    requires
        are_key_files(algorithm, private_pem, public_pem),
    ensures
        key_files_match(private_pem, public_pem),
        private_key_outcome(private_pem)->Ok_0.algorithm == algorithm,
        public_key_outcome(private_pem) is Err,
        private_key_outcome(public_pem) is Err,
{
}

} // verus!
