//! Base64 with the URL-safe alphabet and without padding, as signatures are
//! written in a document.

use vstd::prelude::*;

use base64::Engine as _;

verus! {

/// Makes `base64::DecodeError` known to the verifier, as an opaque type.
#[verifier::external_type_specification]
#[verifier::external_body]
pub struct ExDecodeError(base64::DecodeError);

/// The character for a group of six bits.
pub open spec fn url_char(sextet: int) -> char {
    if sextet < 26 {
        (sextet + 65) as char
    } else if sextet < 52 {
        (sextet + 71) as char
    } else if sextet < 62 {
        (sextet - 4) as char
    } else if sextet == 62 {
        '-'
    } else {
        '_'
    }
}

/// The byte at `index`, or zero behind the last one.
pub open spec fn byte_or_zero(bytes: Seq<u8>, index: int) -> int {
    if 0 <= index < bytes.len() {
        bytes[index] as int
    } else {
        0
    }
}

/// The 24 bits of a group of three bytes.
pub open spec fn group_bits(bytes: Seq<u8>, group: int) -> int {
    byte_or_zero(bytes, 3 * group) * 65536 + byte_or_zero(bytes, 3 * group + 1) * 256 + byte_or_zero(
        bytes,
        3 * group + 2,
    )
}

/// The six bits that character `index` stands for.
pub open spec fn sextet_at(bytes: Seq<u8>, index: int) -> int {
    let bits = group_bits(bytes, index / 4);
    if index % 4 == 0 {
        bits / 262144
    } else if index % 4 == 1 {
        bits / 4096 % 64
    } else if index % 4 == 2 {
        bits / 64 % 64
    } else {
        bits % 64
    }
}

/// The text for `bytes`: one character for each six bits, the last group of
/// bits filled up with zeros.
pub open spec fn base64url(bytes: Seq<u8>) -> Seq<char> {
    Seq::new((4 * bytes.len() + 2) / 3, |i: int| url_char(sextet_at(bytes, i)))
}

/// The bytes that `text` stands for, if it is the text of any.
pub open spec fn base64url_bytes(text: Seq<char>) -> Option<Seq<u8>> {
    if exists|bytes: Seq<u8>| #[trigger] base64url(bytes) == text {
        Some(choose|bytes: Seq<u8>| #[trigger] base64url(bytes) == text)
    } else {
        None
    }
}

/// `encode` of `base64::engine::general_purpose::URL_SAFE_NO_PAD`: the text of
/// RFC 4648 with the URL-safe alphabet, unpadded.
#[verifier::external_body]
pub(crate) fn encode_base64url(bytes: &[u8]) -> (text: String)
    ensures
        text@ == base64url(bytes@),
{
    base64::engine::general_purpose::URL_SAFE_NO_PAD.encode(bytes)
}

/// `decode` of `base64::engine::general_purpose::URL_SAFE_NO_PAD`: succeeds on
/// the texts that `encode` gives, and only on those. Padding, bits left over
/// at the end, and characters outside the alphabet are errors.
#[verifier::external_body]
pub(crate) fn decode_base64url(text: &str) -> (bytes: Result<Vec<u8>, base64::DecodeError>)
    ensures
        match bytes {
            Ok(b) => base64url(b@) == text@,
            Err(_) => forall|b: Seq<u8>| #[trigger] base64url(b) != text@,
        },
{
    base64::engine::general_purpose::URL_SAFE_NO_PAD.decode(text)
}

proof fn lemma_url_char_injective(a: int, b: int)
    requires
        0 <= a < 64,
        0 <= b < 64,
        url_char(a) == url_char(b),
    ensures
        a == b,
{
}

proof fn lemma_split_bits(x: int, y: int, z: int)
    requires
        0 <= x < 256,
        0 <= y < 256,
        0 <= z < 256,
    ensures
        ({
            let bits = x * 65536 + y * 256 + z;
            &&& bits / 262144 == x / 4
            &&& bits / 4096 % 64 == x % 4 * 16 + y / 16
            &&& bits / 64 % 64 == y % 16 * 4 + z / 64
            &&& bits % 64 == z % 64
        }),
{
    let bits = x * 65536 + y * 256 + z;
    let upper = x * 16 + y / 16;
    let middle = x * 1024 + y * 4 + z / 64;
    assert(bits == middle * 64 + z % 64);
    assert(bits / 64 == middle);
    assert(bits == upper * 4096 + (y % 16 * 256 + z));
    assert(bits / 4096 == upper);
    assert(upper == x / 4 * 64 + (x % 4 * 16 + y / 16));
    assert(middle == upper * 64 + (y % 16 * 4 + z / 64));
    assert(bits == x / 4 * 262144 + (x % 4 * 65536 + y * 256 + z));
}

proof fn lemma_group_bits(bytes: Seq<u8>, group: int)
    ensures
        ({
            let bits = group_bits(bytes, group);
            let first = bits / 262144;
            let second = bits / 4096 % 64;
            let third = bits / 64 % 64;
            let fourth = bits % 64;
            &&& 0 <= first < 64
            &&& 0 <= second < 64
            &&& 0 <= third < 64
            &&& 0 <= fourth < 64
            &&& byte_or_zero(bytes, 3 * group) == first * 4 + second / 16
            &&& byte_or_zero(bytes, 3 * group + 1) == second % 16 * 16 + third / 4
            &&& byte_or_zero(bytes, 3 * group + 2) == third % 4 * 64 + fourth
        }),
{
    lemma_split_bits(
        byte_or_zero(bytes, 3 * group),
        byte_or_zero(bytes, 3 * group + 1),
        byte_or_zero(bytes, 3 * group + 2),
    );
}

/// Different bytes have different texts.
pub proof fn lemma_base64url_injective(a: Seq<u8>, b: Seq<u8>)
    requires
        base64url(a) == base64url(b),
    ensures
        a == b,
{
    let text = base64url(a);
    assert(base64url(b).len() == text.len());
    assert(a.len() == b.len());
    assert forall|k: int| 0 <= k < a.len() implies a[k] == b[k] by {
        let group = k / 3;
        lemma_group_bits(a, group);
        lemma_group_bits(b, group);
        assert forall|i: int| 4 * group <= i < 4 * group + 4 && i < text.len() implies sextet_at(a, i) == sextet_at(
            b,
            i,
        ) by {
            assert(text[i] == url_char(sextet_at(a, i)));
            assert(base64url(b)[i] == url_char(sextet_at(b, i)));
            assert(i / 4 == group);
            lemma_url_char_injective(sextet_at(a, i), sextet_at(b, i));
        }
        assert(sextet_at(a, 4 * group) == sextet_at(b, 4 * group));
        assert(sextet_at(a, 4 * group + 1) == sextet_at(b, 4 * group + 1));
        if k % 3 == 1 {
            assert(sextet_at(a, 4 * group + 2) == sextet_at(b, 4 * group + 2));
        }
        if k % 3 == 2 {
            assert(sextet_at(a, 4 * group + 2) == sextet_at(b, 4 * group + 2));
            assert(sextet_at(a, 4 * group + 3) == sextet_at(b, 4 * group + 3));
        }
    }
    assert(a =~= b);
}

/// Decoding undoes encoding.
pub proof fn lemma_base64url_round_trip(bytes: Seq<u8>)
    ensures
        base64url_bytes(base64url(bytes)) == Some(bytes),
{
    let text = base64url(bytes);
    let chosen = choose|b: Seq<u8>| #[trigger] base64url(b) == text;
    assert(base64url(bytes) == text);
    lemma_base64url_injective(chosen, bytes);
}

} // verus!
