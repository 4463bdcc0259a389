//! The canonical form of a document, which is what a signature covers.

use vstd::arithmetic::power2::pow2;
use vstd::prelude::*;
use vstd::slice::slice_to_vec;
use vstd::utf8::encode_utf8;

use crate::json::{Json, JsonNumber, JsonObject, Members, Shape, json_of, members_of, number_as_i128, object_entries, object_get_mut, object_remove, shape_json, shape_of, value_as_object_mut};
use crate::outline::{tree_json, tree_of};

verus! {

/// The member that holds the signature block.
pub const SIGNATURE_FIELD: &'static str = "_signature";

/// The member of the signature block that holds the signature itself.
pub const SIG_FIELD: &'static str = "sig";

/// The largest integer that every JSON reader holds exactly.
pub const MAX_SAFE_INTEGER: i128 = 9007199254740991;

/// Why a document has no canonical form.
#[derive(Clone, Copy, Debug, PartialEq, Eq, Structural)]
pub enum CanonicalizeError {
    /// An integer lies outside the range that every JSON reader holds exactly.
    UnsafeInteger,
}

/// No integer in the value lies outside the range that every JSON reader holds
/// exactly.
pub open spec fn safe_integers(json: Json) -> bool
    decreases json,
{
    match json {
        Json::Number(JsonNumber::Integer(i)) => is_safe(i),
        Json::Array(elements) => forall|i: int| 0 <= i < elements.len() ==> safe_integers(#[trigger] elements[i]),
        Json::Object(members) => forall|key: Seq<char>| #[trigger]
            members.contains_key(key) ==> safe_integers(members[key]),
        _ => true,
    }
}

/// The integer lies in the range that every JSON reader holds exactly.
pub open spec fn is_safe(integer: int) -> bool {
    -MAX_SAFE_INTEGER <= integer <= MAX_SAFE_INTEGER
}

/// The exponent in the bits of a 64-bit float.
pub open spec fn exponent_of(bits: u64) -> int {
    bits as int / 0x10000000000000 % 2048
}

/// The digits behind the leading one in the bits of a 64-bit float.
pub open spec fn mantissa_of(bits: u64) -> int {
    bits as int % 0x10000000000000
}

/// The 64-bit float with these bits is no whole number: it is neither zero nor one
/// whose digits behind the point are all zero.
pub open spec fn has_fraction(bits: u64) -> bool {
    if exponent_of(bits) < 1023 {
        exponent_of(bits) > 0 || mantissa_of(bits) > 0
    } else {
        exponent_of(bits) < 1075 && mantissa_of(bits) % pow2((1075 - exponent_of(bits)) as nat) as int != 0
    }
}

/// The value of the 64-bit float with these bits, if it is a whole number.
pub open spec fn whole_value(bits: u64) -> int {
    let digits = 0x10000000000000 + mantissa_of(bits);
    let size = if exponent_of(bits) < 1023 {
        0
    } else if exponent_of(bits) < 1075 {
        digits / pow2((1075 - exponent_of(bits)) as nat) as int
    } else {
        digits * pow2((exponent_of(bits) - 1075) as nat)
    };
    if bits >= 0x8000000000000000 {
        -size
    } else {
        size
    }
}

/// Among the whole numbers with this exponent and mantissa and their neighbours
/// that a 64-bit float can hold, the one that is nearest to `size` is this one: it
/// is less than half a gap away, or just half a gap and the mantissa is even. The
/// gap below a power of two is half as wide.
pub open spec fn is_nearest(size: int, exponent: int, mantissa: int) -> bool {
    let gap = pow2((exponent - 1075) as nat) as int;
    let value = (0x10000000000000 + mantissa) * gap;
    let distance = if size >= value {
        2 * (size - value)
    } else if mantissa > 0 {
        2 * (value - size)
    } else {
        4 * (value - size)
    };
    distance < gap || distance == gap && mantissa % 2 == 0
}

/// The integer rounds to the float with these bits, which lies beyond the safe
/// range.
pub open spec fn rounds_to(integer: int, bits: u64) -> bool {
    &&& integer < 0 <==> bits >= 0x8000000000000000
    &&& is_nearest(
        if integer < 0 {
            -integer
        } else {
            integer
        },
        exponent_of(bits),
        mantissa_of(bits),
    )
}

/// A number that was written reads as this one: as itself, but for a float without
/// a fraction. That is written as an integer where it is in the safe range. Beyond
/// it, it may be written as some integer beyond it that rounds to the float.
pub open spec fn number_reads_as(read: JsonNumber, written: JsonNumber) -> bool {
    match written {
        JsonNumber::Integer(_) => read == written,
        JsonNumber::Float(bits) => if has_fraction(bits) {
            read == written
        } else if is_safe(whole_value(bits)) {
            read == JsonNumber::Integer(whole_value(bits))
        } else {
            read == written || read is Integer && !is_safe(read->Integer_0) && rounds_to(read->Integer_0, bits)
        },
    }
}

/// A value that was written reads as this one: as itself, but for floats without a
/// fraction.
pub open spec fn reads_as(read: Json, written: Json) -> bool
    decreases written,
{
    match (read, written) {
        (Json::Number(r), Json::Number(w)) => number_reads_as(r, w),
        (Json::Array(r), Json::Array(w)) => r.len() == w.len() && forall|i: int|
            0 <= i < w.len() ==> reads_as(r[i], #[trigger] w[i]),
        (Json::Object(r), Json::Object(w)) => r.dom() == w.dom() && forall|key: Seq<char>| #[trigger]
            w.contains_key(key) ==> reads_as(r[key], w[key]),
        _ => written !is Number && written !is Array && written !is Object && read == written,
    }
}

/// What a signature covers: the whole document, except for the `sig` value of
/// the signature block.
pub open spec fn signed_part(members: Members) -> Members {
    if members.contains_key(SIGNATURE_FIELD@) && members[SIGNATURE_FIELD@] is Object {
        members.insert(
            SIGNATURE_FIELD@,
            Json::Object(members[SIGNATURE_FIELD@]->Object_0.remove(SIG_FIELD@)),
        )
    } else {
        members
    }
}

/// The canonical text of an object by RFC 8785.
pub uninterp spec fn canonical_text(members: Members) -> Seq<char>;

/// The bytes that a signature of the document is made over.
pub open spec fn signed_bytes(members: Members) -> Seq<u8> {
    encode_utf8(canonical_text(signed_part(members)))
}

/// The bytes that a signature is made over are the text of what it covers.
pub open spec fn reads_back(members: Members) -> bool {
    tree_of(signed_bytes(members)) is Some && reads_as(
        tree_json(tree_of(signed_bytes(members))->Some_0),
        Json::Object(signed_part(members)),
    )
}

/// `json_canon::to_string`: the canonical text of RFC 8785, which depends on
/// the members alone and not on their order. It refuses nothing but integers
/// outside the safe range; on the smallest 64-bit integer its test of the range
/// overflows, so such documents are kept away from it. The text is JSON that
/// stands for the members. Integers, and floats in the safe range without a
/// fraction, are written digit by digit, so that 1.0 and 1 have the same text.
/// Other floats are written by the shortest digits that read back as them. Where
/// these make an integer, it rounds to the float.
#[verifier::external_body]
fn canonical_string(object: JsonObject) -> (text: Result<String, serde_json::Error>)
    requires
        safe_integers(Json::Object(members_of(object))),
    ensures
        text is Ok,
        text->Ok_0@ == canonical_text(members_of(object)),
        tree_of(encode_utf8(text->Ok_0@)) is Some,
        reads_as(tree_json(tree_of(encode_utf8(text->Ok_0@))->Some_0), Json::Object(members_of(object))),
{
    json_canon::to_string(&serde_json::Value::Object(object))
}

/// Whether every integer in the value is safe.
fn has_safe_integers(value: &serde_json::Value) -> (safe: bool)
    ensures
        safe == safe_integers(json_of(*value)),
    decreases json_of(*value), 1nat,
{
    let shape = shape_of(value);
    match shape {
        Shape::Number(number) => match number_as_i128(number) {
            Some(i) => -MAX_SAFE_INTEGER <= i && i <= MAX_SAFE_INTEGER,
            None => true,
        },
        Shape::Array(elements) => {
            let mut i: usize = 0;
            while i < elements.len()
                invariant
                    json_of(*value) == shape_json(Shape::Array(elements)),
                    i <= elements@.len(),
                    forall|j: int| 0 <= j < i ==> safe_integers(json_of(#[trigger] elements@[j])),
                decreases elements@.len() - i,
            {
                let ghost json = json_of(*value);
                assert(json->Array_0[i as int] == json_of(elements@[i as int]));
                assert(decreases_to!(json => json->Array_0[i as int]));
                if !has_safe_integers(&elements[i]) {
                    return false;
                }
                i += 1;
            }
            true
        },
        Shape::Object(object) => members_have_safe_integers(object),
        _ => true,
    }
}

/// Whether every integer in the members of the object is safe.
fn members_have_safe_integers(object: &JsonObject) -> (safe: bool)
    ensures
        safe == safe_integers(Json::Object(members_of(*object))),
    decreases Json::Object(members_of(*object)), 0nat,
{
    let entries = object_entries(object);
    let ghost json = Json::Object(members_of(*object));
    let mut i: usize = 0;
    while i < entries.len()
        invariant
            json == Json::Object(members_of(*object)),
            forall|j: int|
                #![trigger entries@[j]]
                0 <= j < entries@.len() ==> members_of(*object).contains_key(entries@[j].0@)
                    && members_of(*object)[entries@[j].0@] == json_of(*entries@[j].1),
            i <= entries@.len(),
            forall|j: int| 0 <= j < i ==> safe_integers(json_of(*(#[trigger] entries@[j]).1)),
        decreases entries@.len() - i,
    {
        let ghost key = entries@[i as int].0@;
        assert(members_of(*object).contains_key(key));
        assert(decreases_to!(json => json->Object_0[key]));
        if !has_safe_integers(entries[i].1) {
            return false;
        }
        i += 1;
    }
    true
}

/// A copy of the document without the `sig` value of its signature block.
fn without_sig(object: &JsonObject) -> (stripped: JsonObject)
    ensures
        members_of(stripped) == signed_part(members_of(*object)),
{
    let mut stripped = object.clone();
    if let Some(block) = object_get_mut(&mut stripped, SIGNATURE_FIELD) {
        if let Some(fields) = value_as_object_mut(block) {
            let _ = object_remove(fields, SIG_FIELD);
        }
    }
    stripped
}

/// The canonical bytes of the document, with only the `sig` value left out of
/// its signature block. The rest of the block is part of the bytes.
pub fn canonicalize(object: &JsonObject) -> (bytes: Result<Vec<u8>, CanonicalizeError>)
    ensures
        match bytes {
            Ok(b) => safe_integers(Json::Object(signed_part(members_of(*object))))
                && b@ == signed_bytes(members_of(*object)) && reads_back(members_of(*object)),
            Err(CanonicalizeError::UnsafeInteger) => !safe_integers(
                Json::Object(signed_part(members_of(*object))),
            ),
        },
{
    let stripped = without_sig(object);
    if !members_have_safe_integers(&stripped) {
        return Err(CanonicalizeError::UnsafeInteger);
    }
    match canonical_string(stripped) {
        Ok(text) => Ok(slice_to_vec(text.as_str().as_bytes())),
        Err(_) => Err(CanonicalizeError::UnsafeInteger),
    }
}

} // verus!
