//! Documents as text: reading them, with repeated keys refused, and writing them.

use vstd::prelude::*;
use vstd::utf8::encode_utf8;

use crate::json::{Json, JsonObject, Members, members_of};
use crate::outline::{first_duplicate_key, first_repeat, lemma_first_repeat, lemma_tree_nests, outline, repeats_key, tree_json, tree_nests, tree_of};

verus! {

/// How deep arrays and objects may nest in a text that is read.
pub const MAX_NESTING: usize = 127;

/// Why a text is not accepted as a document.
#[derive(Debug)]
pub enum ParseError {
    /// The text is not a JSON object, for this reason.
    NotJson(String),
    /// An object in the text, at whatever depth, repeats this key.
    DuplicateKey(String),
}

/// Why a text is not accepted as a document.
pub enum ParseFailure {
    NotJson(Seq<char>),
    DuplicateKey(Seq<char>),
}

impl View for ParseError {
    type V = ParseFailure;

    open spec fn view(&self) -> ParseFailure {
        match self {
            ParseError::NotJson(reason) => ParseFailure::NotJson(reason@),
            ParseError::DuplicateKey(key) => ParseFailure::DuplicateKey(key@),
        }
    }
}

impl ParseError {
    /// What to tell the user.
    pub open spec fn text(&self) -> Seq<char> {
        match self {
            ParseError::NotJson(_) => "Config is not valid JSON"@,
            ParseError::DuplicateKey(_) => "Config contains duplicate object keys"@,
        }
    }

    /// What to tell the user.
    pub fn message(&self) -> (message: &'static str)
        ensures
            message@ == self.text(),
    {
        match self {
            ParseError::NotJson(_) => "Config is not valid JSON",
            ParseError::DuplicateKey(_) => "Config contains duplicate object keys",
        }
    }
}

/// Arrays and objects nest at most `depth` deep in the value.
pub open spec fn nests_within(json: Json, depth: nat) -> bool
    decreases depth,
{
    match json {
        Json::Array(elements) => depth > 0 && forall|i: int|
            0 <= i < elements.len() ==> nests_within(#[trigger] elements[i], (depth - 1) as nat),
        Json::Object(members) => depth > 0 && forall|key: Seq<char>| #[trigger]
            members.contains_key(key) ==> nests_within(members[key], (depth - 1) as nat),
        _ => true,
    }
}

/// The members of the JSON object that a text holds, if it holds one in which
/// arrays and objects nest no deeper than they may. Of a repeated key the last one
/// counts.
pub open spec fn parsed_object(text: Seq<char>) -> Option<Members> {
    match tree_of(encode_utf8(text)) {
        Some(tree) => if tree is Object && tree_nests(tree, MAX_NESTING as nat) {
            Some(tree_json(tree)->Object_0)
        } else {
            None
        },
        None => None,
    }
}

/// Why a text is not read as a JSON object, in words, with the place in the text.
pub uninterp spec fn refusal(text: Seq<char>) -> Seq<char>;

/// The text of an object with one member to a line.
pub uninterp spec fn pretty_text(members: Members) -> Seq<char>;

/// `serde_json::from_str` into a `serde_json::Map`: reads the text of a JSON
/// object whose arrays and objects nest at most 127 deep, and nothing else. White
/// space may stand between any two tokens. A literal holds what it holds when it
/// is read alone. Each member goes into a map, where one with the same key is
/// replaced. Of any other text it says why it is refused.
#[verifier::external_body]
fn read_object(text: &str) -> (object: Result<JsonObject, String>)
    ensures
        match object {
            Ok(m) => parsed_object(text@) == Some(members_of(m)),
            Err(reason) => parsed_object(text@) is None && reason@ == refusal(text@),
        },
{
    match serde_json::from_str(text) {
        Ok(object) => Ok(object),
        Err(e) => Err(e.to_string()),
    }
}

/// `serde_json::to_string_pretty`: never fails on an object, whose keys are
/// strings and whose floats are finite. The text depends on the members alone,
/// since `serde_json` keeps them sorted unless it is built with `preserve_order`,
/// and repeats no key in any object.
/// Read back, it gives the same members, unless they nest too deep to be read;
/// floats too, since `json_canon` builds `serde_json` with its `float_roundtrip`
/// feature.
#[verifier::external_body]
fn write_object(object: JsonObject) -> (text: Result<String, serde_json::Error>)
    ensures
        text is Ok,
        text->Ok_0@ == pretty_text(members_of(object)),
        nests_within(Json::Object(members_of(object)), MAX_NESTING as nat) ==> parsed_object(text->Ok_0@) == Some(
            members_of(object),
        ),
        tree_of(encode_utf8(text->Ok_0@)) is Some,
        !repeats_key(tree_of(encode_utf8(text->Ok_0@))->Some_0),
{
    serde_json::to_string_pretty(&serde_json::Value::Object(object))
}

/// What reading a text as a document comes to.
pub open spec fn parse_outcome(text: Seq<char>) -> Result<Members, ParseFailure> {
    match parsed_object(text) {
        None => Err(ParseFailure::NotJson(refusal(text))),
        Some(members) => match first_repeat(tree_of(encode_utf8(text))->Some_0) {
            Some(key) => Err(ParseFailure::DuplicateKey(key)),
            None => Ok(members),
        },
    }
}

/// Reads a text as a JSON object, and refuses it where an object repeats a key,
/// anywhere in the document.
pub fn parse_json_object(raw: &str) -> (object: Result<JsonObject, ParseError>)
    ensures
        match object {
            Ok(m) => parse_outcome(raw@) == Ok::<Members, ParseFailure>(members_of(m)) && nests_within(
                Json::Object(members_of(m)),
                MAX_NESTING as nat,
            ),
            Err(e) => parse_outcome(raw@) == Err::<Members, ParseFailure>(e@),
        },
{
    let object = match read_object(raw) {
        Ok(object) => object,
        Err(reason) => {
            return Err(ParseError::NotJson(reason));
        },
    };
    proof {
        lemma_tree_nests(tree_of(encode_utf8(raw@))->Some_0, MAX_NESTING as nat);
    }
    if let Some(outline) = outline(raw.as_bytes()) {
        if let Some(key) = first_duplicate_key(&outline) {
            return Err(ParseError::DuplicateKey(key.clone()));
        }
    }
    Ok(object)
}

/// Writes a document as text that reads back as the same document.
pub fn render_json_object(object: JsonObject) -> (text: Result<String, serde_json::Error>)
    ensures
        text is Ok,
        text->Ok_0@ == pretty_text(members_of(object)),
        nests_within(Json::Object(members_of(object)), MAX_NESTING as nat) ==> parse_outcome(text->Ok_0@) == Ok::<
            Members,
            ParseFailure,
        >(members_of(object)),
{
    let text = write_object(object);
    proof {
        lemma_first_repeat(tree_of(encode_utf8(text->Ok_0@))->Some_0);
    }
    text
}

} // verus!
