//! The outline of a JSON text: its arrays, its objects, and the key of every
//! member in the order of the text, repeated keys included.
//!
//! The text is cut into tokens, which leaves white space behind, and the tokens
//! are read by the grammar of JSON. What a literal holds is for `serde_json` to
//! say.

use vstd::prelude::*;
use vstd::slice::slice_subrange;

use crate::document::nests_within;
use crate::json::{Json, Members, Shape, json_of, shape_of};

verus! {

/// A token of a JSON text: a structural character, or a literal as it is written.
#[verifier::ext_equal]
pub enum Token {
    Symbol(u8),
    Literal(Seq<u8>),
}

/// A token of a JSON text, in executable form.
pub enum Lexeme<'a> {
    Symbol(u8),
    Literal(&'a [u8]),
}

impl<'a> View for Lexeme<'a> {
    type V = Token;

    open spec fn view(&self) -> Token {
        match self {
            Lexeme::Symbol(symbol) => Token::Symbol(*symbol),
            Lexeme::Literal(literal) => Token::Literal(literal@),
        }
    }
}

/// The outline of a JSON value as it is written.
#[verifier::ext_equal]
pub enum Tree {
    /// A string, a number, a truth value or null.
    Scalar(Json),
    Array(Seq<Tree>),
    Object(Seq<(Seq<char>, Tree)>),
}

/// The outline of a JSON value as it is written, in executable form.
pub enum Outline {
    Scalar(serde_json::Value),
    Array(Vec<Outline>),
    Object(Vec<(String, Outline)>),
}

/// What an outline stands for.
pub open spec fn outline_tree(outline: Outline) -> Tree
    decreases outline,
{
    match outline {
        Outline::Scalar(value) => Tree::Scalar(json_of(value)),
        Outline::Array(elements) => Tree::Array(
            Seq::new(
                elements@.len(),
                |i: int|
                    if 0 <= i < elements@.len() {
                        outline_tree(elements@[i])
                    } else {
                        Tree::Scalar(Json::Null)
                    },
            ),
        ),
        Outline::Object(members) => Tree::Object(
            Seq::new(
                members@.len(),
                |i: int|
                    (
                        members@[i].0@,
                        if 0 <= i < members@.len() {
                            outline_tree(members@[i].1)
                        } else {
                            Tree::Scalar(Json::Null)
                        },
                    ),
            ),
        ),
    }
}

impl View for Outline {
    type V = Tree;

    open spec fn view(&self) -> Tree {
        outline_tree(*self)
    }
}

/// The tokens that a run of lexemes stands for.
pub open spec fn token_views(lexemes: Seq<Lexeme<'_>>) -> Seq<Token> {
    lexemes.map_values(|l: Lexeme<'_>| l@)
}

/// The outlines that a run of elements stands for.
pub open spec fn trees(elements: Seq<Outline>) -> Seq<Tree> {
    elements.map_values(|e: Outline| e@)
}

/// The keys and outlines that a run of members stands for.
pub open spec fn keyed_trees(members: Seq<(String, Outline)>) -> Seq<(Seq<char>, Tree)> {
    members.map_values(|m: (String, Outline)| (m.0@, m.1@))
}

proof fn lemma_view_array(outline: Outline)
    requires
        outline is Array,
    ensures
        outline@ == Tree::Array(trees(outline->Array_0@)),
{
    assert(outline@->Array_0 =~= trees(outline->Array_0@));
}

proof fn lemma_view_object(outline: Outline)
    requires
        outline is Object,
    ensures
        outline@ == Tree::Object(keyed_trees(outline->Object_0@)),
{
    assert(outline@->Object_0 =~= keyed_trees(outline->Object_0@));
}

/// The value of a JSON literal.
pub uninterp spec fn literal_json(literal: Seq<u8>) -> Option<Json>;

/// `serde_json::from_slice` into a `serde_json::Value`: what the bytes hold, if
/// they hold one JSON value and nothing else.
#[verifier::external_body]
fn read_literal(literal: &[u8]) -> (value: Result<serde_json::Value, serde_json::Error>)
    ensures
        match value {
            Ok(v) => literal_json(literal@) == Some(json_of(v)),
            Err(_) => literal_json(literal@) is None,
        },
{
    serde_json::from_slice(literal)
}

/// White space between the tokens of a JSON text.
pub open spec fn is_space(byte: u8) -> bool {
    byte == 0x20 || byte == 0x09 || byte == 0x0A || byte == 0x0D
}

/// A structural character: a brace, a bracket, a comma or a colon.
pub open spec fn is_symbol(byte: u8) -> bool {
    byte == 0x7B || byte == 0x7D || byte == 0x5B || byte == 0x5D || byte == 0x2C || byte == 0x3A
}

/// A byte that a literal goes on with, if it is not a string.
pub open spec fn is_word(byte: u8) -> bool {
    !is_space(byte) && !is_symbol(byte) && byte != 0x22
}

/// Where the string ends whose inside goes on at `start`: behind the next
/// quotation mark without a backslash before it.
pub open spec fn string_end(text: Seq<u8>, start: int) -> Option<int>
    decreases text.len() - start,
{
    if start >= text.len() {
        None
    } else if text[start] == 0x22 {
        Some(start + 1)
    } else if text[start] == 0x5C {
        if start + 1 < text.len() {
            string_end(text, start + 2)
        } else {
            None
        }
    } else {
        string_end(text, start + 1)
    }
}

/// Where the word ends that goes on at `start`.
pub open spec fn word_end(text: Seq<u8>, start: int) -> int
    decreases text.len() - start,
{
    if start < text.len() && is_word(text[start]) {
        word_end(text, start + 1)
    } else {
        start
    }
}

/// Where the literal ends that begins at `start`.
pub open spec fn literal_end(text: Seq<u8>, start: int) -> Option<int> {
    if text[start] == 0x22 {
        string_end(text, start + 1)
    } else {
        Some(word_end(text, start + 1))
    }
}

/// The tokens with more of them behind, if there are any to come.
pub open spec fn followed_by(tokens: Seq<Token>, more: Option<Seq<Token>>) -> Option<Seq<Token>> {
    match more {
        Some(rest) => Some(tokens + rest),
        None => None,
    }
}

/// The tokens of `text` from `start` on. There are none where a string has no end.
pub open spec fn tokens_from(text: Seq<u8>, start: int) -> Option<Seq<Token>>
    decreases text.len() - start,
{
    if start >= text.len() {
        Some(Seq::empty())
    } else if is_space(text[start]) {
        tokens_from(text, start + 1)
    } else if is_symbol(text[start]) {
        followed_by(seq![Token::Symbol(text[start])], tokens_from(text, start + 1))
    } else {
        match literal_end(text, start) {
            Some(end) => if start < end <= text.len() {
                followed_by(seq![Token::Literal(text.subrange(start, end))], tokens_from(text, end))
            } else {
                None
            },
            None => None,
        }
    }
}

/// The tokens of a text.
pub open spec fn tokens_of(text: Seq<u8>) -> Option<Seq<Token>> {
    tokens_from(text, 0)
}

/// The value of a literal that is no array or object.
pub open spec fn scalar_of(literal: Seq<u8>) -> Option<Json> {
    match literal_json(literal) {
        Some(json) => if json is Array || json is Object {
            None
        } else {
            Some(json)
        },
        None => None,
    }
}

/// The key that a literal stands for.
pub open spec fn key_of(literal: Seq<u8>) -> Option<Seq<char>> {
    match literal_json(literal) {
        Some(Json::Text(key)) => Some(key),
        _ => None,
    }
}

/// The symbol stands at `index`.
pub open spec fn symbol_at(tokens: Seq<Token>, index: int, symbol: u8) -> bool {
    0 <= index < tokens.len() && tokens[index] == Token::Symbol(symbol)
}

/// The outline of the value that begins at `start`, and where it ends.
pub open spec fn value_at(tokens: Seq<Token>, start: int) -> Option<(Tree, int)>
    decreases tokens.len() - start, 0nat,
{
    if !(0 <= start < tokens.len()) {
        None
    } else {
        match tokens[start] {
            Token::Literal(literal) => match scalar_of(literal) {
                Some(json) => Some((Tree::Scalar(json), start + 1)),
                None => None,
            },
            Token::Symbol(symbol) => if symbol == 0x5B {
                if symbol_at(tokens, start + 1, 0x5D) {
                    Some((Tree::Array(Seq::empty()), start + 2))
                } else {
                    match elements_at(tokens, start + 1) {
                        Some((elements, end)) => Some((Tree::Array(elements), end)),
                        None => None,
                    }
                }
            } else if symbol == 0x7B {
                if symbol_at(tokens, start + 1, 0x7D) {
                    Some((Tree::Object(Seq::empty()), start + 2))
                } else {
                    match members_at(tokens, start + 1) {
                        Some((members, end)) => Some((Tree::Object(members), end)),
                        None => None,
                    }
                }
            } else {
                None
            },
        }
    }
}

/// The elements of an array from the one on that begins at `start`, and where the
/// array ends.
pub open spec fn elements_at(tokens: Seq<Token>, start: int) -> Option<(Seq<Tree>, int)>
    decreases tokens.len() - start, 1nat,
{
    match value_at(tokens, start) {
        Some((tree, next)) => if !(start < next < tokens.len()) {
            None
        } else if symbol_at(tokens, next, 0x5D) {
            Some((seq![tree], next + 1))
        } else if symbol_at(tokens, next, 0x2C) {
            match elements_at(tokens, next + 1) {
                Some((more, end)) => Some((seq![tree] + more, end)),
                None => None,
            }
        } else {
            None
        },
        None => None,
    }
}

/// The member that begins at `start`, and where it ends.
pub open spec fn member_at(tokens: Seq<Token>, start: int) -> Option<((Seq<char>, Tree), int)>
    decreases tokens.len() - start, 1nat,
{
    if !(0 <= start < tokens.len()) || tokens[start] !is Literal || !symbol_at(tokens, start + 1, 0x3A) {
        None
    } else {
        match (key_of(tokens[start]->Literal_0), value_at(tokens, start + 2)) {
            (Some(key), Some((tree, end))) => Some(((key, tree), end)),
            _ => None,
        }
    }
}

/// The members of an object from the one on that begins at `start`, and where the
/// object ends.
pub open spec fn members_at(tokens: Seq<Token>, start: int) -> Option<(Seq<(Seq<char>, Tree)>, int)>
    decreases tokens.len() - start, 2nat,
{
    match member_at(tokens, start) {
        Some((member, next)) => if !(start < next < tokens.len()) {
            None
        } else if symbol_at(tokens, next, 0x7D) {
            Some((seq![member], next + 1))
        } else if symbol_at(tokens, next, 0x2C) {
            match members_at(tokens, next + 1) {
                Some((more, end)) => Some((seq![member] + more, end)),
                None => None,
            }
        } else {
            None
        },
        None => None,
    }
}

/// The outline of the JSON value that `text` holds, if it holds one and nothing
/// else.
pub open spec fn tree_of(text: Seq<u8>) -> Option<Tree> {
    match tokens_of(text) {
        Some(tokens) => match value_at(tokens, 0) {
            Some((tree, end)) => if end == tokens.len() {
                Some(tree)
            } else {
                None
            },
            None => None,
        },
        None => None,
    }
}

/// The value that an outline stands for. Of members with one key the last counts.
pub open spec fn tree_json(tree: Tree) -> Json
    decreases tree, 0nat,
{
    match tree {
        Tree::Scalar(json) => json,
        Tree::Array(elements) => Json::Array(
            Seq::new(
                elements.len(),
                |i: int|
                    if 0 <= i < elements.len() {
                        tree_json(elements[i])
                    } else {
                        Json::Null
                    },
            ),
        ),
        Tree::Object(members) => Json::Object(first_members(members, members.len())),
    }
}

/// What the first `count` members stand for.
pub open spec fn first_members(members: Seq<(Seq<char>, Tree)>, count: nat) -> Members
    decreases members, count,
{
    if count == 0 || count > members.len() {
        Members::empty()
    } else {
        first_members(members, (count - 1) as nat).insert(
            members[count - 1].0,
            tree_json(members[count - 1].1),
        )
    }
}

/// Arrays and objects nest at most `depth` deep in the outline.
pub open spec fn tree_nests(tree: Tree, depth: nat) -> bool
    decreases tree,
{
    match tree {
        Tree::Scalar(json) => nests_within(json, depth),
        Tree::Array(elements) => depth > 0 && forall|i: int|
            0 <= i < elements.len() ==> tree_nests(#[trigger] elements[i], (depth - 1) as nat),
        Tree::Object(members) => depth > 0 && forall|i: int|
            0 <= i < members.len() ==> tree_nests((#[trigger] members[i]).1, (depth - 1) as nat),
    }
}

/// Each of the first members is that of some key in the outline.
pub proof fn lemma_first_members(members: Seq<(Seq<char>, Tree)>, count: nat, key: Seq<char>)
    requires
        count <= members.len(),
        first_members(members, count).contains_key(key),
    ensures
        exists|i: int|
            0 <= i < count && (#[trigger] members[i]).0 == key && first_members(members, count)[key] == tree_json(
                members[i].1,
            ),
    decreases count,
{
    let last = members[count - 1];
    if last.0 != key {
        lemma_first_members(members, (count - 1) as nat, key);
    }
}

/// A value nests no deeper than its outline.
pub proof fn lemma_tree_nests(tree: Tree, depth: nat)
    requires
        tree_nests(tree, depth),
    ensures
        nests_within(tree_json(tree), depth),
    decreases tree,
{
    let json = tree_json(tree);
    match tree {
        Tree::Scalar(_) => {},
        Tree::Array(elements) => {
            assert forall|i: int| 0 <= i < json->Array_0.len() implies nests_within(
                #[trigger] json->Array_0[i],
                (depth - 1) as nat,
            ) by {
                lemma_tree_nests(elements[i], (depth - 1) as nat);
            }
        },
        Tree::Object(members) => {
            assert forall|key: Seq<char>| #[trigger] json->Object_0.contains_key(key) implies nests_within(
                json->Object_0[key],
                (depth - 1) as nat,
            ) by {
                lemma_first_members(members, members.len(), key);
                let i = choose|i: int|
                    0 <= i < members.len() && (#[trigger] members[i]).0 == key && json->Object_0[key]
                        == tree_json(members[i].1);
                lemma_tree_nests(members[i].1, (depth - 1) as nat);
            }
        },
    }
}

/// Finds where the string ends whose inside goes on at `start`.
fn find_string_end(text: &[u8], start: usize) -> (end: Option<usize>)
    requires
        start <= text@.len(),
    ensures
        match end {
            Some(e) => string_end(text@, start as int) == Some(e as int) && start < e <= text@.len(),
            None => string_end(text@, start as int) is None,
        },
{
    let mut i: usize = start;
    while i < text.len()
        invariant
            start <= i <= text@.len(),
            string_end(text@, start as int) == string_end(text@, i as int),
        decreases text@.len() - i,
    {
        if text[i] == 0x22 {
            return Some(i + 1);
        } else if text[i] == 0x5C {
            if i + 1 == text.len() {
                return None;
            }
            i += 2;
        } else {
            i += 1;
        }
    }
    None
}

/// Finds where the word ends that goes on at `start`.
fn find_word_end(text: &[u8], start: usize) -> (end: usize)
    requires
        start <= text@.len(),
    ensures
        end == word_end(text@, start as int),
        start <= end <= text@.len(),
{
    let mut i: usize = start;
    while i < text.len() && is_word_byte(text[i])
        invariant
            start <= i <= text@.len(),
            word_end(text@, start as int) == word_end(text@, i as int),
        decreases text@.len() - i,
    {
        i += 1;
    }
    i
}

/// Whether the byte is white space.
fn is_space_byte(byte: u8) -> (space: bool)
    ensures
        space == is_space(byte),
{
    byte == 0x20 || byte == 0x09 || byte == 0x0A || byte == 0x0D
}

/// Whether the byte is a structural character.
fn is_symbol_byte(byte: u8) -> (symbol: bool)
    ensures
        symbol == is_symbol(byte),
{
    byte == 0x7B || byte == 0x7D || byte == 0x5B || byte == 0x5D || byte == 0x2C || byte == 0x3A
}

/// Whether a literal that is not a string goes on with the byte.
fn is_word_byte(byte: u8) -> (word: bool)
    ensures
        word == is_word(byte),
{
    !is_space_byte(byte) && !is_symbol_byte(byte) && byte != 0x22
}

/// Cuts a text into its tokens.
fn lex<'a>(text: &'a [u8]) -> (lexemes: Option<Vec<Lexeme<'a>>>)
    ensures
        match lexemes {
            Some(all) => tokens_of(text@) == Some(token_views(all@)),
            None => tokens_of(text@) is None,
        },
{
    let mut lexemes: Vec<Lexeme<'a>> = Vec::new();
    let mut i: usize = 0;
    proof {
        lemma_followed_by_nothing(token_views(lexemes@), tokens_of(text@));
    }
    while i < text.len()
        invariant
            i <= text@.len(),
            followed_by(token_views(lexemes@), tokens_from(text@, i as int)) == tokens_of(text@),
        decreases text@.len() - i,
    {
        let ghost before = token_views(lexemes@);
        if is_space_byte(text[i]) {
            i += 1;
        } else if is_symbol_byte(text[i]) {
            proof {
                lemma_followed_by(before, Token::Symbol(text@[i as int]), tokens_from(text@, i + 1));
            }
            lexemes.push(Lexeme::Symbol(text[i]));
            assert(token_views(lexemes@) =~= before.push(Token::Symbol(text@[i as int])));
            i += 1;
        } else {
            let end: usize = if text[i] == 0x22 {
                match find_string_end(text, i + 1) {
                    Some(end) => end,
                    None => {
                        return None;
                    },
                }
            } else {
                find_word_end(text, i + 1)
            };
            let literal = slice_subrange(text, i, end);
            proof {
                lemma_followed_by(before, Token::Literal(literal@), tokens_from(text@, end as int));
            }
            lexemes.push(Lexeme::Literal(literal));
            assert(token_views(lexemes@) =~= before.push(Token::Literal(literal@)));
            i = end;
        }
    }
    assert(token_views(lexemes@) + Seq::<Token>::empty() =~= token_views(lexemes@));
    Some(lexemes)
}

proof fn lemma_followed_by_nothing(tokens: Seq<Token>, more: Option<Seq<Token>>)
    requires
        tokens.len() == 0,
    ensures
        followed_by(tokens, more) == more,
{
    if let Some(rest) = more {
        assert(tokens + rest =~= rest);
    }
}

proof fn lemma_followed_by(tokens: Seq<Token>, token: Token, more: Option<Seq<Token>>)
    ensures
        followed_by(tokens, followed_by(seq![token], more)) == followed_by(tokens.push(token), more),
{
    if let Some(rest) = more {
        assert(tokens + (seq![token] + rest) =~= tokens.push(token) + rest);
    }
}

/// Whether the symbol stands at `index`.
fn has_symbol(lexemes: &[Lexeme<'_>], index: usize, symbol: u8) -> (found: bool)
    ensures
        found == symbol_at(token_views(lexemes@), index as int, symbol),
{
    if index < lexemes.len() {
        match &lexemes[index] {
            Lexeme::Symbol(s) => *s == symbol,
            Lexeme::Literal(_) => false,
        }
    } else {
        false
    }
}

/// Reads the outline of the JSON value that `text` holds.
pub(crate) fn outline(text: &[u8]) -> (read: Option<Outline>)
    ensures
        match read {
            Some(outline) => tree_of(text@) == Some(outline@),
            None => tree_of(text@) is None,
        },
{
    match lex(text) {
        Some(lexemes) => match read_value(lexemes.as_slice(), 0) {
            Some((outline, end)) => if end == lexemes.len() {
                Some(outline)
            } else {
                None
            },
            None => None,
        },
        None => None,
    }
}

/// Reads the value that begins at `start`.
fn read_value(lexemes: &[Lexeme<'_>], start: usize) -> (read: Option<(Outline, usize)>)
    ensures
        match read {
            Some((outline, end)) => value_at(token_views(lexemes@), start as int) == Some(
                (outline@, end as int),
            ) && start < end <= lexemes@.len(),
            None => value_at(token_views(lexemes@), start as int) is None,
        },
    decreases lexemes@.len() - start, 0nat,
{
    if start >= lexemes.len() {
        return None;
    }
    match &lexemes[start] {
        Lexeme::Literal(literal) => match read_literal(literal) {
            Ok(value) => {
                let scalar = match shape_of(&value) {
                    Shape::Array(_) => false,
                    Shape::Object(_) => false,
                    _ => true,
                };
                if scalar {
                    Some((Outline::Scalar(value), start + 1))
                } else {
                    None
                }
            },
            Err(_) => None,
        },
        Lexeme::Symbol(symbol) => if *symbol == 0x5B {
            if has_symbol(lexemes, start + 1, 0x5D) {
                let outline = Outline::Array(Vec::new());
                proof {
                    lemma_view_array(outline);
                    assert(trees(outline->Array_0@) =~= Seq::<Tree>::empty());
                }
                Some((outline, start + 2))
            } else {
                match read_elements(lexemes, start + 1) {
                    Some((elements, end)) => {
                        let outline = Outline::Array(elements);
                        proof {
                            lemma_view_array(outline);
                        }
                        Some((outline, end))
                    },
                    None => None,
                }
            }
        } else if *symbol == 0x7B {
            if has_symbol(lexemes, start + 1, 0x7D) {
                let outline = Outline::Object(Vec::new());
                proof {
                    lemma_view_object(outline);
                    assert(keyed_trees(outline->Object_0@) =~= Seq::<(Seq<char>, Tree)>::empty());
                }
                Some((outline, start + 2))
            } else {
                match read_members(lexemes, start + 1) {
                    Some((members, end)) => {
                        let outline = Outline::Object(members);
                        proof {
                            lemma_view_object(outline);
                        }
                        Some((outline, end))
                    },
                    None => None,
                }
            }
        } else {
            None
        },
    }
}

/// Reads the elements of an array from the one on that begins at `start`.
fn read_elements(lexemes: &[Lexeme<'_>], start: usize) -> (read: Option<(Vec<Outline>, usize)>)
    requires
        start <= lexemes@.len(),
    ensures
        match read {
            Some((elements, end)) => elements_at(token_views(lexemes@), start as int) == Some(
                (trees(elements@), end as int),
            ) && start < end <= lexemes@.len(),
            None => elements_at(token_views(lexemes@), start as int) is None,
        },
    decreases lexemes@.len() - start, 1nat,
{
    let ghost tokens = token_views(lexemes@);
    let mut elements: Vec<Outline> = Vec::new();
    let mut at: usize = start;
    assert(trees(elements@) =~= Seq::<Tree>::empty());
    assert forall|more: Seq<Tree>| trees(elements@) + more == more by {
        assert(trees(elements@) + more =~= more);
    }
    loop
        invariant
            tokens == token_views(lexemes@),
            start <= at <= lexemes@.len(),
            match elements_at(tokens, at as int) {
                Some((more, end)) => elements_at(tokens, start as int) == Some((trees(elements@) + more, end)),
                None => elements_at(tokens, start as int) is None,
            },
        decreases lexemes@.len() - at,
    {
        match read_value(lexemes, at) {
            Some((element, next)) => {
                let ghost before = trees(elements@);
                let ghost tree = element@;
                elements.push(element);
                assert(trees(elements@) =~= before + seq![tree]);
                if next >= lexemes.len() {
                    return None;
                }
                if has_symbol(lexemes, next, 0x5D) {
                    return Some((elements, next + 1));
                }
                if !has_symbol(lexemes, next, 0x2C) {
                    return None;
                }
                assert forall|more: Seq<Tree>| before + (seq![tree] + more) == trees(elements@) + more by {
                    assert(before + (seq![tree] + more) =~= trees(elements@) + more);
                }
                at = next + 1;
            },
            None => {
                return None;
            },
        }
    }
}

/// Reads the member that begins at `start`.
fn read_member(lexemes: &[Lexeme<'_>], start: usize) -> (read: Option<((String, Outline), usize)>)
    requires
        start <= lexemes@.len(),
    ensures
        match read {
            Some(((key, outline), end)) => member_at(token_views(lexemes@), start as int) == Some(
                ((key@, outline@), end as int),
            ) && start < end <= lexemes@.len(),
            None => member_at(token_views(lexemes@), start as int) is None,
        },
    decreases lexemes@.len() - start, 1nat,
{
    if start >= lexemes.len() || !has_symbol(lexemes, start + 1, 0x3A) {
        return None;
    }
    let key = match &lexemes[start] {
        Lexeme::Literal(literal) => match read_literal(literal) {
            Ok(value) => match shape_of(&value) {
                Shape::Text(key) => key.clone(),
                _ => {
                    return None;
                },
            },
            Err(_) => {
                return None;
            },
        },
        Lexeme::Symbol(_) => {
            return None;
        },
    };
    match read_value(lexemes, start + 2) {
        Some((outline, end)) => Some(((key, outline), end)),
        None => None,
    }
}

/// Reads the members of an object from the one on that begins at `start`.
fn read_members(lexemes: &[Lexeme<'_>], start: usize) -> (read: Option<(Vec<(String, Outline)>, usize)>)
    requires
        start <= lexemes@.len(),
    ensures
        match read {
            Some((members, end)) => members_at(token_views(lexemes@), start as int) == Some(
                (keyed_trees(members@), end as int),
            ) && start < end <= lexemes@.len(),
            None => members_at(token_views(lexemes@), start as int) is None,
        },
    decreases lexemes@.len() - start, 2nat,
{
    let ghost tokens = token_views(lexemes@);
    let mut members: Vec<(String, Outline)> = Vec::new();
    let mut at: usize = start;
    assert(keyed_trees(members@) =~= Seq::<(Seq<char>, Tree)>::empty());
    assert forall|more: Seq<(Seq<char>, Tree)>| keyed_trees(members@) + more == more by {
        assert(keyed_trees(members@) + more =~= more);
    }
    loop
        invariant
            tokens == token_views(lexemes@),
            start <= at <= lexemes@.len(),
            match members_at(tokens, at as int) {
                Some((more, end)) => members_at(tokens, start as int) == Some(
                    (keyed_trees(members@) + more, end),
                ),
                None => members_at(tokens, start as int) is None,
            },
        decreases lexemes@.len() - at,
    {
        match read_member(lexemes, at) {
            Some((member, next)) => {
                let ghost before = keyed_trees(members@);
                let ghost pair = (member.0@, member.1@);
                members.push(member);
                assert(keyed_trees(members@) =~= before + seq![pair]);
                if next >= lexemes.len() {
                    return None;
                }
                if has_symbol(lexemes, next, 0x7D) {
                    return Some((members, next + 1));
                }
                if !has_symbol(lexemes, next, 0x2C) {
                    return None;
                }
                assert forall|more: Seq<(Seq<char>, Tree)>| before + (seq![pair] + more) == keyed_trees(members@)
                    + more by {
                    assert(before + (seq![pair] + more) =~= keyed_trees(members@) + more);
                }
                at = next + 1;
            },
            None => {
                return None;
            },
        }
    }
}

/// Some object in the outline, at whatever depth, has two members of one name.
pub open spec fn repeats_key(tree: Tree) -> bool
    decreases tree,
{
    match tree {
        Tree::Scalar(_) => false,
        Tree::Array(elements) => exists|i: int| 0 <= i < elements.len() && repeats_key(#[trigger] elements[i]),
        Tree::Object(members) => {
            ||| exists|i: int, j: int|
                0 <= i < j < members.len() && (#[trigger] members[i]).0 == (#[trigger] members[j]).0
            ||| exists|i: int| 0 <= i < members.len() && repeats_key((#[trigger] members[i]).1)
        },
    }
}

/// An earlier member has the name of member `index`.
pub open spec fn is_repeat(members: Seq<(Seq<char>, Tree)>, index: int) -> bool {
    exists|i: int| 0 <= i < index && (#[trigger] members[i]).0 == members[index].0
}

/// The first key, in the order of the text, that repeats an earlier one of its
/// own object.
pub open spec fn first_repeat(tree: Tree) -> Option<Seq<char>>
    decreases tree, 0nat,
{
    match tree {
        Tree::Scalar(_) => None,
        Tree::Array(elements) => first_repeat_in_elements(elements, 0),
        Tree::Object(members) => first_repeat_in_members(members, 0),
    }
}

/// The first repeated key in the elements from `start` on.
pub open spec fn first_repeat_in_elements(elements: Seq<Tree>, start: nat) -> Option<Seq<char>>
    decreases elements, elements.len() - start,
{
    if start >= elements.len() {
        None
    } else {
        match first_repeat(elements[start as int]) {
            Some(key) => Some(key),
            None => first_repeat_in_elements(elements, start + 1),
        }
    }
}

/// The first repeated key in the members from `start` on, where the members
/// before `start` are known.
pub open spec fn first_repeat_in_members(members: Seq<(Seq<char>, Tree)>, start: nat) -> Option<Seq<char>>
    decreases members, members.len() - start,
{
    if start >= members.len() {
        None
    } else if is_repeat(members, start as int) {
        Some(members[start as int].0)
    } else {
        match first_repeat(members[start as int].1) {
            Some(key) => Some(key),
            None => first_repeat_in_members(members, start + 1),
        }
    }
}

/// There is a first repeated key exactly where some object repeats a key.
pub proof fn lemma_first_repeat(tree: Tree)
    ensures
        first_repeat(tree) is Some <==> repeats_key(tree),
    decreases tree, 0nat,
{
    match tree {
        Tree::Scalar(_) => {},
        Tree::Array(elements) => {
            lemma_first_repeat_in_elements(elements, 0);
        },
        Tree::Object(members) => {
            lemma_first_repeat_in_members(members, 0);
        },
    }
}

proof fn lemma_first_repeat_in_elements(elements: Seq<Tree>, start: nat)
    ensures
        first_repeat_in_elements(elements, start) is Some <==> exists|i: int|
            start <= i < elements.len() && repeats_key(#[trigger] elements[i]),
    decreases elements, elements.len() - start,
{
    if start < elements.len() {
        lemma_first_repeat(elements[start as int]);
        lemma_first_repeat_in_elements(elements, start + 1);
    }
}

proof fn lemma_first_repeat_in_members(members: Seq<(Seq<char>, Tree)>, start: nat)
    ensures
        first_repeat_in_members(members, start) is Some <==> exists|i: int|
            start <= i < members.len() && (is_repeat(members, i) || repeats_key((#[trigger] members[i]).1)),
    decreases members, members.len() - start,
{
    if start < members.len() {
        lemma_first_repeat(members[start as int].1);
        lemma_first_repeat_in_members(members, start + 1);
    }
}

/// The first key, in the order of the text, that repeats an earlier one of its
/// own object, if there is one.
pub fn first_duplicate_key(outline: &Outline) -> (found: Option<&String>)
    ensures
        match found {
            Some(key) => first_repeat(outline@) == Some(key@),
            None => first_repeat(outline@) is None,
        },
        found is Some <==> repeats_key(outline@),
    decreases outline,
{
    proof {
        lemma_first_repeat(outline@);
    }
    match outline {
        Outline::Scalar(_) => None,
        Outline::Array(elements) => {
            let ghost all = trees(elements@);
            proof {
                lemma_view_array(*outline);
            }
            let mut i: usize = 0;
            while i < elements.len()
                invariant
                    i <= elements@.len(),
                    *outline == Outline::Array(*elements),
                    all == trees(elements@),
                    first_repeat(outline@) is Some <==> repeats_key(outline@),
                    first_repeat(outline@) == first_repeat_in_elements(all, i as nat),
                decreases elements@.len() - i,
            {
                assert(all[i as int] == elements@[i as int]@);
                match first_duplicate_key(&elements[i]) {
                    Some(key) => {
                        return Some(key);
                    },
                    None => {},
                }
                i += 1;
            }
            None
        },
        Outline::Object(members) => {
            let ghost all = keyed_trees(members@);
            proof {
                lemma_view_object(*outline);
            }
            let mut i: usize = 0;
            while i < members.len()
                invariant
                    i <= members@.len(),
                    *outline == Outline::Object(*members),
                    all == keyed_trees(members@),
                    first_repeat(outline@) is Some <==> repeats_key(outline@),
                    first_repeat(outline@) == first_repeat_in_members(all, i as nat),
                decreases members@.len() - i,
            {
                assert(all[i as int] == (members@[i as int].0@, members@[i as int].1@));
                if has_earlier(members, i) {
                    return Some(&members[i].0);
                }
                match first_duplicate_key(&members[i].1) {
                    Some(key) => {
                        return Some(key);
                    },
                    None => {},
                }
                i += 1;
            }
            None
        },
    }
}

/// Whether an earlier member has the name of member `index`.
fn has_earlier(members: &Vec<(String, Outline)>, index: usize) -> (found: bool)
    requires
        index < members@.len(),
    ensures
        found == is_repeat(keyed_trees(members@), index as int),
{
    let ghost all = keyed_trees(members@);
    let mut j: usize = 0;
    while j < index
        invariant
            j <= index < members@.len(),
            all == keyed_trees(members@),
            forall|k: int| 0 <= k < j ==> (#[trigger] all[k]).0 != all[index as int].0,
        decreases index - j,
    {
        assert(all[j as int].0 == members@[j as int].0@);
        assert(all[index as int].0 == members@[index as int].0@);
        if members[j].0 == members[index].0 {
            return true;
        }
        j += 1;
    }
    false
}

} // verus!
