//! What the layout of a text has no influence on: white space between the tokens,
//! and the order of the members of an object.

use vstd::prelude::*;

use crate::outline::{Token, Tree, first_members, followed_by, is_space, is_symbol, is_word, lemma_first_members, literal_end, repeats_key, string_end, tokens_from, tokens_of, tree_json, tree_nests, tree_of, word_end};

verus! {

/// The two sequences are inverse orders of `count` things.
pub open spec fn is_order(order: Seq<int>, back: Seq<int>, count: nat) -> bool {
    &&& order.len() == count
    &&& back.len() == count
    &&& forall|i: int|
        #![trigger order[i]]
        0 <= i < count ==> 0 <= order[i] < count && back[order[i]] == i
    &&& forall|j: int|
        #![trigger back[j]]
        0 <= j < count ==> 0 <= back[j] < count && order[back[j]] == j
}

/// The outlines are the same up to the order of the members of their objects, at
/// every depth.
pub open spec fn reordered(a: Tree, b: Tree) -> bool
    decreases a,
{
    match (a, b) {
        (Tree::Scalar(x), Tree::Scalar(y)) => x == y,
        (Tree::Array(x), Tree::Array(y)) => x.len() == y.len() && forall|i: int|
            0 <= i < x.len() ==> reordered(#[trigger] x[i], y[i]),
        (Tree::Object(x), Tree::Object(y)) => exists|order: Seq<int>, back: Seq<int>| #[trigger]
            is_order(order, back, x.len()) && x.len() == y.len() && forall|i: int|
                0 <= i < x.len() ==> (#[trigger] x[i]).0 == y[order[i]].0 && reordered(x[i].1, y[order[i]].1),
        _ => false,
    }
}

/// No two members have the same key.
pub open spec fn keys_differ(members: Seq<(Seq<char>, Tree)>) -> bool {
    forall|i: int, j: int|
        #![trigger members[i], members[j]]
        0 <= i < j < members.len() ==> members[i].0 != members[j].0
}

/// Where no key is repeated, every member counts.
proof fn lemma_member_counts(members: Seq<(Seq<char>, Tree)>, count: nat, i: int)
    requires
        keys_differ(members),
        0 <= i < count <= members.len(),
    ensures
        first_members(members, count).contains_key(members[i].0),
        first_members(members, count)[members[i].0] == tree_json(members[i].1),
    decreases count,
{
    if i < count - 1 {
        lemma_member_counts(members, (count - 1) as nat, i);
        assert(members[i].0 != members[count - 1].0);
    }
}

/// The order of members is neither here nor there: outlines that are the same up
/// to it repeat a key alike, nest alike, and stand for the same value, if they
/// repeat no key.
pub proof fn lemma_reordered(a: Tree, b: Tree, depth: nat)
    requires
        reordered(a, b),
    ensures
        a is Object == b is Object,
        repeats_key(a) == repeats_key(b),
        tree_nests(a, depth) == tree_nests(b, depth),
        !repeats_key(a) ==> tree_json(a) == tree_json(b),
    decreases a,
{
    match (a, b) {
        (Tree::Array(x), Tree::Array(y)) => {
            let inner = if depth > 0 {
                (depth - 1) as nat
            } else {
                0
            };
            assert forall|i: int| 0 <= i < x.len() implies {
                &&& repeats_key(#[trigger] x[i]) == repeats_key(y[i])
                &&& tree_nests(x[i], inner) == tree_nests(y[i], inner)
                &&& !repeats_key(x[i]) ==> tree_json(x[i]) == tree_json(y[i])
            } by {
                lemma_reordered(x[i], y[i], inner);
            }
            if repeats_key(b) {
                let i = choose|i: int| 0 <= i < y.len() && repeats_key(#[trigger] y[i]);
                assert(repeats_key(x[i]));
            }
            if tree_nests(a, depth) {
                assert forall|i: int| 0 <= i < y.len() implies tree_nests(#[trigger] y[i], inner) by {
                    assert(tree_nests(x[i], inner));
                }
            }
            if !repeats_key(a) {
                assert forall|i: int| 0 <= i < x.len() implies tree_json(#[trigger] x[i]) == tree_json(y[i]) by {
                    assert(!repeats_key(x[i]));
                }
                assert(tree_json(a)->Array_0 =~= tree_json(b)->Array_0);
            }
        },
        (Tree::Object(x), Tree::Object(y)) => {
            lemma_reordered_members(x, y, depth);
        },
        _ => {},
    }
}

proof fn lemma_reordered_members(x: Seq<(Seq<char>, Tree)>, y: Seq<(Seq<char>, Tree)>, depth: nat)
    requires
        reordered(Tree::Object(x), Tree::Object(y)),
    ensures
        repeats_key(Tree::Object(x)) == repeats_key(Tree::Object(y)),
        tree_nests(Tree::Object(x), depth) == tree_nests(Tree::Object(y), depth),
        !repeats_key(Tree::Object(x)) ==> tree_json(Tree::Object(x)) == tree_json(Tree::Object(y)),
    decreases x,
{
    let a = Tree::Object(x);
    let b = Tree::Object(y);
    let inner = if depth > 0 {
        (depth - 1) as nat
    } else {
        0
    };
    let (order, back) = choose|order: Seq<int>, back: Seq<int>| #[trigger]
        is_order(order, back, x.len()) && x.len() == y.len() && forall|i: int|
            0 <= i < x.len() ==> (#[trigger] x[i]).0 == y[order[i]].0 && reordered(x[i].1, y[order[i]].1);
    assert forall|i: int| 0 <= i < x.len() implies {
        &&& (#[trigger] x[i]).0 == y[order[i]].0
        &&& repeats_key(x[i].1) == repeats_key(y[order[i]].1)
        &&& tree_nests(x[i].1, inner) == tree_nests(y[order[i]].1, inner)
        &&& !repeats_key(x[i].1) ==> tree_json(x[i].1) == tree_json(y[order[i]].1)
    } by {
        lemma_reordered(x[i].1, y[order[i]].1, inner);
    }
    assert forall|j: int| 0 <= j < y.len() implies {
        &&& (#[trigger] y[j]).0 == x[back[j]].0
        &&& repeats_key(y[j].1) == repeats_key(x[back[j]].1)
        &&& tree_nests(y[j].1, inner) == tree_nests(x[back[j]].1, inner)
        &&& !repeats_key(y[j].1) ==> tree_json(y[j].1) == tree_json(x[back[j]].1)
    } by {
        let i = back[j];
        assert(order[i] == j);
        assert(x[i].0 == y[order[i]].0);
    }
    if repeats_key(a) {
        lemma_repeat_moves(x, y, order, back);
    }
    if repeats_key(b) {
        lemma_repeat_moves(y, x, back, order);
    }
    if tree_nests(a, depth) {
        assert forall|j: int| 0 <= j < y.len() implies tree_nests((#[trigger] y[j]).1, inner) by {
            assert(tree_nests(x[back[j]].1, inner));
        }
    }
    if tree_nests(b, depth) {
        assert forall|i: int| 0 <= i < x.len() implies tree_nests((#[trigger] x[i]).1, inner) by {
            assert(tree_nests(y[order[i]].1, inner));
        }
    }
    if !repeats_key(a) {
        assert(!repeats_key(b));
        let all_x = first_members(x, x.len());
        let all_y = first_members(y, y.len());
        assert forall|key: Seq<char>| #[trigger] all_x.contains_key(key) implies all_y.contains_key(key)
            && all_y[key] == all_x[key] by {
            lemma_first_members(x, x.len(), key);
            let i = choose|i: int|
                0 <= i < x.len() && (#[trigger] x[i]).0 == key && all_x[key] == tree_json(x[i].1);
            lemma_member_counts(y, y.len(), order[i]);
            assert(!repeats_key(x[i].1));
        }
        assert forall|key: Seq<char>| #[trigger] all_y.contains_key(key) implies all_x.contains_key(key) by {
            lemma_first_members(y, y.len(), key);
            let j = choose|j: int|
                0 <= j < y.len() && (#[trigger] y[j]).0 == key && all_y[key] == tree_json(y[j].1);
            lemma_member_counts(x, x.len(), back[j]);
        }
        assert(all_x =~= all_y);
    }
}

proof fn lemma_repeat_moves(
    x: Seq<(Seq<char>, Tree)>,
    y: Seq<(Seq<char>, Tree)>,
    order: Seq<int>,
    back: Seq<int>,
)
    requires
        is_order(order, back, x.len()),
        x.len() == y.len(),
        forall|i: int|
            0 <= i < x.len() ==> (#[trigger] x[i]).0 == y[order[i]].0 && repeats_key(x[i].1) == repeats_key(
                y[order[i]].1,
            ),
        repeats_key(Tree::Object(x)),
    ensures
        repeats_key(Tree::Object(y)),
{
    let b = Tree::Object(y);
    if exists|i: int| 0 <= i < x.len() && repeats_key((#[trigger] x[i]).1) {
        let i = choose|i: int| 0 <= i < x.len() && repeats_key((#[trigger] x[i]).1);
        assert(repeats_key(b->Object_0[order[i]].1));
    } else {
        let (i, j) = choose|i: int, j: int|
            0 <= i < j < x.len() && (#[trigger] x[i]).0 == (#[trigger] x[j]).0;
        assert(back[order[i]] == i && back[order[j]] == j);
        if order[i] < order[j] {
            assert(b->Object_0[order[i]].0 == b->Object_0[order[j]].0);
        } else {
            assert(b->Object_0[order[j]].0 == b->Object_0[order[i]].0);
        }
    }
}

/// The texts differ in nothing but white space between their tokens, or in that
/// and the order of the members of their objects.
pub open spec fn same_but_for_layout(a: Seq<u8>, b: Seq<u8>) -> bool {
    ||| tokens_of(a) == tokens_of(b)
    ||| tree_of(a) is Some && tree_of(b) is Some && reordered(tree_of(a)->Some_0, tree_of(b)->Some_0)
}

/// White space between two tokens does not matter: where two texts meet between
/// tokens, they have the same tokens with white space between them.
pub proof fn lemma_space_does_not_matter(a: Seq<u8>, space: u8, b: Seq<u8>)
    requires
        is_space(space),
        tokens_of(a) is Some,
        tokens_of(a + b) == followed_by(tokens_of(a)->Some_0, tokens_of(b)),
    ensures
        tokens_of(a + seq![space] + b) == tokens_of(a + b),
        same_but_for_layout(a + seq![space] + b, a + b),
{
    lemma_tokens_before_space(a, space, b, 0);
}

proof fn lemma_tokens_before_space(a: Seq<u8>, space: u8, b: Seq<u8>, i: int)
    requires
        is_space(space),
        0 <= i <= a.len(),
        tokens_from(a, i) is Some,
    ensures
        tokens_from(a + seq![space] + b, i) == followed_by(tokens_from(a, i)->Some_0, tokens_of(b)),
    decreases a.len() - i,
{
    let text = a + seq![space] + b;
    if i == a.len() {
        let front = a + seq![space];
        lemma_tokens_behind(front, b, 0);
        assert(text[i] == space);
        if let Some(rest) = tokens_of(b) {
            assert(Seq::<Token>::empty() + rest =~= rest);
        }
    } else {
        assert(text[i] == a[i]);
        if is_space(a[i]) {
            lemma_tokens_before_space(a, space, b, i + 1);
        } else if is_symbol(a[i]) {
            lemma_tokens_before_space(a, space, b, i + 1);
            lemma_followed_twice(Token::Symbol(a[i]), tokens_from(a, i + 1)->Some_0, tokens_of(b));
        } else {
            let end = literal_end(a, i)->Some_0;
            if a[i] == 0x22 {
                lemma_string_end_stays(a, seq![space] + b, i + 1);
                assert(a + (seq![space] + b) =~= text);
            } else {
                lemma_word_end_stays(a, space, b, i + 1);
            }
            assert(text.subrange(i, end) =~= a.subrange(i, end));
            lemma_tokens_before_space(a, space, b, end);
            lemma_followed_twice(Token::Literal(a.subrange(i, end)), tokens_from(a, end)->Some_0, tokens_of(b));
        }
    }
}

proof fn lemma_followed_twice(token: Token, tokens: Seq<Token>, more: Option<Seq<Token>>)
    ensures
        followed_by(seq![token], followed_by(tokens, more)) == followed_by(seq![token] + tokens, more),
{
    if let Some(rest) = more {
        assert(seq![token] + (tokens + rest) =~= (seq![token] + tokens) + rest);
    }
}

proof fn lemma_string_end_stays(a: Seq<u8>, more: Seq<u8>, i: int)
    requires
        0 <= i,
        string_end(a, i) is Some,
    ensures
        string_end(a + more, i) == string_end(a, i),
    decreases a.len() - i,
{
    assert((a + more)[i] == a[i]);
    if a[i] == 0x22 {
    } else if a[i] == 0x5C {
        lemma_string_end_stays(a, more, i + 2);
    } else {
        lemma_string_end_stays(a, more, i + 1);
    }
}

proof fn lemma_word_end_stays(a: Seq<u8>, space: u8, b: Seq<u8>, i: int)
    requires
        is_space(space),
        0 <= i <= a.len(),
    ensures
        word_end(a + seq![space] + b, i) == word_end(a, i),
    decreases a.len() - i,
{
    let text = a + seq![space] + b;
    if i < a.len() {
        assert(text[i] == a[i]);
        if is_word(a[i]) {
            lemma_word_end_stays(a, space, b, i + 1);
        }
    } else {
        assert(text[i] == space);
    }
}

proof fn lemma_tokens_behind(front: Seq<u8>, b: Seq<u8>, i: int)
    requires
        0 <= i,
    ensures
        tokens_from(front + b, front.len() + i) == tokens_from(b, i),
    decreases b.len() - i,
{
    let text = front + b;
    let at = front.len() + i;
    if i < b.len() {
        assert(text[at] == b[i]);
        if is_space(b[i]) || is_symbol(b[i]) {
            lemma_tokens_behind(front, b, i + 1);
        } else {
            if b[i] == 0x22 {
                lemma_string_end_behind(front, b, i + 1);
            } else {
                lemma_word_end_behind(front, b, i + 1);
            }
            match literal_end(b, i) {
                Some(end) => {
                    if i < end <= b.len() {
                        assert(text.subrange(at, front.len() + end) =~= b.subrange(i, end));
                        lemma_tokens_behind(front, b, end);
                    }
                },
                None => {},
            }
        }
    }
}

proof fn lemma_string_end_behind(front: Seq<u8>, b: Seq<u8>, i: int)
    requires
        0 <= i,
    ensures
        string_end(front + b, front.len() + i) == (match string_end(b, i) {
            Some(end) => Some(front.len() + end),
            None => None,
        }),
    decreases b.len() - i,
{
    if i < b.len() {
        assert((front + b)[front.len() + i] == b[i]);
        if b[i] == 0x22 {
        } else if b[i] == 0x5C {
            if i + 1 < b.len() {
                lemma_string_end_behind(front, b, i + 2);
            }
        } else {
            lemma_string_end_behind(front, b, i + 1);
        }
    }
}

proof fn lemma_word_end_behind(front: Seq<u8>, b: Seq<u8>, i: int)
    requires
        0 <= i,
    ensures
        word_end(front + b, front.len() + i) == front.len() + word_end(b, i),
    decreases b.len() - i,
{
    if i < b.len() {
        assert((front + b)[front.len() + i] == b[i]);
        if is_word(b[i]) {
            lemma_word_end_behind(front, b, i + 1);
        }
    }
}

} // verus!
