//! The grammar of JSON as a relation between a text, its tokens and what they spell,
//! and that reading a text finds exactly what is so related to it.

use vstd::prelude::*;

use crate::json::Json;
use crate::outline::{Token, Tree, elements_at, literal_json, member_at, members_at, symbol_at, tokens_of, tree_of, value_at};

verus! {

/// The structural character stands at `index`.
pub open spec fn stands(tokens: Seq<Token>, index: int, symbol: char) -> bool {
    0 <= index < tokens.len() && tokens[index] is Symbol && tokens[index]->Symbol_0 as int == symbol as int
}

/// The literal at `index` has this value.
pub open spec fn means(tokens: Seq<Token>, index: int, json: Json) -> bool {
    0 <= index < tokens.len() && tokens[index] is Literal && literal_json(tokens[index]->Literal_0) == Some(json)
}

/// The places begin with `first` and end with `last`, and there are `count` stretches
/// between them.
pub open spec fn cuts_between(cuts: Seq<int>, first: int, last: int, count: nat) -> bool {
    cuts.len() == count + 1 && cuts[0] == first && cuts[count as int] == last
}

/// The tokens from `start` to `end` spell the outline: a scalar is one literal; an
/// array has its elements in brackets, an object its members in braces.
pub open spec fn spelled(tokens: Seq<Token>, start: int, end: int, tree: Tree) -> bool
    decreases tree,
{
    match tree {
        Tree::Scalar(json) => end == start + 1 && means(tokens, start, json) && json !is Array && json !is Object,
        Tree::Array(elements) => stands(tokens, start, '[') && if elements.len() == 0 {
            stands(tokens, start + 1, ']') && end == start + 2
        } else {
            exists|cuts: Seq<int>| #[trigger]
                cuts_between(cuts, start + 1, end, elements.len()) && elements_spelled(tokens, cuts, elements)
        },
        Tree::Object(members) => stands(tokens, start, '{') && if members.len() == 0 {
            stands(tokens, start + 1, '}') && end == start + 2
        } else {
            exists|cuts: Seq<int>| #[trigger]
                cuts_between(cuts, start + 1, end, members.len()) && members_spelled(tokens, cuts, members)
        },
    }
}

/// The tokens spell the elements, one from each cut to the next, with a comma behind
/// each but the last, and a bracket behind that.
pub open spec fn elements_spelled(tokens: Seq<Token>, cuts: Seq<int>, elements: Seq<Tree>) -> bool
    decreases elements,
{
    forall|i: int|
        0 <= i < elements.len() ==> spelled(tokens, cuts[i], cuts[i + 1] - 1, #[trigger] elements[i]) && stands(
            tokens,
            cuts[i + 1] - 1,
            if i + 1 == elements.len() {
                ']'
            } else {
                ','
            },
        )
}

/// The tokens spell the members, one from each cut to the next: a string, a colon and
/// a value, with a comma behind each but the last, and a brace behind that.
pub open spec fn members_spelled(tokens: Seq<Token>, cuts: Seq<int>, members: Seq<(Seq<char>, Tree)>) -> bool
    decreases members,
{
    forall|i: int|
        0 <= i < members.len() ==> means(tokens, cuts[i], Json::Text((#[trigger] members[i]).0)) && stands(
            tokens,
            cuts[i] + 1,
            ':',
        ) && spelled(tokens, cuts[i] + 2, cuts[i + 1] - 1, members[i].1) && stands(
            tokens,
            cuts[i + 1] - 1,
            if i + 1 == members.len() {
                '}'
            } else {
                ','
            },
        )
}

/// What tokens spell is read.
proof fn lemma_spelled_is_read(tokens: Seq<Token>, start: int, end: int, tree: Tree)
    requires
        spelled(tokens, start, end, tree),
    ensures
        0 <= start < end <= tokens.len(),
        !symbol_at(tokens, start, 0x5D),
        !symbol_at(tokens, start, 0x7D),
        value_at(tokens, start) == Some((tree, end)),
    decreases tree, 0nat, 0nat,
{
    match tree {
        Tree::Scalar(_) => {},
        Tree::Array(elements) => {
            if elements.len() == 0 {
                assert(elements =~= Seq::empty());
            } else {
                let cuts = choose|cuts: Seq<int>| #[trigger]
                    cuts_between(cuts, start + 1, end, elements.len()) && elements_spelled(tokens, cuts, elements);
                lemma_elements_are_read(tokens, elements, cuts, 0);
                assert(elements.subrange(0, elements.len() as int) =~= elements);
                lemma_spelled_is_read(tokens, cuts[0], cuts[1] - 1, elements[0]);
            }
        },
        Tree::Object(members) => {
            if members.len() == 0 {
                assert(members =~= Seq::empty());
            } else {
                let cuts = choose|cuts: Seq<int>| #[trigger]
                    cuts_between(cuts, start + 1, end, members.len()) && members_spelled(tokens, cuts, members);
                lemma_members_are_read(tokens, members, cuts, 0);
                assert(members.subrange(0, members.len() as int) =~= members);
                assert(means(tokens, cuts[0], Json::Text(members[0].0)));
            }
        },
    }
}

proof fn lemma_elements_are_read(tokens: Seq<Token>, elements: Seq<Tree>, cuts: Seq<int>, from: int)
    requires
        0 <= from < elements.len(),
        cuts.len() == elements.len() + 1,
        elements_spelled(tokens, cuts, elements),
    ensures
        elements_at(tokens, cuts[from]) == Some(
            (elements.subrange(from, elements.len() as int), cuts[elements.len() as int]),
        ),
        cuts[from] < cuts[elements.len() as int] <= tokens.len(),
    decreases elements, 1nat, elements.len() - from,
{
    let element = elements[from];
    lemma_spelled_is_read(tokens, cuts[from], cuts[from + 1] - 1, element);
    if from + 1 == elements.len() {
        assert(elements.subrange(from, elements.len() as int) =~= seq![element]);
    } else {
        lemma_elements_are_read(tokens, elements, cuts, from + 1);
        assert(elements.subrange(from, elements.len() as int) =~= seq![element] + elements.subrange(
            from + 1,
            elements.len() as int,
        ));
    }
}

proof fn lemma_members_are_read(tokens: Seq<Token>, members: Seq<(Seq<char>, Tree)>, cuts: Seq<int>, from: int)
    requires
        0 <= from < members.len(),
        cuts.len() == members.len() + 1,
        members_spelled(tokens, cuts, members),
    ensures
        members_at(tokens, cuts[from]) == Some(
            (members.subrange(from, members.len() as int), cuts[members.len() as int]),
        ),
        cuts[from] < cuts[members.len() as int] <= tokens.len(),
    decreases members, 1nat, members.len() - from,
{
    let member = members[from];
    assert(means(tokens, cuts[from], Json::Text(members[from].0)));
    lemma_spelled_is_read(tokens, cuts[from] + 2, cuts[from + 1] - 1, member.1);
    assert(member_at(tokens, cuts[from]) == Some((member, cuts[from + 1] - 1)));
    if from + 1 == members.len() {
        assert(members.subrange(from, members.len() as int) =~= seq![member]);
    } else {
        lemma_members_are_read(tokens, members, cuts, from + 1);
        assert(members.subrange(from, members.len() as int) =~= seq![member] + members.subrange(
            from + 1,
            members.len() as int,
        ));
    }
}

/// What is read is what the tokens spell.
proof fn lemma_read_is_spelled(tokens: Seq<Token>, start: int)
    ensures
        value_at(tokens, start) matches Some((tree, end)) ==> spelled(tokens, start, end, tree) && 0 <= start < end
            <= tokens.len(),
    decreases tokens.len() - start, 0nat,
{
    if let Some((tree, end)) = value_at(tokens, start) {
        if symbol_at(tokens, start, 0x5B) && !symbol_at(tokens, start + 1, 0x5D) {
            let cuts = lemma_read_elements(tokens, start + 1);
            let (elements, last) = elements_at(tokens, start + 1)->Some_0;
            assert(tree == Tree::Array(elements) && last == end);
            assert(cuts_between(cuts, start + 1, end, elements.len()));
        } else if symbol_at(tokens, start, 0x7B) && !symbol_at(tokens, start + 1, 0x7D) {
            let cuts = lemma_read_members(tokens, start + 1);
            let (members, last) = members_at(tokens, start + 1)->Some_0;
            assert(tree == Tree::Object(members) && last == end);
            assert(cuts_between(cuts, start + 1, end, members.len()));
        }
    }
}

proof fn lemma_read_elements(tokens: Seq<Token>, start: int) -> (cuts: Seq<int>)
    ensures
        elements_at(tokens, start) matches Some((elements, end)) ==> elements.len() > 0 && cuts_between(
            cuts,
            start,
            end,
            elements.len(),
        ) && start < end <= tokens.len() && elements_spelled(tokens, cuts, elements),
    decreases tokens.len() - start, 1nat,
{
    if let Some((elements, end)) = elements_at(tokens, start) {
        lemma_read_is_spelled(tokens, start);
        let (tree, next) = value_at(tokens, start)->Some_0;
        assert(spelled(tokens, start, next, tree));
        if symbol_at(tokens, next, 0x5D) {
            let cuts = seq![start, next + 1];
            assert(elements =~= seq![tree]);
            assert(cuts_between(cuts, start, end, 1));
            assert forall|i: int| 0 <= i < elements.len() implies #[trigger] elements[i] == tree && cuts[i] == start
                && cuts[i + 1] == next + 1 by {}
            cuts
        } else {
            let rest = lemma_read_elements(tokens, next + 1);
            let more = elements_at(tokens, next + 1)->Some_0.0;
            let cuts = seq![start] + rest;
            assert forall|i: int| 0 <= i < elements.len() implies spelled(
                tokens,
                cuts[i],
                cuts[i + 1] - 1,
                #[trigger] elements[i],
            ) && stands(
                tokens,
                cuts[i + 1] - 1,
                if i + 1 == elements.len() {
                    ']'
                } else {
                    ','
                },
            ) by {
                if i > 0 {
                    assert(elements[i] == more[i - 1]);
                    assert(cuts[i] == rest[i - 1]);
                    assert(cuts[i + 1] == rest[i]);
                }
            }
            cuts
        }
    } else {
        Seq::empty()
    }
}

proof fn lemma_read_members(tokens: Seq<Token>, start: int) -> (cuts: Seq<int>)
    ensures
        members_at(tokens, start) matches Some((members, end)) ==> members.len() > 0 && cuts_between(
            cuts,
            start,
            end,
            members.len(),
        ) && start < end <= tokens.len() && members_spelled(tokens, cuts, members),
    decreases tokens.len() - start, 1nat,
{
    if let Some((members, end)) = members_at(tokens, start) {
        lemma_read_is_spelled(tokens, start + 2);
        let (member, next) = member_at(tokens, start)->Some_0;
        assert(means(tokens, start, Json::Text(member.0)));
        assert(stands(tokens, start + 1, ':'));
        assert(spelled(tokens, start + 2, next, member.1));
        if symbol_at(tokens, next, 0x7D) {
            let cuts = seq![start, next + 1];
            assert(members =~= seq![member]);
            assert(cuts_between(cuts, start, end, 1));
            assert forall|i: int| 0 <= i < members.len() implies #[trigger] members[i] == member && cuts[i] == start
                && cuts[i + 1] == next + 1 by {}
            cuts
        } else {
            let rest = lemma_read_members(tokens, next + 1);
            let more = members_at(tokens, next + 1)->Some_0.0;
            let cuts = seq![start] + rest;
            assert forall|i: int| 0 <= i < members.len() implies means(
                tokens,
                cuts[i],
                Json::Text((#[trigger] members[i]).0),
            ) && stands(tokens, cuts[i] + 1, ':') && spelled(
                tokens,
                cuts[i] + 2,
                cuts[i + 1] - 1,
                members[i].1,
            ) && stands(
                tokens,
                cuts[i + 1] - 1,
                if i + 1 == members.len() {
                    '}'
                } else {
                    ','
                },
            ) by {
                if i > 0 {
                    assert(members[i] == more[i - 1]);
                    assert(cuts[i] == rest[i - 1]);
                    assert(cuts[i + 1] == rest[i]);
                }
            }
            cuts
        }
    } else {
        Seq::empty()
    }
}

/// The outline that is read from a text is the one that its tokens spell, all of
/// them, and there is one wherever they spell any.
pub proof fn law_tokens_spell_the_outline(text: Seq<u8>, tree: Tree)
    ensures
        tree_of(text) == Some(tree) <==> tokens_of(text) is Some && spelled(
            tokens_of(text)->Some_0,
            0,
            tokens_of(text)->Some_0.len() as int,
            tree,
        ),
{
    if let Some(tokens) = tokens_of(text) {
        lemma_read_is_spelled(tokens, 0);
        if spelled(tokens, 0, tokens.len() as int, tree) {
            lemma_spelled_is_read(tokens, 0, tokens.len() as int, tree);
        }
    }
}

} // verus!
