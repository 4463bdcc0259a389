//! The keys of a text in the order in which they are written, each with the place of
//! its object, and what it is to repeat one.

use vstd::prelude::*;

use crate::outline::{Tree, first_repeat, first_repeat_in_elements, first_repeat_in_members, is_repeat};

verus! {

/// A key as it is written: the place of its object in the outline, and the key.
pub type Place = (Seq<int>, Seq<char>);

/// The keys in the outline in the order of the text, where the outline is at `path`.
pub open spec fn key_places(tree: Tree, path: Seq<int>) -> Seq<Place>
    decreases tree, 0nat,
{
    match tree {
        Tree::Scalar(_) => Seq::empty(),
        Tree::Array(elements) => places_in_elements(elements, path, elements.len()),
        Tree::Object(members) => places_in_members(members, path, members.len()),
    }
}

/// The keys in the first `count` elements.
pub open spec fn places_in_elements(elements: Seq<Tree>, path: Seq<int>, count: nat) -> Seq<Place>
    decreases elements, count,
{
    if count == 0 || count > elements.len() {
        Seq::empty()
    } else {
        places_in_elements(elements, path, (count - 1) as nat) + key_places(
            elements[count - 1],
            path.push(count - 1),
        )
    }
}

/// The keys of and in the first `count` members.
pub open spec fn places_in_members(members: Seq<(Seq<char>, Tree)>, path: Seq<int>, count: nat) -> Seq<Place>
    decreases members, count,
{
    if count == 0 || count > members.len() {
        Seq::empty()
    } else {
        places_in_members(members, path, (count - 1) as nat).push((path, members[count - 1].0)) + key_places(
            members[count - 1].1,
            path.push(count - 1),
        )
    }
}

/// Something stands twice in the sequence, for the second time at `index`.
pub open spec fn repeats_at(places: Seq<Place>, index: int) -> bool {
    0 <= index < places.len() && exists|i: int| 0 <= i < index && #[trigger] places[i] == places[index]
}

/// The first thing to stand twice in the sequence does so at `index`.
pub open spec fn first_repeats_at(places: Seq<Place>, index: int) -> bool {
    repeats_at(places, index) && forall|i: int| 0 <= i < index ==> !#[trigger] repeats_at(places, i)
}

/// No object in the outline has two members with one key.
pub open spec fn all_keys_differ(tree: Tree) -> bool {
    forall|i: int| !#[trigger] repeats_at(key_places(tree, Seq::empty()), i)
}

/// The key is the first in the text that its object has already.
pub open spec fn is_first_repeated(tree: Tree, key: Seq<char>) -> bool {
    exists|i: int| #[trigger]
        first_repeats_at(key_places(tree, Seq::empty()), i) && key_places(tree, Seq::empty())[i].1 == key
}

/// The place is at or under `path`.
pub open spec fn is_under(place: Place, path: Seq<int>) -> bool {
    place.0.len() >= path.len() && forall|i: int| 0 <= i < path.len() ==> #[trigger] place.0[i] == path[i]
}

proof fn lemma_under(tree: Tree, path: Seq<int>, i: int)
    requires
        0 <= i < key_places(tree, path).len(),
    ensures
        is_under(key_places(tree, path)[i], path),
    decreases tree, 0nat,
{
    match tree {
        Tree::Scalar(_) => {},
        Tree::Array(elements) => {
            lemma_under_elements(elements, path, elements.len(), i);
        },
        Tree::Object(members) => {
            lemma_under_members(members, path, members.len(), i);
        },
    }
}

proof fn lemma_under_elements(elements: Seq<Tree>, path: Seq<int>, count: nat, i: int)
    requires
        count <= elements.len(),
        0 <= i < places_in_elements(elements, path, count).len(),
    ensures
        is_under(places_in_elements(elements, path, count)[i], path),
        exists|j: int|
            0 <= j < count && is_under(places_in_elements(elements, path, count)[i], #[trigger] path.push(j)),
    decreases elements, count,
{
    let last = count - 1;
    let before = places_in_elements(elements, path, (count - 1) as nat);
    let inner = path.push(last);
    if i < before.len() {
        lemma_under_elements(elements, path, (count - 1) as nat, i);
    } else {
        lemma_under(elements[last], inner, i - before.len());
        let place = places_in_elements(elements, path, count)[i];
        assert(is_under(place, inner));
        assert forall|k: int| 0 <= k < path.len() implies #[trigger] place.0[k] == path[k] by {
            assert(place.0[k] == inner[k]);
        }
    }
}

proof fn lemma_under_members(members: Seq<(Seq<char>, Tree)>, path: Seq<int>, count: nat, i: int)
    requires
        count <= members.len(),
        0 <= i < places_in_members(members, path, count).len(),
    ensures
        is_under(places_in_members(members, path, count)[i], path),
        ({
            let place = places_in_members(members, path, count)[i];
            ||| place.0 == path && exists|j: int| 0 <= j < count && (#[trigger] members[j]).0 == place.1
            ||| exists|j: int| 0 <= j < count && is_under(place, #[trigger] path.push(j))
        }),
    decreases members, count,
{
    let last = count - 1;
    let before = places_in_members(members, path, (count - 1) as nat);
    let inner = path.push(last);
    let place = places_in_members(members, path, count)[i];
    if i < before.len() {
        lemma_under_members(members, path, (count - 1) as nat, i);
    } else if i == before.len() {
        assert(place == (path, members[last].0));
    } else {
        lemma_under(members[last].1, inner, i - before.len() - 1);
        assert(is_under(place, inner));
        assert forall|k: int| 0 <= k < path.len() implies #[trigger] place.0[k] == path[k] by {
            assert(place.0[k] == inner[k]);
        }
    }
}

/// The key of each member is among the places.
proof fn lemma_member_place(members: Seq<(Seq<char>, Tree)>, path: Seq<int>, count: nat, j: int) -> (at: int)
    requires
        0 <= j < count <= members.len(),
    ensures
        0 <= at < places_in_members(members, path, count).len(),
        places_in_members(members, path, count)[at] == (path, members[j].0),
    decreases count,
{
    if j == count - 1 {
        places_in_members(members, path, (count - 1) as nat).len() as int
    } else {
        lemma_member_place(members, path, (count - 1) as nat, j)
    }
}

/// Where two sequences have nothing in common, what is repeated in the two together
/// is repeated in one of them.
proof fn lemma_apart(a: Seq<Place>, b: Seq<Place>, i: int)
    requires
        forall|x: int, y: int|
            #![trigger a[x], b[y]]
            0 <= x < a.len() && 0 <= y < b.len() ==> a[x] != b[y],
    ensures
        repeats_at(a + b, i) <==> repeats_at(a, i) || repeats_at(b, i - a.len()),
{
    let both = a + b;
    if repeats_at(both, i) {
        let j = choose|j: int| 0 <= j < i && #[trigger] both[j] == both[i];
        if i < a.len() {
            assert(a[j] == a[i]);
        } else if j >= a.len() {
            assert(b[j - a.len()] == b[i - a.len()]);
        } else {
            assert(a[j] != b[i - a.len()]);
        }
    }
    if repeats_at(a, i) {
        let j = choose|j: int| 0 <= j < i && #[trigger] a[j] == a[i];
        assert(both[j] == both[i]);
    }
    if repeats_at(b, i - a.len()) {
        let j = choose|j: int| 0 <= j < i - a.len() && #[trigger] b[j] == b[i - a.len()];
        assert(both[j + a.len()] == both[i]);
    }
}

/// What is repeated in the front of a sequence is repeated in the whole at the same
/// index, and the other way round.
proof fn lemma_front(a: Seq<Place>, b: Seq<Place>, i: int)
    requires
        i < a.len(),
    ensures
        repeats_at(a + b, i) <==> repeats_at(a, i),
{
    let both = a + b;
    if repeats_at(both, i) {
        let j = choose|j: int| 0 <= j < i && #[trigger] both[j] == both[i];
        assert(a[j] == a[i]);
    }
    if repeats_at(a, i) {
        let j = choose|j: int| 0 <= j < i && #[trigger] a[j] == a[i];
        assert(both[j] == both[i]);
    }
}

/// The sequence has this key as the first that is repeated in it, or, where there is
/// no key, repeats nothing.
pub open spec fn first_is(places: Seq<Place>, key: Option<Seq<char>>) -> bool {
    match key {
        Some(k) => exists|i: int| #[trigger] first_repeats_at(places, i) && places[i].1 == k,
        None => forall|i: int| !#[trigger] repeats_at(places, i),
    }
}

/// More behind the first repeated key does not change which one it is.
proof fn lemma_first_in_front(a: Seq<Place>, b: Seq<Place>, key: Seq<char>)
    requires
        first_is(a, Some(key)),
    ensures
        first_is(a + b, Some(key)),
{
    let i = choose|i: int| #[trigger] first_repeats_at(a, i) && a[i].1 == key;
    assert forall|j: int| 0 <= j <= i implies (#[trigger] repeats_at(a + b, j) <==> repeats_at(a, j)) by {
        lemma_front(a, b, j);
    }
    assert(first_repeats_at(a + b, i));
}

/// Behind a sequence that repeats nothing and has nothing in common with the next,
/// the first repeated key is that of the next.
proof fn lemma_first_behind(a: Seq<Place>, b: Seq<Place>, key: Option<Seq<char>>)
    requires
        first_is(a, None),
        first_is(b, key),
        forall|x: int, y: int|
            #![trigger a[x], b[y]]
            0 <= x < a.len() && 0 <= y < b.len() ==> a[x] != b[y],
    ensures
        first_is(a + b, key),
{
    assert forall|i: int| (#[trigger] repeats_at(a + b, i) <==> repeats_at(b, i - a.len())) by {
        lemma_apart(a, b, i);
    }
    if let Some(k) = key {
        let i = choose|i: int| #[trigger] first_repeats_at(b, i) && b[i].1 == k;
        assert(repeats_at(a + b, i + a.len()));
        assert forall|j: int| 0 <= j < i + a.len() implies !#[trigger] repeats_at(a + b, j) by {
            assert(!repeats_at(b, j - a.len()));
        }
        assert(first_repeats_at(a + b, i + a.len()));
    }
}

/// The first repeated key, as it is looked for, is the first in the order of the
/// text.
pub proof fn lemma_first_repeat_is_first(tree: Tree, path: Seq<int>)
    ensures
        first_is(key_places(tree, path), first_repeat(tree)),
    decreases tree, 1nat, 0nat,
{
    match tree {
        Tree::Scalar(_) => {},
        Tree::Array(elements) => {
            lemma_first_in_elements(elements, path, 0);
        },
        Tree::Object(members) => {
            lemma_first_in_members(members, path, 0);
        },
    }
}

proof fn lemma_first_in_elements(elements: Seq<Tree>, path: Seq<int>, start: nat)
    requires
        start <= elements.len(),
        first_is(places_in_elements(elements, path, start), None),
    ensures
        first_is(
            places_in_elements(elements, path, elements.len()),
            first_repeat_in_elements(elements, start),
        ),
    decreases elements, 0nat, elements.len() - start,
{
    if start < elements.len() {
        let before = places_in_elements(elements, path, start);
        let inner = path.push(start as int);
        let here = key_places(elements[start as int], inner);
        lemma_first_repeat_is_first(elements[start as int], inner);
        assert forall|x: int, y: int|
            #![trigger before[x], here[y]]
            0 <= x < before.len() && 0 <= y < here.len() implies before[x] != here[y] by {
            lemma_under_elements(elements, path, start, x);
            lemma_under(elements[start as int], inner, y);
            let j = choose|j: int| 0 <= j < start && is_under(before[x], #[trigger] path.push(j));
            assert(before[x].0[path.len() as int] == path.push(j)[path.len() as int]);
            assert(here[y].0[path.len() as int] == inner[path.len() as int]);
        }
        lemma_first_behind(before, here, first_repeat(elements[start as int]));
        assert(places_in_elements(elements, path, start + 1) == before + here);
        match first_repeat(elements[start as int]) {
            Some(key) => {
                lemma_elements_grow(elements, path, start + 1, key);
            },
            None => {
                lemma_first_in_elements(elements, path, start + 1);
            },
        }
    }
}

proof fn lemma_elements_grow(elements: Seq<Tree>, path: Seq<int>, count: nat, key: Seq<char>)
    requires
        count <= elements.len(),
        first_is(places_in_elements(elements, path, count), Some(key)),
    ensures
        first_is(places_in_elements(elements, path, elements.len()), Some(key)),
    decreases elements.len() - count,
{
    if count < elements.len() {
        lemma_first_in_front(
            places_in_elements(elements, path, count),
            key_places(elements[count as int], path.push(count as int)),
            key,
        );
        lemma_elements_grow(elements, path, count + 1, key);
    }
}

proof fn lemma_first_in_members(members: Seq<(Seq<char>, Tree)>, path: Seq<int>, start: nat)
    requires
        start <= members.len(),
        first_is(places_in_members(members, path, start), None),
    ensures
        first_is(places_in_members(members, path, members.len()), first_repeat_in_members(members, start)),
    decreases members, 0nat, members.len() - start,
{
    if start < members.len() {
        let before = places_in_members(members, path, start);
        let own = (path, members[start as int].0);
        let inner = path.push(start as int);
        let here = key_places(members[start as int].1, inner);
        let next = before.push(own);
        assert(places_in_members(members, path, start + 1) == next + here);
        assert forall|i: int| i < before.len() implies !#[trigger] repeats_at(next, i) by {
            assert(next =~= before + seq![own]);
            lemma_front(before, seq![own], i);
        }
        if is_repeat(members, start as int) {
            let j = choose|j: int| 0 <= j < start && (#[trigger] members[j]).0 == members[start as int].0;
            let at = lemma_member_place(members, path, start, j);
            assert(next[at] == next[before.len() as int]);
            assert(first_repeats_at(next, before.len() as int));
            assert(first_is(next, Some(members[start as int].0)));
            lemma_first_in_front(next, here, members[start as int].0);
            lemma_members_grow(members, path, start + 1, members[start as int].0);
        } else {
            assert forall|i: int| !#[trigger] repeats_at(next, i) by {
                if repeats_at(next, i) {
                    let x = choose|x: int| 0 <= x < i && #[trigger] next[x] == next[i];
                    assert(i == before.len());
                    assert(before[x] == own);
                    lemma_under_members(members, path, start, x);
                    if exists|j: int| 0 <= j < start && is_under(before[x], #[trigger] path.push(j)) {
                        let j = choose|j: int| 0 <= j < start && is_under(before[x], #[trigger] path.push(j));
                        assert(before[x].0.len() >= path.push(j).len());
                    }
                }
            }
            lemma_first_repeat_is_first(members[start as int].1, inner);
            assert forall|x: int, y: int|
                #![trigger next[x], here[y]]
                0 <= x < next.len() && 0 <= y < here.len() implies next[x] != here[y] by {
                lemma_under(members[start as int].1, inner, y);
                assert(here[y].0.len() >= inner.len());
                assert(here[y].0[path.len() as int] == inner[path.len() as int]);
                if x < before.len() {
                    lemma_under_members(members, path, start, x);
                    if before[x].0 != path {
                        let j = choose|j: int| 0 <= j < start && is_under(before[x], #[trigger] path.push(j));
                        assert(before[x].0[path.len() as int] == path.push(j)[path.len() as int]);
                    }
                }
            }
            lemma_first_behind(next, here, first_repeat(members[start as int].1));
            match first_repeat(members[start as int].1) {
                Some(key) => {
                    lemma_members_grow(members, path, start + 1, key);
                },
                None => {
                    lemma_first_in_members(members, path, start + 1);
                },
            }
        }
    }
}

proof fn lemma_members_grow(members: Seq<(Seq<char>, Tree)>, path: Seq<int>, count: nat, key: Seq<char>)
    requires
        count <= members.len(),
        first_is(places_in_members(members, path, count), Some(key)),
    ensures
        first_is(places_in_members(members, path, members.len()), Some(key)),
    decreases members.len() - count,
{
    if count < members.len() {
        let before = places_in_members(members, path, count);
        let more = seq![(path, members[count as int].0)] + key_places(
            members[count as int].1,
            path.push(count as int),
        );
        lemma_first_in_front(before, more, key);
        assert(places_in_members(members, path, count + 1) =~= before + more);
        lemma_members_grow(members, path, count + 1, key);
    }
}

} // verus!
