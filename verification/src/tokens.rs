//! The tokens of a text as a relation: what a text is made of, and that cutting a
//! text into tokens finds exactly that.

use vstd::prelude::*;

use crate::outline::{Token, followed_by, is_space, is_symbol, is_word, literal_end, string_end, tokens_from, tokens_of, word_end};

verus! {

/// The byte is this ASCII character.
pub open spec fn is_char(byte: u8, character: char) -> bool {
    byte as int == character as int
}

/// White space.
pub open spec fn is_blank(byte: u8) -> bool {
    is_char(byte, ' ') || is_char(byte, '\t') || is_char(byte, '\n') || is_char(byte, '\r')
}

/// A brace, a bracket, a comma or a colon.
pub open spec fn is_structural(byte: u8) -> bool {
    is_char(byte, '{') || is_char(byte, '}') || is_char(byte, '[') || is_char(byte, ']') || is_char(byte, ',')
        || is_char(byte, ':')
}

/// A byte of a number or of a name such as `true`, or of what is neither.
pub open spec fn is_plain(byte: u8) -> bool {
    !is_blank(byte) && !is_structural(byte) && !is_char(byte, '"')
}

/// How many backslashes stand directly before `at`, in a string that begins at
/// `start`.
pub open spec fn backslashes_before(text: Seq<u8>, start: int, at: int) -> nat
    decreases at - start,
{
    if at > start + 1 && is_char(text[at - 1], '\\') {
        backslashes_before(text, start, at - 1) + 1
    } else {
        0
    }
}

/// A quotation mark that ends the string that begins at `start`: one that no
/// backslash escapes, that is, before which the backslashes pair up.
pub open spec fn is_closing(text: Seq<u8>, start: int, at: int) -> bool {
    is_char(text[at], '"') && backslashes_before(text, start, at) % 2 == 0
}

/// A string stands from `start` to `end`: it begins with a quotation mark and ends
/// with the next one that closes it.
pub open spec fn string_between(text: Seq<u8>, start: int, end: int) -> bool {
    &&& 0 <= start && start + 1 < end <= text.len()
    &&& is_char(text[start], '"')
    &&& is_closing(text, start, end - 1)
    &&& forall|at: int| start < at < end - 1 ==> !#[trigger] is_closing(text, start, at)
}

/// A word stands from `start` to `end`, and goes no further.
pub open spec fn word_between(text: Seq<u8>, start: int, end: int) -> bool {
    &&& 0 <= start < end <= text.len()
    &&& forall|at: int| start <= at < end ==> is_plain(#[trigger] text[at])
    &&& end < text.len() ==> !is_plain(text[end])
}

/// The token stands from `start` to `end`.
pub open spec fn token_between(text: Seq<u8>, start: int, end: int, token: Token) -> bool {
    match token {
        Token::Symbol(symbol) => 0 <= start < text.len() && end == start + 1 && text[start] == symbol
            && is_structural(symbol),
        Token::Literal(literal) => (string_between(text, start, end) || word_between(text, start, end)) && literal
            == text.subrange(start, end),
    }
}

/// There is nothing but white space from `start` to `end`.
pub open spec fn blank_between(text: Seq<u8>, start: int, end: int) -> bool {
    start <= end && forall|at: int| start <= at < end ==> is_blank(#[trigger] text[at])
}

/// Where the white space begins before the token with this index.
pub open spec fn gap_start(from: int, ends: Seq<int>, index: int) -> int {
    if index == 0 {
        from
    } else {
        ends[index - 1]
    }
}

/// The text from `from` on is made of the tokens, one behind the other at the given
/// places, and of white space.
pub open spec fn laid_out(text: Seq<u8>, from: int, tokens: Seq<Token>, starts: Seq<int>, ends: Seq<int>) -> bool {
    &&& starts.len() == tokens.len()
    &&& ends.len() == tokens.len()
    &&& forall|i: int|
        0 <= i < tokens.len() ==> token_between(text, starts[i], ends[i], #[trigger] tokens[i]) && blank_between(
            text,
            gap_start(from, ends, i),
            starts[i],
        )
    &&& blank_between(text, gap_start(from, ends, tokens.len() as int), text.len() as int)
}

proof fn lemma_bytes(byte: u8)
    ensures
        is_blank(byte) == is_space(byte),
        is_structural(byte) == is_symbol(byte),
        is_plain(byte) == is_word(byte),
{
}

proof fn lemma_string_found(text: Seq<u8>, start: int, at: int, end: int)
    requires
        string_between(text, start, end),
        start < at < end,
        backslashes_before(text, start, at) % 2 == 0,
    ensures
        string_end(text, at) == Some(end),
    decreases end - at,
{
    if is_char(text[at], '"') {
        assert(is_closing(text, start, at));
    } else if is_char(text[at], '\\') {
        assert(backslashes_before(text, start, at + 1) == backslashes_before(text, start, at) + 1);
        assert(!is_closing(text, start, at + 1));
        lemma_string_found(text, start, at + 2, end);
    } else {
        assert(backslashes_before(text, start, at + 1) == 0);
        lemma_string_found(text, start, at + 1, end);
    }
}

proof fn lemma_found_string(text: Seq<u8>, start: int, at: int)
    requires
        0 <= start < at,
        backslashes_before(text, start, at) % 2 == 0,
        string_end(text, at) is Some,
    ensures
        at < string_end(text, at)->Some_0 <= text.len(),
        is_closing(text, start, string_end(text, at)->Some_0 - 1),
        forall|k: int| at <= k < string_end(text, at)->Some_0 - 1 ==> !#[trigger] is_closing(text, start, k),
    decreases text.len() - at,
{
    if is_char(text[at], '"') {
    } else if is_char(text[at], '\\') {
        assert(backslashes_before(text, start, at + 1) == backslashes_before(text, start, at) + 1);
        assert(!is_closing(text, start, at + 1));
        lemma_found_string(text, start, at + 2);
    } else {
        assert(backslashes_before(text, start, at + 1) == 0);
        lemma_found_string(text, start, at + 1);
    }
}

proof fn lemma_word_found(text: Seq<u8>, start: int, at: int, end: int)
    requires
        word_between(text, start, end),
        start <= at <= end,
    ensures
        word_end(text, at) == end,
    decreases end - at,
{
    if at < end {
        lemma_bytes(text[at]);
        lemma_word_found(text, start, at + 1, end);
    } else if end < text.len() {
        lemma_bytes(text[end]);
    }
}

proof fn lemma_found_word(text: Seq<u8>, at: int)
    requires
        0 <= at <= text.len(),
    ensures
        at <= word_end(text, at) <= text.len(),
        forall|k: int| at <= k < word_end(text, at) ==> is_plain(#[trigger] text[k]),
        word_end(text, at) < text.len() ==> !is_plain(text[word_end(text, at)]),
    decreases text.len() - at,
{
    if at < text.len() {
        lemma_bytes(text[at]);
        if is_word(text[at]) {
            lemma_found_word(text, at + 1);
        }
    }
}

/// Tokens that a text is made of are found in it.
proof fn lemma_laid_out_is_found(
    text: Seq<u8>,
    from: int,
    tokens: Seq<Token>,
    starts: Seq<int>,
    ends: Seq<int>,
    index: int,
    at: int,
)
    requires
        laid_out(text, from, tokens, starts, ends),
        0 <= index <= tokens.len(),
        0 <= gap_start(from, ends, index) <= at,
        at <= (if index < tokens.len() {
            starts[index]
        } else {
            text.len() as int
        }),
    ensures
        tokens_from(text, at) == Some(tokens.subrange(index, tokens.len() as int)),
    decreases text.len() - at,
{
    let rest = tokens.subrange(index, tokens.len() as int);
    if index == tokens.len() {
        assert(rest =~= Seq::empty());
        if at < text.len() {
            assert(is_blank(text[at]));
            lemma_bytes(text[at]);
            lemma_laid_out_is_found(text, from, tokens, starts, ends, index, at + 1);
        }
    } else {
        let token = tokens[index];
        assert(token_between(text, starts[index], ends[index], token));
        if at < starts[index] {
            assert(is_blank(text[at]));
            lemma_bytes(text[at]);
            lemma_laid_out_is_found(text, from, tokens, starts, ends, index, at + 1);
        } else {
            if index + 1 < tokens.len() {
                assert(blank_between(text, gap_start(from, ends, index + 1), starts[index + 1])) by {
                    assert(token_between(text, starts[index + 1], ends[index + 1], tokens[index + 1]));
                }
            }
            lemma_bytes(text[at]);
            lemma_laid_out_is_found(text, from, tokens, starts, ends, index + 1, ends[index]);
            assert(rest =~= seq![token] + tokens.subrange(index + 1, tokens.len() as int));
            if token is Literal {
                if string_between(text, at, ends[index]) {
                    lemma_string_found(text, at, at + 1, ends[index]);
                } else {
                    assert(is_plain(text[at]));
                    lemma_word_found(text, at, at + 1, ends[index]);
                }
                assert(literal_end(text, at) == Some(ends[index]));
            }
        }
    }
}

/// White space may come first.
proof fn lemma_space_first(text: Seq<u8>, from: int, tokens: Seq<Token>, starts: Seq<int>, ends: Seq<int>)
    requires
        0 <= from < text.len(),
        is_blank(text[from]),
        laid_out(text, from + 1, tokens, starts, ends),
    ensures
        laid_out(text, from, tokens, starts, ends),
{
    assert forall|i: int| 0 <= i < tokens.len() implies token_between(
        text,
        starts[i],
        ends[i],
        #[trigger] tokens[i],
    ) && blank_between(text, gap_start(from, ends, i), starts[i]) by {
        assert(token_between(text, starts[i], ends[i], tokens[i]));
        assert(blank_between(text, gap_start(from + 1, ends, i), starts[i]));
    }
    assert(blank_between(text, gap_start(from + 1, ends, tokens.len() as int), text.len() as int));
    assert(blank_between(text, gap_start(from, ends, tokens.len() as int), text.len() as int));
}

/// A token may come first.
proof fn lemma_token_first(
    text: Seq<u8>,
    from: int,
    end: int,
    token: Token,
    rest: Seq<Token>,
    starts: Seq<int>,
    ends: Seq<int>,
)
    requires
        token_between(text, from, end, token),
        laid_out(text, end, rest, starts, ends),
    ensures
        laid_out(text, from, seq![token] + rest, seq![from] + starts, seq![end] + ends),
{
    let tokens = seq![token] + rest;
    let all_starts = seq![from] + starts;
    let all_ends = seq![end] + ends;
    assert forall|i: int| 0 <= i < tokens.len() implies token_between(
        text,
        all_starts[i],
        all_ends[i],
        #[trigger] tokens[i],
    ) && blank_between(text, gap_start(from, all_ends, i), all_starts[i]) by {
        if i > 0 {
            assert(tokens[i] == rest[i - 1]);
            assert(token_between(text, starts[i - 1], ends[i - 1], rest[i - 1]));
            assert(all_starts[i] == starts[i - 1]);
            assert(all_ends[i] == ends[i - 1]);
            assert(gap_start(from, all_ends, i) == gap_start(end, ends, i - 1));
        }
    }
    assert(gap_start(from, all_ends, tokens.len() as int) == gap_start(end, ends, rest.len() as int));
}

/// The tokens that are found in a text are what it is made of.
proof fn lemma_found_is_laid_out(text: Seq<u8>, from: int) -> (places: (Seq<int>, Seq<int>))
    requires
        0 <= from <= text.len(),
    ensures
        tokens_from(text, from) is Some ==> laid_out(
            text,
            from,
            tokens_from(text, from)->Some_0,
            places.0,
            places.1,
        ),
    decreases text.len() - from,
{
    let empty = (Seq::<int>::empty(), Seq::<int>::empty());
    if tokens_from(text, from) is None {
        empty
    } else if from == text.len() {
        assert(laid_out(text, from, Seq::empty(), empty.0, empty.1));
        empty
    } else {
        lemma_bytes(text[from]);
        if is_space(text[from]) {
            let places = lemma_found_is_laid_out(text, from + 1);
            lemma_space_first(text, from, tokens_from(text, from)->Some_0, places.0, places.1);
            places
        } else {
            let (end, token) = if is_symbol(text[from]) {
                (from + 1, Token::Symbol(text[from]))
            } else {
                let end = literal_end(text, from)->Some_0;
                (end, Token::Literal(text.subrange(from, end)))
            };
            if !is_symbol(text[from]) {
                if is_char(text[from], '"') {
                    lemma_found_string(text, from, from + 1);
                    assert(string_between(text, from, end));
                } else {
                    lemma_found_word(text, from + 1);
                    assert(word_between(text, from, end));
                }
            }
            assert(token_between(text, from, end, token));
            let more = lemma_found_is_laid_out(text, end);
            let rest = tokens_from(text, end)->Some_0;
            assert(tokens_from(text, from) == followed_by(seq![token], Some(rest)));
            lemma_token_first(text, from, end, token, rest, more.0, more.1);
            (seq![from] + more.0, seq![end] + more.1)
        }
    }
}

/// The tokens of a text are those that it is made of, with white space before,
/// between and behind them, and there are some wherever it is so made.
pub proof fn law_text_is_made_of_its_tokens(text: Seq<u8>, tokens: Seq<Token>)
    ensures
        tokens_of(text) == Some(tokens) <==> exists|starts: Seq<int>, ends: Seq<int>| #[trigger]
            laid_out(text, 0, tokens, starts, ends),
{
    if tokens_of(text) == Some(tokens) {
        let places = lemma_found_is_laid_out(text, 0);
        assert(laid_out(text, 0, tokens, places.0, places.1));
    }
    if exists|starts: Seq<int>, ends: Seq<int>| #[trigger] laid_out(text, 0, tokens, starts, ends) {
        let (starts, ends) = choose|starts: Seq<int>, ends: Seq<int>| #[trigger]
            laid_out(text, 0, tokens, starts, ends);
        if tokens.len() > 0 {
            assert(token_between(text, starts[0], ends[0], tokens[0]));
        }
        lemma_laid_out_is_found(text, 0, tokens, starts, ends, 0, 0);
        assert(tokens.subrange(0, tokens.len() as int) =~= tokens);
    }
}

} // verus!
