//! Documents as they are written, and the law that reading restores what
//! was written: the tokens and the text of a document are scanned and
//! parsed into the value that the document denotes.

use crate::number::{digits_end, is_decimal_literal, lemma_digits_end_bounds, number_shape};
use crate::parse::{
    elements_from, members_from, unescape, value_at, Parsed, TokenParseError,
};
use crate::text::{is_digit, is_whitespace};
use crate::tokenize::{
    false_word, lemma_skip_whitespace_stops, lemma_string_end_bounds, null_word, scan_token,
    skip_whitespace, string_end, tokenize_from, tokenize_spec, true_word, word_at, TokenView,
    TokenizeErrorView,
};
use crate::value::ValueView;
use crate::{parse_spec, ParseErrorView};
use vstd::prelude::*;

verus! {

/// A document as it is written in tokens: like a value, but a string is
/// the raw text of its token, and an object is the sequence of its members
/// as they stand, keys repeated or not.
pub ghost enum Document {
    Null,
    Boolean(bool),
    Number(Seq<char>),
    String(Seq<char>),
    Array(Seq<Document>),
    Object(Seq<(Seq<char>, Document)>),
}

impl Document {
    /// Whether the escapes of every string value in the document can be
    /// resolved.
    pub open spec fn resolvable(self) -> bool
        decreases self,
    {
        match self {
            Document::String(raw) => unescape(raw) is Ok,
            Document::Array(items) => forall|i: int|
                0 <= i < items.len() ==> (#[trigger] items[i]).resolvable(),
            Document::Object(members) => forall|i: int|
                0 <= i < members.len() ==> (#[trigger] members[i]).1.resolvable(),
            _ => true,
        }
    }

    /// The tokens that spell the document.
    pub open spec fn tokens(self) -> Seq<TokenView>
        decreases self, 0int,
    {
        match self {
            Document::Null => seq![TokenView::Null],
            Document::Boolean(b) => if b {
                seq![TokenView::True]
            } else {
                seq![TokenView::False]
            },
            Document::Number(text) => seq![TokenView::Number(text)],
            Document::String(raw) => seq![TokenView::String(raw)],
            Document::Array(items) => seq![TokenView::LeftBracket] + elements_tokens(items, 0)
                + seq![TokenView::RightBracket],
            Document::Object(members) => seq![TokenView::LeftBrace] + members_tokens(members, 0)
                + seq![TokenView::RightBrace],
        }
    }

    /// The value that the document denotes: strings with their escapes
    /// resolved, the elements of an array in their order, and in an object
    /// each key with the value of the last member that has it.
    pub open spec fn value(self) -> ValueView
        decreases self, 0int,
    {
        match self {
            Document::Null => ValueView::Null,
            Document::Boolean(b) => ValueView::Boolean(b),
            Document::Number(text) => ValueView::Number(text),
            Document::String(raw) => ValueView::String(unescape(raw)->Ok_0),
            Document::Array(items) => ValueView::Array(elements_value(items)),
            Document::Object(members) => ValueView::Object(
                members_value(members, members.len() as int),
            ),
        }
    }
}

/// The tokens of the elements from index `from` on, with a comma between
/// two of them.
pub open spec fn elements_tokens(items: Seq<Document>, from: int) -> Seq<TokenView>
    decreases items, items.len() - from,
{
    if !(0 <= from < items.len()) {
        Seq::empty()
    } else if from == items.len() - 1 {
        items[from].tokens()
    } else {
        items[from].tokens() + seq![TokenView::Comma] + elements_tokens(items, from + 1)
    }
}

/// The tokens of the members from index `from` on: each a key, a colon and
/// a value, with a comma between two of them.
pub open spec fn members_tokens(members: Seq<(Seq<char>, Document)>, from: int) -> Seq<TokenView>
    decreases members, members.len() - from,
{
    if !(0 <= from < members.len()) {
        Seq::empty()
    } else {
        let member = seq![TokenView::String(members[from].0), TokenView::Colon]
            + members[from].1.tokens();
        if from == members.len() - 1 {
            member
        } else {
            member + seq![TokenView::Comma] + members_tokens(members, from + 1)
        }
    }
}

/// The values of the elements, in their order.
pub open spec fn elements_value(items: Seq<Document>) -> Seq<ValueView>
    decreases items, 0int,
{
    Seq::new(
        items.len(),
        |i: int|
            if 0 <= i < items.len() {
                items[i].value()
            } else {
                ValueView::Null
            },
    )
}

/// The map of the first `count` members: each of their keys with the value
/// of the last of them that has it.
pub open spec fn members_value(members: Seq<(Seq<char>, Document)>, count: int) -> Map<
    Seq<char>,
    ValueView,
>
    decreases members, count,
{
    if !(0 < count <= members.len()) {
        Map::empty()
    } else {
        members_value(members, count - 1).insert(
            members[count - 1].0,
            members[count - 1].1.value(),
        )
    }
}

/// Whether `word` stands in `tokens` at position `pos`.
pub open spec fn spelled_at(tokens: Seq<TokenView>, pos: int, word: Seq<TokenView>) -> bool {
    &&& 0 <= pos
    &&& pos + word.len() <= tokens.len()
    &&& forall|j: int| 0 <= j < word.len() ==> tokens[pos + j] == #[trigger] word[j]
}

/// Whether a token can be the first of a value.
pub open spec fn begins_value(token: TokenView) -> bool {
    token is Null || token is False || token is True || token is Number || token is String
        || token is LeftBracket || token is LeftBrace
}

/// The tokens of a document begin with a token that begins a value.
pub proof fn lemma_first_token(doc: Document)
    ensures
        doc.tokens().len() >= 1,
        begins_value(doc.tokens()[0]),
{
}

proof fn lemma_spelled_parts(tokens: Seq<TokenView>, pos: int, a: Seq<TokenView>, b: Seq<TokenView>)
    requires
        spelled_at(tokens, pos, a + b),
    ensures
        spelled_at(tokens, pos, a),
        spelled_at(tokens, pos + a.len(), b),
{
    assert forall|j: int| 0 <= j < a.len() implies tokens[pos + j] == #[trigger] a[j] by {
        assert((a + b)[j] == a[j]);
    }
    assert forall|j: int| 0 <= j < b.len() implies tokens[pos + a.len() + j] == #[trigger] b[j] by {
        assert((a + b)[a.len() + j] == b[j]);
    }
}

/// Where the tokens of a resolvable document stand at `pos`, the value at
/// `pos` is the value of the document, and the cursor is left after its
/// last token.
pub proof fn lemma_document_parses(doc: Document, tokens: Seq<TokenView>, pos: int)
    requires
        doc.resolvable(),
        spelled_at(tokens, pos, doc.tokens()),
    ensures
        value_at(tokens, pos) == (Parsed {
            result: Ok(doc.value()),
            cursor: pos + doc.tokens().len(),
        }),
    decreases doc, 0int,
{
    let word = doc.tokens();
    assert(tokens[pos + 0] == word[0]);
    match doc {
        Document::Array(items) => {
            let inner = elements_tokens(items, 0);
            let open = seq![TokenView::LeftBracket];
            let close = seq![TokenView::RightBracket];
            assert(word == open + (inner + close));
            lemma_spelled_parts(tokens, pos, open, inner + close);
            if items.len() == 0 {
                assert(tokens[pos + 1 + 0] == (inner + close)[0]);
                assert(elements_value(items) == Seq::<ValueView>::empty());
            } else {
                lemma_first_token(items[0]);
                assert((inner + close)[0] == items[0].tokens()[0]);
                assert(tokens[pos + 1 + 0] == (inner + close)[0]);
                assert(elements_value(items).take(0) == Seq::<ValueView>::empty());
                lemma_elements_parse(items, 0, tokens, pos + 1, Seq::empty());
            }
        },
        Document::Object(members) => {
            let inner = members_tokens(members, 0);
            let open = seq![TokenView::LeftBrace];
            let close = seq![TokenView::RightBrace];
            assert(word == open + (inner + close));
            lemma_spelled_parts(tokens, pos, open, inner + close);
            assert(tokens[pos + 1 + 0] == (inner + close)[0]);
            if members.len() > 0 {
                assert((inner + close)[0] == TokenView::String(members[0].0));
                lemma_members_parse(members, 0, tokens, pos + 1, Map::empty());
            }
        },
        _ => {},
    }
}

/// Where the tokens of the elements from `from` on and the closing bracket
/// stand at `pos`, and `read` holds the values of the elements before
/// `from`, the elements from `pos` on complete the array of all values.
pub proof fn lemma_elements_parse(
    items: Seq<Document>,
    from: int,
    tokens: Seq<TokenView>,
    pos: int,
    read: Seq<ValueView>,
)
    requires
        0 <= from < items.len(),
        forall|i: int| 0 <= i < items.len() ==> (#[trigger] items[i]).resolvable(),
        spelled_at(tokens, pos, elements_tokens(items, from) + seq![TokenView::RightBracket]),
        read == elements_value(items).take(from),
    ensures
        elements_from(tokens, pos, read) == (Parsed {
            result: Ok(ValueView::Array(elements_value(items))),
            cursor: pos + elements_tokens(items, from).len() + 1,
        }),
    decreases items, items.len() - from,
{
    let first = items[from].tokens();
    let close = seq![TokenView::RightBracket];
    let value = items[from].value();
    let next = pos + first.len();
    assert(read.push(value) == elements_value(items).take(from + 1));
    if from == items.len() - 1 {
        lemma_spelled_parts(tokens, pos, first, close);
        lemma_document_parses(items[from], tokens, pos);
        assert(tokens[next + 0] == close[0]);
        assert(elements_value(items).take(from + 1) == elements_value(items));
    } else {
        let more = elements_tokens(items, from + 1);
        let comma = seq![TokenView::Comma];
        assert(elements_tokens(items, from) + close == first + (comma + (more + close)));
        lemma_spelled_parts(tokens, pos, first, comma + (more + close));
        lemma_spelled_parts(tokens, next, comma, more + close);
        lemma_document_parses(items[from], tokens, pos);
        assert(tokens[next + 0] == comma[0]);
        lemma_elements_parse(items, from + 1, tokens, next + 1, read.push(value));
    }
}

/// Where the tokens of the members from `from` on and the closing brace
/// stand at `pos`, and `read` is the map of the members before `from`, the
/// members from `pos` on complete the map of all members.
pub proof fn lemma_members_parse(
    members: Seq<(Seq<char>, Document)>,
    from: int,
    tokens: Seq<TokenView>,
    pos: int,
    read: Map<Seq<char>, ValueView>,
)
    requires
        0 <= from < members.len(),
        forall|i: int| 0 <= i < members.len() ==> (#[trigger] members[i]).1.resolvable(),
        spelled_at(tokens, pos, members_tokens(members, from) + seq![TokenView::RightBrace]),
        read == members_value(members, from),
    ensures
        members_from(tokens, pos, read) == (Parsed {
            result: Ok(ValueView::Object(members_value(members, members.len() as int))),
            cursor: pos + members_tokens(members, from).len() + 1,
        }),
    decreases members, members.len() - from,
{
    let head = seq![TokenView::String(members[from].0), TokenView::Colon];
    let body = members[from].1.tokens();
    let close = seq![TokenView::RightBrace];
    let value = members[from].1.value();
    let next = pos + 2 + body.len();
    assert(read.insert(members[from].0, value) == members_value(members, from + 1));
    if from == members.len() - 1 {
        assert(members_tokens(members, from) + close == head + (body + close));
        lemma_spelled_parts(tokens, pos, head, body + close);
        lemma_spelled_parts(tokens, pos + 2, body, close);
        assert(tokens[pos + 0] == head[0]);
        assert(tokens[pos + 1] == head[1]);
        lemma_document_parses(members[from].1, tokens, pos + 2);
        assert(tokens[next + 0] == close[0]);
    } else {
        let more = members_tokens(members, from + 1);
        let comma = seq![TokenView::Comma];
        assert(members_tokens(members, from) + close == head + (body + (comma + (more + close))));
        lemma_spelled_parts(tokens, pos, head, body + (comma + (more + close)));
        lemma_spelled_parts(tokens, pos + 2, body, comma + (more + close));
        lemma_spelled_parts(tokens, next, comma, more + close);
        assert(tokens[pos + 0] == head[0]);
        assert(tokens[pos + 1] == head[1]);
        lemma_document_parses(members[from].1, tokens, pos + 2);
        assert(tokens[next + 0] == comma[0]);
        lemma_members_parse(
            members,
            from + 1,
            tokens,
            next + 1,
            read.insert(members[from].0, value),
        );
    }
}

/// Where the tokens of the elements from `from` on stand at `pos` and
/// the tokens end after them, the elements from `pos` on fail for want of
/// a comma or the closing bracket, with the cursor at the end.
proof fn lemma_elements_unclosed(
    items: Seq<Document>,
    from: int,
    tokens: Seq<TokenView>,
    pos: int,
    read: Seq<ValueView>,
)
    requires
        0 <= from < items.len(),
        forall|i: int| 0 <= i < items.len() ==> (#[trigger] items[i]).resolvable(),
        spelled_at(tokens, pos, elements_tokens(items, from)),
        pos + elements_tokens(items, from).len() == tokens.len(),
    ensures
        elements_from(tokens, pos, read) == (Parsed {
            result: Err(TokenParseError::ExpectedComma),
            cursor: tokens.len() as int,
        }),
    decreases items.len() - from,
{
    let first = items[from].tokens();
    let value = items[from].value();
    let next = pos + first.len();
    if from == items.len() - 1 {
        lemma_document_parses(items[from], tokens, pos);
    } else {
        let more = elements_tokens(items, from + 1);
        let comma = seq![TokenView::Comma];
        assert(elements_tokens(items, from) == first + (comma + more));
        lemma_spelled_parts(tokens, pos, first, comma + more);
        lemma_spelled_parts(tokens, next, comma, more);
        lemma_document_parses(items[from], tokens, pos);
        assert(tokens[next + 0] == comma[0]);
        lemma_elements_unclosed(items, from + 1, tokens, next + 1, read.push(value));
    }
}

/// An array that is not closed fails with `ExpectedComma`: where the
/// tokens end after the last element of an array, parsing the array stops
/// at the end for want of a comma or the closing bracket.
pub proof fn lemma_unclosed_array(items: Seq<Document>, before: Seq<TokenView>)
    requires
        items.len() > 0,
        forall|i: int| 0 <= i < items.len() ==> (#[trigger] items[i]).resolvable(),
    ensures
        value_at(
            before + seq![TokenView::LeftBracket] + elements_tokens(items, 0),
            before.len() as int,
        ) == (Parsed {
            result: Err(TokenParseError::ExpectedComma),
            cursor: (before.len() + 1 + elements_tokens(items, 0).len()) as int,
        }),
{
    let inner = elements_tokens(items, 0);
    let tokens = before + seq![TokenView::LeftBracket] + inner;
    let pos = before.len() as int;
    assert(tokens[pos] == TokenView::LeftBracket);
    lemma_first_token(items[0]);
    assert(inner[0] == items[0].tokens()[0]);
    assert(tokens[pos + 1] == inner[0]);
    assert forall|j: int| 0 <= j < inner.len() implies tokens[pos + 1 + j]
        == #[trigger] inner[j] by {}
    lemma_elements_unclosed(items, 0, tokens, pos + 1, Seq::empty());
}

/// Parsing restores what was written: whatever stands before and after
/// the tokens of a resolvable document, the value parsed where they begin
/// is the value of the document, with the elements of each array in their
/// order and each key of an object with the value of its last member, and
/// the cursor is left after the last token of the document.
pub proof fn lemma_parse_restores_document(
    doc: Document,
    before: Seq<TokenView>,
    after: Seq<TokenView>,
)
    requires
        doc.resolvable(),
    ensures
        value_at(before + doc.tokens() + after, before.len() as int) == (Parsed {
            result: Ok(doc.value()),
            cursor: (before.len() + doc.tokens().len()) as int,
        }),
{
    let tokens = before + doc.tokens() + after;
    assert forall|j: int| 0 <= j < doc.tokens().len() implies tokens[before.len() + j]
        == #[trigger] doc.tokens()[j] by {}
    lemma_document_parses(doc, tokens, before.len() as int);
}

/// In the value of an object, a key has the value of the last member with
/// that key, and only the keys of members are present.
pub proof fn lemma_last_member_wins(members: Seq<(Seq<char>, Document)>, count: int, key: Seq<char>)
    requires
        0 <= count <= members.len(),
    ensures
        members_value(members, count).contains_key(key) <==> exists|i: int|
            0 <= i < count && (#[trigger] members[i]).0 == key,
        forall|i: int|
            0 <= i < count && (#[trigger] members[i]).0 == key && (forall|j: int|
                i < j < count ==> (#[trigger] members[j]).0 != key) ==> members_value(
                members,
                count,
            )[key] == members[i].1.value(),
    decreases count,
{
    if count > 0 {
        lemma_last_member_wins(members, count - 1, key);
        if members[count - 1].0 != key {
            assert forall|i: int|
                0 <= i < count && (#[trigger] members[i]).0 == key && (forall|j: int|
                    i < j < count ==> (#[trigger] members[j]).0 != key) implies members_value(
                members,
                count,
            )[key] == members[i].1.value() by {
                assert(i < count - 1);
            }
        } else {
            assert(members[count - 1].0 == key);
        }
    }
}

/// The text of a token: the character of a punctuation mark, the letters
/// of a literal name, the literal of a number, and the raw text of a
/// string between two quotes.
pub open spec fn token_text(token: TokenView) -> Seq<char> {
    match token {
        TokenView::LeftBrace => seq!['{'],
        TokenView::RightBrace => seq!['}'],
        TokenView::LeftBracket => seq!['['],
        TokenView::RightBracket => seq![']'],
        TokenView::Comma => seq![','],
        TokenView::Colon => seq![':'],
        TokenView::Null => null_word(),
        TokenView::False => false_word(),
        TokenView::True => true_word(),
        TokenView::Number(text) => text,
        TokenView::String(raw) => seq!['"'] + raw + seq!['"'],
    }
}

/// Whether a raw text can stand between quotes: the quote put after it is
/// the first that closes the string.
pub open spec fn quotable(raw: Seq<char>) -> bool {
    string_end(raw + seq!['"'], 0, false) == Some(raw.len() as int)
}

/// Whether a token can be written: a number is a decimal literal that
/// begins with a digit or a minus sign, and the raw text of a string can
/// stand between quotes.
pub open spec fn writable(token: TokenView) -> bool {
    match token {
        TokenView::Number(text) => is_decimal_literal(text) && text.len() > 0 && (is_digit(text[0])
            || text[0] == '-'),
        TokenView::String(raw) => quotable(raw),
        _ => true,
    }
}

/// Whether a text holds whitespace only.
pub open spec fn is_blank(gap: Seq<char>) -> bool {
    forall|i: int| 0 <= i < gap.len() ==> is_whitespace(#[trigger] gap[i])
}

/// Whether the tokens can be written with `gaps[i]` before token `i`: the
/// gaps are blank, each token can be written, and a number that is
/// followed by another has a gap between them.
pub open spec fn spaced(tokens: Seq<TokenView>, gaps: Seq<Seq<char>>) -> bool {
    &&& gaps.len() == tokens.len()
    &&& forall|i: int| 0 <= i < gaps.len() ==> is_blank(#[trigger] gaps[i])
    &&& forall|i: int| 0 <= i < tokens.len() ==> writable(#[trigger] tokens[i])
    &&& forall|i: int|
        0 <= i < tokens.len() - 1 && (#[trigger] tokens[i]) is Number && tokens[i + 1] is Number
            ==> gaps[i + 1].len() > 0
}

/// The text in which each of the tokens from index `from` on stands after
/// its gap. Nothing follows the last token.
pub open spec fn written(tokens: Seq<TokenView>, gaps: Seq<Seq<char>>, from: int) -> Seq<char>
    decreases tokens.len() - from,
{
    if !(0 <= from < tokens.len()) {
        Seq::empty()
    } else {
        gaps[from] + token_text(tokens[from]) + written(tokens, gaps, from + 1)
    }
}

/// Whitespace that stands before another character is skipped up to that
/// character.
proof fn lemma_skip_gap(s: Seq<char>, at: int, gap: Seq<char>)
    requires
        0 <= at,
        at + gap.len() < s.len(),
        s.subrange(at, at + gap.len()) == gap,
        is_blank(gap),
        !is_whitespace(s[at + gap.len()]),
    ensures
        skip_whitespace(s, at) == at + gap.len(),
    decreases gap.len(),
{
    if gap.len() > 0 {
        assert(s[at] == gap[0]);
        let rest = gap.skip(1);
        assert(s.subrange(at + 1, at + 1 + rest.len()) == rest);
        assert forall|i: int| 0 <= i < rest.len() implies is_whitespace(#[trigger] rest[i]) by {
            assert(rest[i] == gap[i + 1]);
        }
        lemma_skip_gap(s, at + 1, rest);
    }
}

/// A run of digits ends in a text where it ends in a part of the text, if
/// no digit follows that part.
proof fn lemma_digits_end_in_context(s: Seq<char>, at: int, text: Seq<char>, i: int)
    requires
        0 <= at,
        at + text.len() <= s.len(),
        s.subrange(at, at + text.len()) == text,
        0 <= i <= text.len(),
        at + text.len() < s.len() ==> !is_digit(s[at + text.len()]),
    ensures
        digits_end(s, at + i) == at + digits_end(text, i),
    decreases text.len() - i,
{
    if i < text.len() {
        assert(text[i] == s[at + i]);
        if is_digit(text[i]) {
            lemma_digits_end_in_context(s, at, text, i + 1);
        }
    }
}

/// Whether a character that follows a number ends it.
pub open spec fn ends_number(c: char) -> bool {
    !is_digit(c) && c != '.' && c != 'e' && c != 'E'
}

/// A decimal literal that stands in a text before a character that ends
/// it is read there as a whole and no further.
proof fn lemma_number_in_context(s: Seq<char>, at: int, text: Seq<char>)
    requires
        0 <= at,
        at + text.len() <= s.len(),
        s.subrange(at, at + text.len()) == text,
        is_decimal_literal(text),
        at + text.len() < s.len() ==> ends_number(s[at + text.len()]),
    ensures
        number_shape(s, at).end == at + text.len(),
{
    let shape = number_shape(text, 0);
    let there = number_shape(s, at);
    lemma_digits_end_bounds(text, shape.int_start);
    if shape.int_end < text.len() && text[shape.int_end] == '.' {
        lemma_digits_end_bounds(text, shape.int_end + 1);
    }
    lemma_digits_end_bounds(text, shape.exp_start);
    if text.len() > 0 {
        assert(text[0] == s[at]);
    }
    assert(there.int_start == at + shape.int_start);
    lemma_digits_end_in_context(s, at, text, shape.int_start);
    assert(there.int_end == at + shape.int_end);
    if shape.int_end < text.len() {
        assert(text[shape.int_end] == s[at + shape.int_end]);
        if text[shape.int_end] == '.' {
            lemma_digits_end_in_context(s, at, text, shape.int_end + 1);
        }
    }
    assert(there.frac_end == at + shape.frac_end);
    if shape.frac_end < text.len() {
        assert(text[shape.frac_end] == s[at + shape.frac_end]);
    }
    if shape.frac_end + 1 < text.len() {
        assert(text[shape.frac_end + 1] == s[at + shape.frac_end + 1]);
    }
    assert(there.exp_start == at + shape.exp_start);
    lemma_digits_end_in_context(s, at, text, shape.exp_start);
}

/// The quote that closes a string in a part of a text closes it in the
/// text.
proof fn lemma_string_end_in_context(
    s: Seq<char>,
    at: int,
    part: Seq<char>,
    i: int,
    escaped: bool,
)
    requires
        0 <= at,
        at + part.len() <= s.len(),
        s.subrange(at, at + part.len()) == part,
        0 <= i <= part.len(),
        string_end(part, i, escaped) is Some,
    ensures
        string_end(s, at + i, escaped) == Some(at + string_end(part, i, escaped)->0),
    decreases part.len() - i,
{
    if i < part.len() {
        assert(part[i] == s[at + i]);
        if !(part[i] == '"' && !escaped) {
            lemma_string_end_in_context(s, at, part, i + 1, part[i] == '\\' && !escaped);
        }
    }
}

/// The quote that closes a string, or that there is none, is the same in
/// a text and in what is left of it after a part at its beginning.
proof fn lemma_string_end_moved(s: Seq<char>, at: int, rest: Seq<char>, i: int, escaped: bool)
    requires
        0 <= at <= s.len(),
        s.skip(at) == rest,
        0 <= i <= rest.len(),
    ensures
        string_end(s, at + i, escaped) == match string_end(rest, i, escaped) {
            Some(close) => Some(at + close),
            None => None,
        },
    decreases rest.len() - i,
{
    if i < rest.len() {
        assert(rest[i] == s[at + i]);
        if !(rest[i] == '"' && !escaped) {
            lemma_string_end_moved(s, at, rest, i + 1, rest[i] == '\\' && !escaped);
        }
    }
}

/// The literal read at the beginning of what is left of a text after a
/// part at its beginning is the literal read in the text after that part.
proof fn lemma_number_shape_moved(s: Seq<char>, at: int, rest: Seq<char>)
    requires
        0 <= at <= s.len(),
        s.skip(at) == rest,
    ensures
        number_shape(s, at).end == at + number_shape(rest, 0).end,
        0 <= number_shape(rest, 0).end <= rest.len(),
{
    let shape = number_shape(rest, 0);
    let there = number_shape(s, at);
    assert(s.subrange(at, at + rest.len()) == rest);
    lemma_digits_end_bounds(rest, shape.int_start);
    if shape.int_end < rest.len() && rest[shape.int_end] == '.' {
        lemma_digits_end_bounds(rest, shape.int_end + 1);
    }
    lemma_digits_end_bounds(rest, shape.exp_start);
    if rest.len() > 0 {
        assert(rest[0] == s[at]);
    }
    assert(there.int_start == at + shape.int_start);
    lemma_digits_end_in_context(s, at, rest, shape.int_start);
    if shape.int_end < rest.len() {
        assert(rest[shape.int_end] == s[at + shape.int_end]);
        if rest[shape.int_end] == '.' {
            lemma_digits_end_in_context(s, at, rest, shape.int_end + 1);
        }
    }
    assert(there.frac_end == at + shape.frac_end);
    if shape.frac_end < rest.len() {
        assert(rest[shape.frac_end] == s[at + shape.frac_end]);
    }
    if shape.frac_end + 1 < rest.len() {
        assert(rest[shape.frac_end + 1] == s[at + shape.frac_end + 1]);
    }
    assert(there.exp_start == at + shape.exp_start);
    lemma_digits_end_in_context(s, at, rest, shape.exp_start);
}

/// What scanning yields after whitespace, moved on by the length of the
/// whitespace.
pub open spec fn moved_on(
    scan: Result<(TokenView, int), TokenizeErrorView>,
    by: int,
) -> Result<(TokenView, int), TokenizeErrorView> {
    match scan {
        Ok((token, next)) => Ok((token, next + by)),
        Err(e) => Err(e),
    }
}

/// Whitespace before a token changes neither the token nor the error:
/// scanning a text that begins with whitespace yields what scanning the
/// text after the whitespace yields, the same token with the cursor
/// further on by the length of the whitespace, or the same error. The
/// whitespace is skipped up to the first character of that text.
pub proof fn lemma_leading_whitespace(gap: Seq<char>, rest: Seq<char>)
    requires
        is_blank(gap),
        rest.len() > 0,
        !is_whitespace(rest[0]),
    ensures
        skip_whitespace(gap + rest, 0) == gap.len(),
        skip_whitespace(rest, 0) == 0,
        scan_token(gap + rest, 0) == moved_on(scan_token(rest, 0), gap.len() as int),
{
    let s = gap + rest;
    let at = gap.len() as int;
    assert(s.subrange(0, at) == gap);
    assert(s.skip(at) == rest);
    assert(s[at] == rest[0]);
    lemma_skip_gap(s, 0, gap);
    assert forall|word: Seq<char>| word_at(s, at, word) == word_at(rest, 0, word) by {
        if at + word.len() <= s.len() {
            assert(s.subrange(at, at + word.len()) == rest.subrange(0, word.len() as int));
        }
    }
    if is_digit(rest[0]) || rest[0] == '-' {
        lemma_number_shape_moved(s, at, rest);
        let end = number_shape(rest, 0).end;
        assert(s.subrange(at, at + end) == rest.subrange(0, end));
    }
    if rest[0] == '"' {
        lemma_string_end_moved(s, at, rest, 1, false);
        if let Some(close) = string_end(rest, 1, false) {
            lemma_string_end_bounds(rest, 1, false);
            assert(s.subrange(at + 1, at + close) == rest.subrange(1, close));
        }
    }
}

/// A token that can be written is scanned from where its text stands, if
/// a number is not followed by a character that continues it.
proof fn lemma_token_scans(s: Seq<char>, at: int, token: TokenView)
    requires
        0 <= at,
        at + token_text(token).len() <= s.len(),
        s.subrange(at, at + token_text(token).len()) == token_text(token),
        writable(token),
        token is Number && at + token_text(token).len() < s.len() ==> ends_number(
            s[at + token_text(token).len()],
        ),
    ensures
        token_text(token).len() > 0,
        !is_whitespace(token_text(token)[0]),
        scan_token(s, at) == Ok::<(TokenView, int), TokenizeErrorView>(
            (token, at + token_text(token).len()),
        ),
{
    let text = token_text(token);
    assert(text.len() > 0);
    assert(s[at] == text[0]);
    assert(skip_whitespace(s, at) == at);
    match token {
        TokenView::Number(literal) => {
            lemma_number_in_context(s, at, literal);
        },
        TokenView::String(raw) => {
            let inside = raw + seq!['"'];
            assert(s.subrange(at + 1, at + 1 + inside.len()) == inside) by {
                assert forall|j: int| 0 <= j < inside.len() implies s[at + 1 + j] == inside[j] by {
                    assert(text[j + 1] == s[at + (j + 1)]);
                }
            }
            lemma_string_end_in_context(s, at + 1, inside, 0, false);
            assert(s.subrange(at + 1, at + 1 + raw.len()) == raw) by {
                assert forall|j: int| 0 <= j < raw.len() implies s[at + 1 + j] == raw[j] by {
                    assert(text[j + 1] == s[at + (j + 1)]);
                }
            }
        },
        _ => {},
    }
}

/// The scanner reads back what was written: the text in which tokens
/// stand one after the other, each after any whitespace, is scanned into
/// those tokens.
pub proof fn lemma_written_scans(tokens: Seq<TokenView>, gaps: Seq<Seq<char>>)
    requires
        spaced(tokens, gaps),
    ensures
        tokenize_spec(written(tokens, gaps, 0)) == Ok::<Seq<TokenView>, TokenizeErrorView>(tokens),
{
    let s = written(tokens, gaps, 0);
    assert(s.skip(0) == s);
    lemma_written_scans_from(tokens, gaps, 0, s, 0);
    assert(tokens.skip(0) == tokens);
}

proof fn lemma_written_scans_from(
    tokens: Seq<TokenView>,
    gaps: Seq<Seq<char>>,
    from: int,
    s: Seq<char>,
    at: int,
)
    requires
        spaced(tokens, gaps),
        0 <= from <= tokens.len(),
        0 <= at <= s.len(),
        s.skip(at) == written(tokens, gaps, from),
    ensures
        tokenize_from(s, at) == Ok::<Seq<TokenView>, TokenizeErrorView>(tokens.skip(from)),
    decreases tokens.len() - from,
{
    if from == tokens.len() {
        assert(s.skip(at).len() == 0);
        assert(tokens.skip(from) == Seq::<TokenView>::empty());
    } else {
        let gap = gaps[from];
        let token = tokens[from];
        let text = token_text(token);
        let rest = written(tokens, gaps, from + 1);
        let tail = s.skip(at);
        assert(tail == gap + text + rest);
        assert(tail.len() == gap.len() + text.len() + rest.len());
        let begin = at + gap.len();
        let next = begin + text.len();
        assert forall|j: int| 0 <= j < gap.len() implies s[at + j] == gap[j] by {
            assert(tail[j] == s[at + j]);
        }
        assert forall|j: int| 0 <= j < text.len() implies s[begin + j] == text[j] by {
            assert(tail[gap.len() + j] == s[at + (gap.len() + j)]);
        }
        assert(s.subrange(at, at + gap.len()) == gap);
        assert(s.subrange(begin, begin + text.len()) == text);
        assert(s.skip(next) == rest) by {
            assert forall|j: int| 0 <= j < rest.len() implies s[next + j] == rest[j] by {
                assert(tail[gap.len() + text.len() + j] == s[at + (gap.len() + text.len() + j)]);
            }
        }
        if token is Number && next < s.len() {
            let after = tokens[from + 1];
            assert(rest == gaps[from + 1] + token_text(after) + written(tokens, gaps, from + 2));
            assert(s[next] == rest[0]);
            if gaps[from + 1].len() > 0 {
                assert(rest[0] == gaps[from + 1][0]);
                assert(is_whitespace(gaps[from + 1][0]));
            } else {
                assert(writable(after));
                assert(rest[0] == token_text(after)[0]);
            }
            assert(ends_number(s[next]));
        }
        lemma_token_scans(s, begin, token);
        assert(s[begin] == text[0]);
        lemma_skip_gap(s, at, gap);
        lemma_token_scan_after_gap(s, at, begin);
        lemma_written_scans_from(tokens, gaps, from + 1, s, next);
        assert(seq![token] + tokens.skip(from + 1) == tokens.skip(from));
    }
}

/// Scanning a token skips the whitespace before it.
proof fn lemma_token_scan_after_gap(s: Seq<char>, at: int, begin: int)
    requires
        0 <= at <= begin < s.len(),
        skip_whitespace(s, at) == begin,
    ensures
        scan_token(s, at) == scan_token(s, begin),
{
    assert(!is_whitespace(s[begin])) by {
        lemma_skip_whitespace_stops(s, at);
    }
    assert(skip_whitespace(s, begin) == begin);
}

impl Document {
    /// Whether the document can be written so that it is read back: its
    /// numbers are decimal literals that begin with a digit or a minus
    /// sign, the raw texts of its strings and keys can stand between
    /// quotes, and the escapes of its strings can be resolved.
    pub open spec fn writable(self) -> bool
        decreases self,
    {
        match self {
            Document::Number(text) => writable(TokenView::Number(text)),
            Document::String(raw) => quotable(raw) && unescape(raw) is Ok,
            Document::Array(items) => forall|i: int|
                0 <= i < items.len() ==> (#[trigger] items[i]).writable(),
            Document::Object(members) => forall|i: int|
                0 <= i < members.len() ==> quotable((#[trigger] members[i]).0)
                    && members[i].1.writable(),
            _ => true,
        }
    }
}

/// Whether each of the tokens can be written and no number is followed by
/// another.
pub open spec fn separated(tokens: Seq<TokenView>) -> bool {
    &&& forall|i: int| 0 <= i < tokens.len() ==> writable(#[trigger] tokens[i])
    &&& forall|i: int|
        0 <= i < tokens.len() - 1 && (#[trigger] tokens[i]) is Number ==> !(tokens[i
            + 1] is Number)
}

proof fn lemma_separated_joined(a: Seq<TokenView>, mark: TokenView, b: Seq<TokenView>)
    requires
        separated(a),
        separated(b),
        writable(mark),
        !(mark is Number),
    ensures
        separated(a + seq![mark] + b),
{
    let all = a + seq![mark] + b;
    assert forall|i: int| 0 <= i < all.len() implies writable(#[trigger] all[i]) by {
        if i < a.len() {
            assert(all[i] == a[i]);
        } else if i > a.len() {
            assert(all[i] == b[i - a.len() - 1]);
        }
    }
    assert forall|i: int|
        0 <= i < all.len() - 1 && (#[trigger] all[i]) is Number implies !(all[i + 1] is Number) by {
        if i < a.len() {
            assert(all[i] == a[i]);
            if i + 1 < a.len() {
                assert(all[i + 1] == a[i + 1]);
            }
        } else if i > a.len() {
            assert(all[i] == b[i - a.len() - 1]);
            assert(all[i + 1] == b[i - a.len()]);
        }
    }
}

/// The tokens of a writable document can each be written, no number among
/// them is followed by another, and its strings can be resolved.
pub proof fn lemma_document_tokens_separated(doc: Document)
    requires
        doc.writable(),
    ensures
        separated(doc.tokens()),
        doc.resolvable(),
    decreases doc, 0int,
{
    match doc {
        Document::Array(items) => {
            assert forall|i: int| 0 <= i < items.len() implies (
            #[trigger] items[i]).resolvable() by {
                lemma_document_tokens_separated(items[i]);
            }
            lemma_elements_tokens_separated(items, 0);
            let inner = elements_tokens(items, 0);
            let empty = Seq::<TokenView>::empty();
            lemma_separated_joined(empty, TokenView::LeftBracket, inner);
            lemma_separated_joined(
                empty + seq![TokenView::LeftBracket] + inner,
                TokenView::RightBracket,
                empty,
            );
            assert(doc.tokens() == empty + seq![TokenView::LeftBracket] + inner
                + seq![TokenView::RightBracket] + empty);
        },
        Document::Object(members) => {
            assert forall|i: int| 0 <= i < members.len() implies (
            #[trigger] members[i]).1.resolvable() by {
                lemma_document_tokens_separated(members[i].1);
            }
            lemma_members_tokens_separated(members, 0);
            let inner = members_tokens(members, 0);
            let empty = Seq::<TokenView>::empty();
            lemma_separated_joined(empty, TokenView::LeftBrace, inner);
            lemma_separated_joined(
                empty + seq![TokenView::LeftBrace] + inner,
                TokenView::RightBrace,
                empty,
            );
            assert(doc.tokens() == empty + seq![TokenView::LeftBrace] + inner
                + seq![TokenView::RightBrace] + empty);
        },
        _ => {},
    }
}

proof fn lemma_elements_tokens_separated(items: Seq<Document>, from: int)
    requires
        forall|i: int| 0 <= i < items.len() ==> (#[trigger] items[i]).writable(),
    ensures
        separated(elements_tokens(items, from)),
    decreases items, items.len() - from,
{
    if 0 <= from < items.len() {
        lemma_document_tokens_separated(items[from]);
        if from < items.len() - 1 {
            lemma_elements_tokens_separated(items, from + 1);
            lemma_separated_joined(
                items[from].tokens(),
                TokenView::Comma,
                elements_tokens(items, from + 1),
            );
        }
    }
}

proof fn lemma_members_tokens_separated(members: Seq<(Seq<char>, Document)>, from: int)
    requires
        forall|i: int|
            0 <= i < members.len() ==> quotable((#[trigger] members[i]).0)
                && members[i].1.writable(),
    ensures
        separated(members_tokens(members, from)),
    decreases members, members.len() - from,
{
    if 0 <= from < members.len() {
        lemma_document_tokens_separated(members[from].1);
        let key = seq![TokenView::String(members[from].0)];
        let body = members[from].1.tokens();
        let member = seq![TokenView::String(members[from].0), TokenView::Colon] + body;
        lemma_separated_joined(key, TokenView::Colon, body);
        assert(member == key + seq![TokenView::Colon] + body);
        if from < members.len() - 1 {
            lemma_members_tokens_separated(members, from + 1);
            lemma_separated_joined(member, TokenView::Comma, members_tokens(members, from + 1));
        }
    }
}

/// Reading restores what was written: the text in which the tokens of a
/// writable document stand one after the other, each after any
/// whitespace, is scanned into those tokens and parsed into the value of
/// the document: the elements of each array in their order, and each key
/// of an object with the value of its last member.
pub proof fn lemma_parse_restores_text(doc: Document, gaps: Seq<Seq<char>>)
    requires
        doc.writable(),
        gaps.len() == doc.tokens().len(),
        forall|i: int| 0 <= i < gaps.len() ==> is_blank(#[trigger] gaps[i]),
    ensures
        tokenize_spec(written(doc.tokens(), gaps, 0)) == Ok::<Seq<TokenView>, TokenizeErrorView>(
            doc.tokens(),
        ),
        parse_spec(written(doc.tokens(), gaps, 0)) == Ok::<ValueView, ParseErrorView>(doc.value()),
{
    let tokens = doc.tokens();
    lemma_document_tokens_separated(doc);
    assert(spaced(tokens, gaps));
    lemma_written_scans(tokens, gaps);
    lemma_parse_restores_document(doc, Seq::empty(), Seq::empty());
    assert(Seq::<TokenView>::empty() + tokens + Seq::<TokenView>::empty() == tokens);
}

} // verus!
