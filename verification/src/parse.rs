//! The parser: from a sequence of tokens to a value tree.

use crate::text::{chars_of, hex_digit, hex_value, is_scalar_value};
use crate::tokenize::{token_views, Token, TokenView};
use crate::value::{values_view, Object, Value, ValueView};
use vstd::prelude::*;

verus! {

/// Why parsing stopped.
#[derive(Debug, PartialEq, Eq, Clone, Copy)]
pub enum TokenParseError {
    /// A `\u` escape is followed by fewer than four characters.
    UnfinishedEscape,
    /// A character of a `\u` escape is no hexadecimal digit.
    InvalidHexValue,
    /// The code that a `\u` escape gives is no Unicode scalar value.
    InvalidCodePointValue,
    /// After an element or a member neither a comma nor the closing
    /// bracket or brace follows.
    ExpectedComma,
    /// After the key of a member no colon follows.
    ExpectedColon,
    /// Where a member must begin there is no string.
    ExpectedProperty,
    /// Where a value must begin there is no token that begins one.
    UnexpectedToken,
}

/// What a one-character escape stands for: `b`, `f`, `n`, `r` and `t` for
/// backspace, form feed, line feed, carriage return and tab; every other
/// character, the quote and the backslash among them, for itself.
pub open spec fn escape_char(c: char) -> char {
    if c == 'b' {
        '\u{8}'
    } else if c == 'f' {
        '\u{c}'
    } else if c == 'n' {
        '\n'
    } else if c == 'r' {
        '\r'
    } else if c == 't' {
        '\t'
    } else {
        c
    }
}

/// The number that the first `n` characters of `raw` denote as hexadecimal
/// digits, read from the left: `UnfinishedEscape` where `raw` ends before
/// them, `InvalidHexValue` at the first that is no hexadecimal digit.
pub open spec fn hex_number(raw: Seq<char>, n: nat) -> Result<int, TokenParseError>
    decreases n,
{
    if n == 0 {
        Ok(0)
    } else {
        match hex_number(raw, (n - 1) as nat) {
            Err(e) => Err(e),
            Ok(high) => if raw.len() < n {
                Err(TokenParseError::UnfinishedEscape)
            } else {
                match hex_value(raw[n - 1]) {
                    None => Err(TokenParseError::InvalidHexValue),
                    Some(digit) => Ok(high * 16 + digit),
                }
            },
        }
    }
}

/// Puts `c` before what decoding the rest yields.
pub open spec fn preceded_by(c: char, rest: Result<Seq<char>, TokenParseError>) -> Result<
    Seq<char>,
    TokenParseError,
> {
    match rest {
        Ok(text) => Ok(seq![c] + text),
        Err(e) => Err(e),
    }
}

/// The string that the raw text of a string token denotes. A character
/// other than a backslash stands for itself. A backslash with the
/// character after it stands for [`escape_char`] of that character, except
/// that `\u` with four hexadecimal digits stands for the character with
/// that code. A backslash at the very end stands for nothing.
pub open spec fn unescape(raw: Seq<char>) -> Result<Seq<char>, TokenParseError>
    decreases raw.len(),
{
    if raw.len() == 0 {
        Ok(Seq::empty())
    } else if raw[0] != '\\' {
        preceded_by(raw[0], unescape(raw.skip(1)))
    } else if raw.len() == 1 {
        Ok(Seq::empty())
    } else if raw[1] != 'u' {
        preceded_by(escape_char(raw[1]), unescape(raw.skip(2)))
    } else {
        match hex_number(raw.skip(2), 4) {
            Err(e) => Err(e),
            Ok(code) => if is_scalar_value(code) {
                preceded_by(code as char, unescape(raw.skip(6)))
            } else {
                Err(TokenParseError::InvalidCodePointValue)
            },
        }
    }
}

/// What the one-character escape `c` stands for.
fn resolve_escape(c: char) -> (r: char)
    ensures
        r == escape_char(c),
{
    if c == 'b' {
        '\u{8}'
    } else if c == 'f' {
        '\u{c}'
    } else if c == 'n' {
        '\n'
    } else if c == 'r' {
        '\r'
    } else if c == 't' {
        '\t'
    } else {
        c
    }
}

/// Joins the text decoded so far with what decoding the rest yields.
pub open spec fn decoded_then(
    decoded: Seq<char>,
    rest: Result<Seq<char>, TokenParseError>,
) -> Result<Seq<char>, TokenParseError> {
    match rest {
        Ok(text) => Ok(decoded + text),
        Err(e) => Err(e),
    }
}

/// Resolves the escape sequences in the raw text of a string token.
pub fn parse_string(s: &str) -> (r: Result<Value, TokenParseError>)
    ensures
        match unescape(s@) {
            Ok(text) => r matches Ok(Value::String(out)) && out@ == text,
            Err(e) => r == Err::<Value, TokenParseError>(e),
        },
{
    let chars = chars_of(s);
    let ghost raw = chars@;
    let mut output = String::new();
    let mut i: usize = 0;
    assert(raw.skip(0) == raw);
    assert(unescape(raw) is Ok ==> output@ + unescape(raw)->Ok_0 == unescape(raw)->Ok_0);
    while i < chars.len()
        invariant
            raw == chars@,
            raw == s@,
            0 <= i <= raw.len(),
            unescape(raw) == decoded_then(output@, unescape(raw.skip(i as int))),
        decreases chars.len() - i,
    {
        let ghost rest = raw.skip(i as int);
        let ghost decoded = output@;
        let ch = chars[i];
        assert(rest[0] == ch);
        if ch != '\\' {
            output.push(ch);
            i += 1;
            proof {
                assert(rest.skip(1) == raw.skip(i as int));
                if let Ok(text) = unescape(raw.skip(i as int)) {
                    assert(decoded + (seq![ch] + text) == decoded.push(ch) + text);
                }
            }
        } else if i + 1 >= chars.len() {
            i += 1;
            proof {
                assert(raw.skip(i as int).len() == 0);
                assert(decoded + Seq::<char>::empty() == decoded);
            }
        } else if chars[i + 1] != 'u' {
            let escaped = chars[i + 1];
            assert(rest[1] == escaped);
            let plain = resolve_escape(escaped);
            output.push(plain);
            i += 2;
            proof {
                assert(rest.skip(2) == raw.skip(i as int));
                if let Ok(text) = unescape(raw.skip(i as int)) {
                    assert(decoded + (seq![plain] + text) == decoded.push(plain) + text);
                }
            }
        } else {
            assert(rest[1] == 'u');
            let ghost digits = rest.skip(2);
            let mut code: u32 = 0;
            let mut k: usize = 0;
            while k < 4
                invariant
                    raw == chars@,
                    raw == s@,
                    i + 1 < raw.len(),
                    digits == rest.skip(2),
                    rest.len() >= 2,
                    forall|j: int| 0 <= j < digits.len() ==> digits[j] == raw[i + 2 + j],
                    digits.len() == raw.len() - i - 2,
                    0 <= k <= 4,
                    hex_number(digits, k as nat) == Ok::<int, TokenParseError>(code as int),
                    code < 0x10000,
                    k < 4 ==> code < 0x1000,
                    k < 3 ==> code < 0x100,
                    k < 2 ==> code < 0x10,
                    unescape(raw) == decoded_then(output@, unescape(raw.skip(i as int))),
                    rest == raw.skip(i as int),
                    rest[0] == '\\',
                    rest[1] == 'u',
                decreases 4 - k,
            {
                if k >= chars.len() - i - 2 {
                    proof {
                        assert(hex_number(digits, (k + 1) as nat) == Err::<int, TokenParseError>(
                            TokenParseError::UnfinishedEscape,
                        ));
                        lemma_hex_number_error(digits, (k + 1) as nat, 4);
                    }
                    return Err(TokenParseError::UnfinishedEscape);
                }
                match hex_digit(chars[i + 2 + k]) {
                    None => {
                        proof {
                            assert(hex_number(digits, (k + 1) as nat) == Err::<
                                int,
                                TokenParseError,
                            >(TokenParseError::InvalidHexValue));
                            lemma_hex_number_error(digits, (k + 1) as nat, 4);
                        }
                        return Err(TokenParseError::InvalidHexValue);
                    },
                    Some(digit) => {
                        code = code * 16 + digit;
                    },
                }
                k += 1;
            }
            match char::from_u32(code) {
                None => {
                    return Err(TokenParseError::InvalidCodePointValue);
                },
                Some(c) => {
                    output.push(c);
                    i += 6;
                    proof {
                        assert(c as int == code as int);
                        assert(c == (code as int) as char);
                        assert(rest.skip(6) == raw.skip(i as int));
                        if let Ok(text) = unescape(raw.skip(i as int)) {
                            assert(decoded + (seq![c] + text) == decoded.push(c) + text);
                        }
                    }
                },
            }
        }
    }
    assert(raw.skip(i as int).len() == 0);
    assert(output@ + Seq::<char>::empty() == output@);
    Ok(Value::String(output))
}

/// An error among the first `n` digits is the error among the first `m`,
/// for `n <= m`.
pub proof fn lemma_hex_number_error(raw: Seq<char>, n: nat, m: nat)
    requires
        n <= m,
        hex_number(raw, n) is Err,
    ensures
        hex_number(raw, m) == hex_number(raw, n),
    decreases m - n,
{
    if n < m {
        lemma_hex_number_error(raw, n, (m - 1) as nat);
    }
}

/// What parsing from a position yields: the value or the error, and where
/// the cursor stands afterwards.
pub ghost struct Parsed {
    pub result: Result<ValueView, TokenParseError>,
    pub cursor: int,
}

/// The value whose first token is at `pos`, with the cursor after its last
/// token. Where it fails on a token, the cursor is at that token; where the
/// escapes of a string cannot be resolved, it is after the string.
pub open spec fn value_at(tokens: Seq<TokenView>, pos: int) -> Parsed
    decreases tokens.len() - pos, 1int,
{
    if !(0 <= pos < tokens.len()) {
        Parsed { result: Err(TokenParseError::UnexpectedToken), cursor: pos }
    } else {
        match tokens[pos] {
            TokenView::Null => Parsed { result: Ok(ValueView::Null), cursor: pos + 1 },
            TokenView::False => Parsed { result: Ok(ValueView::Boolean(false)), cursor: pos + 1 },
            TokenView::True => Parsed { result: Ok(ValueView::Boolean(true)), cursor: pos + 1 },
            TokenView::Number(text) => Parsed {
                result: Ok(ValueView::Number(text)),
                cursor: pos + 1,
            },
            TokenView::String(raw) => Parsed {
                result: match unescape(raw) {
                    Ok(text) => Ok(ValueView::String(text)),
                    Err(e) => Err(e),
                },
                cursor: pos + 1,
            },
            TokenView::LeftBracket => array_at(tokens, pos),
            TokenView::LeftBrace => object_at(tokens, pos),
            _ => Parsed { result: Err(TokenParseError::UnexpectedToken), cursor: pos },
        }
    }
}

/// The array whose opening bracket is at `pos`: empty where the closing
/// bracket follows at once, else the elements from `pos + 1` on.
pub open spec fn array_at(tokens: Seq<TokenView>, pos: int) -> Parsed
    decreases tokens.len() - pos, 0int,
{
    if !(0 <= pos < tokens.len()) {
        Parsed { result: Err(TokenParseError::UnexpectedToken), cursor: pos }
    } else if pos + 1 < tokens.len() && tokens[pos + 1] is RightBracket {
        Parsed { result: Ok(ValueView::Array(Seq::empty())), cursor: pos + 2 }
    } else {
        elements_from(tokens, pos + 1, Seq::empty())
    }
}

/// The array that holds `read` and then the elements from `pos` on: a
/// value, then either a comma and more elements, or the closing bracket.
/// (The value ends after `pos`, see [`lemma_value_advances`]; the
/// definition says so only to show that it is well-founded.)
pub open spec fn elements_from(tokens: Seq<TokenView>, pos: int, read: Seq<ValueView>) -> Parsed
    decreases tokens.len() - pos, 2int,
{
    let element = value_at(tokens, pos);
    match element.result {
        Err(e) => element,
        Ok(value) => {
            let next = element.cursor;
            if pos <= next < tokens.len() && tokens[next] is Comma {
                elements_from(tokens, next + 1, read.push(value))
            } else if 0 <= next < tokens.len() && tokens[next] is RightBracket {
                Parsed { result: Ok(ValueView::Array(read.push(value))), cursor: next + 1 }
            } else {
                Parsed { result: Err(TokenParseError::ExpectedComma), cursor: next }
            }
        },
    }
}

/// The object whose opening brace is at `pos`: empty where the closing
/// brace follows at once, else the members from `pos + 1` on.
pub open spec fn object_at(tokens: Seq<TokenView>, pos: int) -> Parsed
    decreases tokens.len() - pos, 0int,
{
    if !(0 <= pos < tokens.len()) {
        Parsed { result: Err(TokenParseError::UnexpectedToken), cursor: pos }
    } else if pos + 1 < tokens.len() && tokens[pos + 1] is RightBrace {
        Parsed { result: Ok(ValueView::Object(Map::empty())), cursor: pos + 2 }
    } else {
        members_from(tokens, pos + 1, Map::empty())
    }
}

/// The object that holds `read` and then the members from `pos` on: a
/// string as the key, a colon and a value, then either a comma and more
/// members, or the closing brace. The key is the raw text of its token. A
/// member replaces an earlier one with the same key.
pub open spec fn members_from(
    tokens: Seq<TokenView>,
    pos: int,
    read: Map<Seq<char>, ValueView>,
) -> Parsed
    decreases tokens.len() - pos, 2int,
{
    if !(0 <= pos < tokens.len() && tokens[pos] is String) {
        Parsed { result: Err(TokenParseError::ExpectedProperty), cursor: pos }
    } else if !(pos + 1 < tokens.len() && tokens[pos + 1] is Colon) {
        Parsed { result: Err(TokenParseError::ExpectedColon), cursor: pos + 1 }
    } else {
        let key = tokens[pos]->String_0;
        let member = value_at(tokens, pos + 2);
        match member.result {
            Err(e) => member,
            Ok(value) => {
                let next = member.cursor;
                if pos <= next < tokens.len() && tokens[next] is Comma {
                    members_from(tokens, next + 1, read.insert(key, value))
                } else if 0 <= next < tokens.len() && tokens[next] is RightBrace {
                    Parsed {
                        result: Ok(ValueView::Object(read.insert(key, value))),
                        cursor: next + 1,
                    }
                } else {
                    Parsed { result: Err(TokenParseError::ExpectedComma), cursor: next }
                }
            },
        }
    }
}

/// A value that is parsed ends after the position at which it begins, and
/// within the tokens.
pub proof fn lemma_value_advances(tokens: Seq<TokenView>, pos: int)
    ensures
        value_at(tokens, pos).result is Ok ==> pos < value_at(tokens, pos).cursor <= tokens.len(),
        array_at(tokens, pos).result is Ok ==> pos < array_at(tokens, pos).cursor <= tokens.len(),
        object_at(tokens, pos).result is Ok ==> pos < object_at(tokens, pos).cursor
            <= tokens.len(),
    decreases tokens.len() - pos, 1int,
{
    if 0 <= pos < tokens.len() {
        if !(pos + 1 < tokens.len() && tokens[pos + 1] is RightBracket) {
            lemma_elements_advance(tokens, pos + 1, Seq::empty());
        }
        if !(pos + 1 < tokens.len() && tokens[pos + 1] is RightBrace) {
            lemma_members_advance(tokens, pos + 1, Map::empty());
        }
    }
}

pub proof fn lemma_elements_advance(tokens: Seq<TokenView>, pos: int, read: Seq<ValueView>)
    requires
        0 <= pos <= tokens.len(),
    ensures
        elements_from(tokens, pos, read).result is Ok ==> pos < elements_from(
            tokens,
            pos,
            read,
        ).cursor <= tokens.len(),
    decreases tokens.len() - pos, 2int,
{
    lemma_value_advances(tokens, pos);
    let element = value_at(tokens, pos);
    if let Ok(value) = element.result {
        let next = element.cursor;
        if next < tokens.len() && tokens[next] is Comma {
            lemma_elements_advance(tokens, next + 1, read.push(value));
        }
    }
}

pub proof fn lemma_members_advance(
    tokens: Seq<TokenView>,
    pos: int,
    read: Map<Seq<char>, ValueView>,
)
    requires
        0 <= pos <= tokens.len(),
    ensures
        members_from(tokens, pos, read).result is Ok ==> pos < members_from(
            tokens,
            pos,
            read,
        ).cursor <= tokens.len(),
    decreases tokens.len() - pos, 2int,
{
    if pos < tokens.len() && tokens[pos] is String && pos + 1 < tokens.len() && tokens[pos
        + 1] is Colon {
        lemma_value_advances(tokens, pos + 2);
        let key = tokens[pos]->String_0;
        let member = value_at(tokens, pos + 2);
        if let Ok(value) = member.result {
            let next = member.cursor;
            if next < tokens.len() && tokens[next] is Comma {
                lemma_members_advance(tokens, next + 1, read.insert(key, value));
            }
        }
    }
}

/// Whether a result and the cursor beside it are what `expected` says.
pub open spec fn parsed_as(
    r: Result<Value, TokenParseError>,
    cursor: int,
    expected: Parsed,
) -> bool {
    &&& cursor == expected.cursor
    &&& match expected.result {
        Ok(v) => r matches Ok(value) && value@ == v,
        Err(e) => r matches Err(err) && err == e,
    }
}

/// Parses the value that begins at the cursor and leaves the cursor after
/// the last token of that value.
pub fn parse_tokens(tokens: &[Token], index: &mut usize) -> (r: Result<Value, TokenParseError>)
    ensures
        parsed_as(r, *final(index) as int, value_at(token_views(tokens@), *old(index) as int)),
    decreases tokens.len() - *old(index), 1int,
{
    let at: usize = *index;
    if at >= tokens.len() {
        return Err(TokenParseError::UnexpectedToken);
    }
    assert(token_views(tokens@)[at as int] == tokens@[at as int]@);
    match &tokens[at] {
        Token::Null => {
            *index = at + 1;
            Ok(Value::Null)
        },
        Token::False => {
            *index = at + 1;
            Ok(Value::Boolean(false))
        },
        Token::True => {
            *index = at + 1;
            Ok(Value::Boolean(true))
        },
        Token::Number(number) => {
            *index = at + 1;
            Ok(Value::Number(number.clone()))
        },
        Token::String(raw) => {
            *index = at + 1;
            parse_string(raw.as_str())
        },
        Token::LeftBracket => parse_array(tokens, index),
        Token::LeftBrace => parse_object(tokens, index),
        _ => Err(TokenParseError::UnexpectedToken),
    }
}

/// Parses an array; expects its opening bracket at the cursor.
fn parse_array(tokens: &[Token], index: &mut usize) -> (r: Result<Value, TokenParseError>)
    requires
        *old(index) < tokens.len(),
    ensures
        parsed_as(r, *final(index) as int, array_at(token_views(tokens@), *old(index) as int)),
    decreases tokens.len() - *old(index), 0int,
{
    let ghost views = token_views(tokens@);
    let start: usize = *index;
    let mut array: Vec<Value> = Vec::new();
    let mut at: usize = start + 1;
    if at < tokens.len() {
        assert(views[at as int] == tokens@[at as int]@);
        if let Token::RightBracket = &tokens[at] {
            *index = at + 1;
            assert(values_view(array@) == Seq::<ValueView>::empty());
            return Ok(Value::Array(array));
        }
    }
    assert(values_view(array@) == Seq::<ValueView>::empty());
    loop
        invariant
            views == token_views(tokens@),
            start == *old(index),
            start < at <= tokens.len(),
            array_at(views, start as int) == elements_from(views, at as int, values_view(array@)),
        decreases tokens.len() - at,
    {
        let ghost read = values_view(array@);
        let mut cursor: usize = at;
        match parse_tokens(tokens, &mut cursor) {
            Err(e) => {
                *index = cursor;
                return Err(e);
            },
            Ok(value) => {
                proof {
                    lemma_value_advances(views, at as int);
                }
                array.push(value);
                assert(values_view(array@) == read.push(value@));
                if cursor < tokens.len() {
                    assert(views[cursor as int] == tokens@[cursor as int]@);
                    match &tokens[cursor] {
                        Token::Comma => {
                            at = cursor + 1;
                        },
                        Token::RightBracket => {
                            *index = cursor + 1;
                            return Ok(Value::Array(array));
                        },
                        _ => {
                            *index = cursor;
                            return Err(TokenParseError::ExpectedComma);
                        },
                    }
                } else {
                    *index = cursor;
                    return Err(TokenParseError::ExpectedComma);
                }
            },
        }
    }
}

/// Parses an object; expects its opening brace at the cursor.
fn parse_object(tokens: &[Token], index: &mut usize) -> (r: Result<Value, TokenParseError>)
    requires
        *old(index) < tokens.len(),
    ensures
        parsed_as(r, *final(index) as int, object_at(token_views(tokens@), *old(index) as int)),
    decreases tokens.len() - *old(index), 0int,
{
    let ghost views = token_views(tokens@);
    let start: usize = *index;
    let mut object = Object::new();
    let mut at: usize = start + 1;
    if at < tokens.len() {
        assert(views[at as int] == tokens@[at as int]@);
        if let Token::RightBrace = &tokens[at] {
            *index = at + 1;
            return Ok(Value::Object(object));
        }
    }
    loop
        invariant
            views == token_views(tokens@),
            start == *old(index),
            start < at <= tokens.len(),
            object_at(views, start as int) == members_from(views, at as int, object@),
        decreases tokens.len() - at,
    {
        if at >= tokens.len() {
            *index = at;
            return Err(TokenParseError::ExpectedProperty);
        }
        assert(views[at as int] == tokens@[at as int]@);
        match &tokens[at] {
            Token::String(key) => {
                if at + 1 >= tokens.len() {
                    *index = at + 1;
                    return Err(TokenParseError::ExpectedColon);
                }
                assert(views[at + 1] == tokens@[at + 1]@);
                match &tokens[at + 1] {
                    Token::Colon => {},
                    _ => {
                        *index = at + 1;
                        return Err(TokenParseError::ExpectedColon);
                    },
                }
                let mut cursor: usize = at + 2;
                match parse_tokens(tokens, &mut cursor) {
                    Err(e) => {
                        *index = cursor;
                        return Err(e);
                    },
                    Ok(value) => {
                        proof {
                            lemma_value_advances(views, at + 2);
                        }
                        object.insert(key.clone(), value);
                        if cursor < tokens.len() {
                            assert(views[cursor as int] == tokens@[cursor as int]@);
                            match &tokens[cursor] {
                                Token::Comma => {
                                    at = cursor + 1;
                                },
                                Token::RightBrace => {
                                    *index = cursor + 1;
                                    return Ok(Value::Object(object));
                                },
                                _ => {
                                    *index = cursor;
                                    return Err(TokenParseError::ExpectedComma);
                                },
                            }
                        } else {
                            *index = cursor;
                            return Err(TokenParseError::ExpectedComma);
                        }
                    },
                }
            },
            _ => {
                *index = at;
                return Err(TokenParseError::ExpectedProperty);
            },
        }
    }
}

} // verus!
