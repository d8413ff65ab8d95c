//! What holds of the scanner and the decoder of escapes on every input of
//! a kind: how escapes decode, and how literal names and number literals
//! are scanned.

use crate::number::is_decimal_literal;
use crate::parse::{
    escape_char, hex_number, lemma_hex_number_error, preceded_by, unescape, value_at,
    TokenParseError,
};
use crate::text::{hex_value, is_digit, is_scalar_value};
use crate::tokenize::{
    false_word, null_word, scan_token, skip_whitespace, string_end, tokenize_from, tokenize_spec,
    true_word, word_at, TokenView, TokenizeErrorView,
};
use crate::value::ValueView;
use crate::{parse_spec, ParseErrorView};
use vstd::prelude::*;

verus! {

/// The six short escapes of JSON, with the quote and the backslash, decode
/// as its escape table says, and any other character but `u` decodes to
/// itself.
pub proof fn lemma_escape_table()
    ensures
        escape_char('"') == '"',
        escape_char('\\') == '\\',
        escape_char('/') == '/',
        escape_char('b') == '\u{8}',
        escape_char('f') == '\u{c}',
        escape_char('n') == '\u{a}',
        escape_char('r') == '\u{d}',
        escape_char('t') == '\u{9}',
        forall|c: char|
            c != 'b' && c != 'f' && c != 'n' && c != 'r' && c != 't' ==> #[trigger] escape_char(c)
                == c,
{
}

/// A raw text without a backslash denotes itself.
pub proof fn lemma_unescape_plain(raw: Seq<char>)
    requires
        forall|i: int| 0 <= i < raw.len() ==> raw[i] != '\\',
    ensures
        unescape(raw) == Ok::<Seq<char>, TokenParseError>(raw),
    decreases raw.len(),
{
    if raw.len() > 0 {
        lemma_unescape_plain(raw.skip(1));
        assert(seq![raw[0]] + raw.skip(1) == raw);
    } else {
        assert(raw == Seq::<char>::empty());
    }
}

/// A character that is no backslash decodes to itself, whatever follows.
pub proof fn lemma_unescape_char(c: char, rest: Seq<char>)
    requires
        c != '\\',
    ensures
        unescape(seq![c] + rest) == preceded_by(c, unescape(rest)),
{
    let raw = seq![c] + rest;
    assert(raw[0] == c);
    assert(raw.skip(1) == rest);
}

/// A backslash and a character other than `u` decode to what the escape
/// table gives for that character, whatever follows.
pub proof fn lemma_unescape_short(c: char, rest: Seq<char>)
    requires
        c != 'u',
    ensures
        unescape(seq!['\\', c] + rest) == preceded_by(escape_char(c), unescape(rest)),
{
    let raw = seq!['\\', c] + rest;
    assert(raw[0] == '\\');
    assert(raw[1] == c);
    assert(raw.skip(2) == rest);
}

/// The number that four hexadecimal digits denote.
pub open spec fn code_of(h0: char, h1: char, h2: char, h3: char) -> int {
    4096 * hex_value(h0)->0 + 256 * hex_value(h1)->0 + 16 * hex_value(h2)->0 + hex_value(h3)->0
}

/// `\u` and four hexadecimal digits decode to the character with the code
/// that the digits denote, if that is a Unicode scalar value, and fail with
/// `InvalidCodePointValue` if not, whatever follows.
pub proof fn lemma_unescape_unicode(h0: char, h1: char, h2: char, h3: char, rest: Seq<char>)
    requires
        hex_value(h0) is Some,
        hex_value(h1) is Some,
        hex_value(h2) is Some,
        hex_value(h3) is Some,
    ensures
        0 <= code_of(h0, h1, h2, h3) < 0x10000,
        is_scalar_value(code_of(h0, h1, h2, h3)) ==> unescape(
            seq!['\\', 'u', h0, h1, h2, h3] + rest,
        ) == preceded_by(code_of(h0, h1, h2, h3) as char, unescape(rest)),
        !is_scalar_value(code_of(h0, h1, h2, h3)) ==> unescape(
            seq!['\\', 'u', h0, h1, h2, h3] + rest,
        ) == Err::<Seq<char>, TokenParseError>(TokenParseError::InvalidCodePointValue),
{
    let raw = seq!['\\', 'u', h0, h1, h2, h3] + rest;
    let digits = raw.skip(2);
    assert(raw[0] == '\\');
    assert(raw[1] == 'u');
    assert(digits[0] == h0 && digits[1] == h1 && digits[2] == h2 && digits[3] == h3);
    assert(raw.skip(6) == rest);
    reveal_with_fuel(hex_number, 5);
    assert(hex_number(digits, 4) == Ok::<int, TokenParseError>(code_of(h0, h1, h2, h3)));
}

/// A `\u` escape fails at the first of its four places that holds no
/// hexadecimal digit: with `UnfinishedEscape` where the text ends there,
/// with `InvalidHexValue` where another character stands there.
pub proof fn lemma_unescape_unicode_broken(digits: Seq<char>, at: int)
    requires
        0 <= at < 4,
        at <= digits.len(),
        forall|i: int| 0 <= i < at ==> hex_value(#[trigger] digits[i]) is Some,
        at < digits.len() ==> hex_value(digits[at]) is None,
    ensures
        unescape(seq!['\\', 'u'] + digits) == Err::<Seq<char>, TokenParseError>(
            if at == digits.len() {
                TokenParseError::UnfinishedEscape
            } else {
                TokenParseError::InvalidHexValue
            },
        ),
{
    let raw = seq!['\\', 'u'] + digits;
    assert(raw[0] == '\\');
    assert(raw[1] == 'u');
    assert(raw.skip(2) == digits);
    reveal_with_fuel(hex_number, 5);
    assert(hex_number(digits, at as nat) is Ok);
    assert(hex_number(digits, (at + 1) as nat) is Err);
    lemma_hex_number_error(digits, (at + 1) as nat, 4);
}

/// The three literal names, each alone, parse to the null value and the
/// two truth values.
pub proof fn lemma_literal_names()
    ensures
        parse_spec(null_word()) == Ok::<ValueView, ParseErrorView>(ValueView::Null),
        parse_spec(false_word()) == Ok::<ValueView, ParseErrorView>(ValueView::Boolean(false)),
        parse_spec(true_word()) == Ok::<ValueView, ParseErrorView>(ValueView::Boolean(true)),
{
    lemma_word_scans(null_word(), TokenView::Null);
    lemma_word_scans(false_word(), TokenView::False);
    lemma_word_scans(true_word(), TokenView::True);
}

proof fn lemma_word_scans(word: Seq<char>, token: TokenView)
    requires
        (word == null_word() && token == TokenView::Null) || (word == false_word() && token
            == TokenView::False) || (word == true_word() && token == TokenView::True),
    ensures
        tokenize_spec(word) == Ok::<Seq<TokenView>, TokenizeErrorView>(seq![token]),
{
    assert(skip_whitespace(word, 0) == 0);
    assert(word.subrange(0, word.len() as int) == word);
    assert(scan_token(word, 0) == Ok::<(TokenView, int), TokenizeErrorView>(
        (token, word.len() as int),
    ));
    assert(tokenize_from(word, word.len() as int) == Ok::<Seq<TokenView>, TokenizeErrorView>(
        Seq::empty(),
    ));
    assert(seq![token] + Seq::<TokenView>::empty() == seq![token]);
}

/// A decimal literal that begins with a digit or a minus sign is scanned
/// as one number token that holds the literal as it stands, and parses to
/// the number that the literal denotes.
pub proof fn lemma_number_literal_scans(text: Seq<char>)
    requires
        is_decimal_literal(text),
        text.len() > 0,
        is_digit(text[0]) || text[0] == '-',
    ensures
        tokenize_spec(text) == Ok::<Seq<TokenView>, TokenizeErrorView>(
            seq![TokenView::Number(text)],
        ),
        parse_spec(text) == Ok::<ValueView, ParseErrorView>(ValueView::Number(text)),
{
    let token = TokenView::Number(text);
    assert(skip_whitespace(text, 0) == 0);
    assert(text.subrange(0, text.len() as int) == text);
    assert(scan_token(text, 0) == Ok::<(TokenView, int), TokenizeErrorView>(
        (token, text.len() as int),
    ));
    assert(tokenize_from(text, text.len() as int) == Ok::<Seq<TokenView>, TokenizeErrorView>(
        Seq::empty(),
    ));
    assert(seq![token] + Seq::<TokenView>::empty() == seq![token]);
}


/// A literal name that is begun and not spelled out fails with
/// `UnfinishedLiteralValue`: a text that begins with `n`, `f` or `t` and
/// not with the whole of `null`, `false` or `true`.
pub proof fn lemma_unfinished_literal_name(s: Seq<char>)
    requires
        s.len() > 0,
        (s[0] == 'n' && !word_at(s, 0, null_word())) || (s[0] == 'f' && !word_at(
            s,
            0,
            false_word(),
        )) || (s[0] == 't' && !word_at(s, 0, true_word())),
    ensures
        tokenize_spec(s) == Err::<Seq<TokenView>, TokenizeErrorView>(
            TokenizeErrorView::UnfinishedLiteralValue,
        ),
{
    assert(skip_whitespace(s, 0) == 0);
}

/// Where the first character after whitespace is `n`, `f` or `t`,
/// scanning yields the literal name exactly when all its letters stand
/// there, with the cursor after the last of them; where another character
/// stands in their place or the text ends before the last of them, it
/// fails with `UnfinishedLiteralValue`.
pub proof fn lemma_literal_name_or_unfinished(s: Seq<char>, i: int)
    requires
        0 <= skip_whitespace(s, i) < s.len(),
    ensures
        ({
            let at = skip_whitespace(s, i);
            let unfinished = Err::<(TokenView, int), TokenizeErrorView>(
                TokenizeErrorView::UnfinishedLiteralValue,
            );
            &&& s[at] == 'n' ==> scan_token(s, i) == if at + 4 <= s.len() && s[at + 1] == 'u'
                && s[at + 2] == 'l' && s[at + 3] == 'l' {
                Ok((TokenView::Null, at + 4))
            } else {
                unfinished
            }
            &&& s[at] == 'f' ==> scan_token(s, i) == if at + 5 <= s.len() && s[at + 1] == 'a'
                && s[at + 2] == 'l' && s[at + 3] == 's' && s[at + 4] == 'e' {
                Ok((TokenView::False, at + 5))
            } else {
                unfinished
            }
            &&& s[at] == 't' ==> scan_token(s, i) == if at + 4 <= s.len() && s[at + 1] == 'r'
                && s[at + 2] == 'u' && s[at + 3] == 'e' {
                Ok((TokenView::True, at + 4))
            } else {
                unfinished
            }
        }),
{
    let at = skip_whitespace(s, i);
    if at + 4 <= s.len() {
        let four = s.subrange(at, at + 4);
        assert(four[0] == s[at] && four[1] == s[at + 1] && four[2] == s[at + 2] && four[3] == s[at
            + 3]);
        if s[at] == 'n' && s[at + 1] == 'u' && s[at + 2] == 'l' && s[at + 3] == 'l' {
            assert(four == null_word());
        }
        if s[at] == 't' && s[at + 1] == 'r' && s[at + 2] == 'u' && s[at + 3] == 'e' {
            assert(four == true_word());
        }
    }
    if at + 5 <= s.len() {
        let five = s.subrange(at, at + 5);
        assert(five[0] == s[at] && five[1] == s[at + 1] && five[2] == s[at + 2] && five[3] == s[at
            + 3] && five[4] == s[at + 4]);
        if s[at] == 'f' && s[at + 1] == 'a' && s[at + 2] == 'l' && s[at + 3] == 's' && s[at + 4]
            == 'e' {
            assert(five == false_word());
        }
    }
}

/// A string that is not closed fails with `UnclosedQuotes`: a quote and
/// after it a text in which no quote closes the string.
pub proof fn lemma_unclosed_quotes(raw: Seq<char>)
    requires
        string_end(raw, 0, false) is None,
    ensures
        tokenize_spec(seq!['"'] + raw) == Err::<Seq<TokenView>, TokenizeErrorView>(
            TokenizeErrorView::UnclosedQuotes,
        ),
{
    let s = seq!['"'] + raw;
    assert(s[0] == '"');
    assert(skip_whitespace(s, 0) == 0);
    lemma_string_end_after_quote(raw, 0, false);
}

proof fn lemma_string_end_after_quote(raw: Seq<char>, i: int, escaped: bool)
    requires
        0 <= i <= raw.len(),
        string_end(raw, i, escaped) is None,
    ensures
        string_end(seq!['"'] + raw, i + 1, escaped) is None,
    decreases raw.len() - i,
{
    let s = seq!['"'] + raw;
    if i < raw.len() {
        assert(s[i + 1] == raw[i]);
        lemma_string_end_after_quote(raw, i + 1, raw[i] == '\\' && !escaped);
    }
}

/// A member without a colon fails with `ExpectedColon`: where a string
/// follows an opening brace and no colon follows the string, parsing the
/// object stops after the string.
pub proof fn lemma_missing_colon(tokens: Seq<TokenView>, pos: int)
    requires
        0 <= pos,
        pos + 1 < tokens.len(),
        tokens[pos] is LeftBrace,
        tokens[pos + 1] is String,
        pos + 2 < tokens.len() ==> !(tokens[pos + 2] is Colon),
    ensures
        value_at(tokens, pos).result == Err::<ValueView, TokenParseError>(
            TokenParseError::ExpectedColon,
        ),
        value_at(tokens, pos).cursor == pos + 2,
{
}

} // verus!
