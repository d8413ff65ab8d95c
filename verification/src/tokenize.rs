//! The scanner: from source text to a sequence of tokens.

use crate::number::{
    is_decimal_literal, lemma_literal_text, lemma_number_shape_bounds, measure_number,
    number_shape, Number,
};
use crate::text::{
    chars_of, is_ascii_digit, is_ascii_whitespace, is_digit, is_whitespace, text_of,
};
use vstd::prelude::*;

verus! {

/// An atomic lexical unit of a document.
#[derive(Debug, PartialEq)]
pub enum Token {
    LeftBrace,
    RightBrace,
    LeftBracket,
    RightBracket,
    Comma,
    Colon,
    Null,
    False,
    True,
    Number(Number),
    /// The text between two quotes as it stands in the source, escape
    /// sequences unresolved.
    String(String),
}

/// The model of a [`Token`].
#[verifier::ext_equal]
pub ghost enum TokenView {
    LeftBrace,
    RightBrace,
    LeftBracket,
    RightBracket,
    Comma,
    Colon,
    Null,
    False,
    True,
    Number(Seq<char>),
    String(Seq<char>),
}

impl View for Token {
    type V = TokenView;

    open spec fn view(&self) -> TokenView {
        match self {
            Token::LeftBrace => TokenView::LeftBrace,
            Token::RightBrace => TokenView::RightBrace,
            Token::LeftBracket => TokenView::LeftBracket,
            Token::RightBracket => TokenView::RightBracket,
            Token::Comma => TokenView::Comma,
            Token::Colon => TokenView::Colon,
            Token::Null => TokenView::Null,
            Token::False => TokenView::False,
            Token::True => TokenView::True,
            Token::Number(n) => TokenView::Number(n@),
            Token::String(s) => TokenView::String(s@),
        }
    }
}

impl Token {
    /// A string token with `input` as its raw text.
    pub fn string(input: &str) -> (r: Token)
        ensures
            r@ == TokenView::String(input@),
    {
        Token::String(input.to_owned())
    }
}

/// The models of `tokens`, in order.
pub open spec fn token_views(tokens: Seq<Token>) -> Seq<TokenView> {
    Seq::new(tokens.len(), |i: int| tokens[i]@)
}

/// Why scanning stopped.
#[derive(Debug, PartialEq, Eq, Clone)]
pub enum TokenizeError {
    /// A `null`, `false` or `true` was begun and not spelled out.
    UnfinishedLiteralValue,
    /// The text read as a number is no decimal literal; it is enclosed.
    ParseNumberError(String),
    /// A string was opened and the input ended before its closing quote.
    UnclosedQuotes,
    /// The input ended in whitespace.
    UnexpectedEof,
    /// The character begins no token.
    CharNotRecognized(char),
}

/// The model of a [`TokenizeError`].
#[verifier::ext_equal]
pub ghost enum TokenizeErrorView {
    UnfinishedLiteralValue,
    ParseNumberError(Seq<char>),
    UnclosedQuotes,
    UnexpectedEof,
    CharNotRecognized(char),
}

impl View for TokenizeError {
    type V = TokenizeErrorView;

    open spec fn view(&self) -> TokenizeErrorView {
        match self {
            TokenizeError::UnfinishedLiteralValue => TokenizeErrorView::UnfinishedLiteralValue,
            TokenizeError::ParseNumberError(text) => TokenizeErrorView::ParseNumberError(text@),
            TokenizeError::UnclosedQuotes => TokenizeErrorView::UnclosedQuotes,
            TokenizeError::UnexpectedEof => TokenizeErrorView::UnexpectedEof,
            TokenizeError::CharNotRecognized(c) => TokenizeErrorView::CharNotRecognized(*c),
        }
    }
}

/// First position at or after `i` in `s` that holds no whitespace.
pub open spec fn skip_whitespace(s: Seq<char>, i: int) -> int
    decreases s.len() - i,
{
    if 0 <= i < s.len() && is_whitespace(s[i]) {
        skip_whitespace(s, i + 1)
    } else {
        i
    }
}

/// Whether `word` stands in `s` at position `i`.
pub open spec fn word_at(s: Seq<char>, i: int, word: Seq<char>) -> bool {
    0 <= i && i + word.len() <= s.len() && s.subrange(i, i + word.len()) == word
}

pub open spec fn null_word() -> Seq<char> {
    seq!['n', 'u', 'l', 'l']
}

pub open spec fn false_word() -> Seq<char> {
    seq!['f', 'a', 'l', 's', 'e']
}

pub open spec fn true_word() -> Seq<char> {
    seq!['t', 'r', 'u', 'e']
}

/// Position of the quote that closes a string whose content is read from
/// `i` on; `None` if the input ends first. A backslash that is not itself
/// escaped escapes the character after it, so that an escaped quote does
/// not close the string. `escaped` says whether the character at `i` is
/// escaped.
pub open spec fn string_end(s: Seq<char>, i: int, escaped: bool) -> Option<int>
    decreases s.len() - i,
{
    if !(0 <= i < s.len()) {
        None
    } else if s[i] == '"' && !escaped {
        Some(i)
    } else {
        string_end(s, i + 1, s[i] == '\\' && !escaped)
    }
}

/// The token that begins at the first character at or after `i` that is no
/// whitespace, with the position after it, or the reason why there is none.
pub open spec fn scan_token(s: Seq<char>, i: int) -> Result<(TokenView, int), TokenizeErrorView> {
    let at = skip_whitespace(s, i);
    if !(0 <= at < s.len()) {
        Err(TokenizeErrorView::UnexpectedEof)
    } else if s[at] == '{' {
        Ok((TokenView::LeftBrace, at + 1))
    } else if s[at] == '}' {
        Ok((TokenView::RightBrace, at + 1))
    } else if s[at] == '[' {
        Ok((TokenView::LeftBracket, at + 1))
    } else if s[at] == ']' {
        Ok((TokenView::RightBracket, at + 1))
    } else if s[at] == ',' {
        Ok((TokenView::Comma, at + 1))
    } else if s[at] == ':' {
        Ok((TokenView::Colon, at + 1))
    } else if s[at] == 'n' {
        if word_at(s, at, null_word()) {
            Ok((TokenView::Null, at + 4))
        } else {
            Err(TokenizeErrorView::UnfinishedLiteralValue)
        }
    } else if s[at] == 'f' {
        if word_at(s, at, false_word()) {
            Ok((TokenView::False, at + 5))
        } else {
            Err(TokenizeErrorView::UnfinishedLiteralValue)
        }
    } else if s[at] == 't' {
        if word_at(s, at, true_word()) {
            Ok((TokenView::True, at + 4))
        } else {
            Err(TokenizeErrorView::UnfinishedLiteralValue)
        }
    } else if is_digit(s[at]) || s[at] == '-' {
        let end = number_shape(s, at).end;
        let text = s.subrange(at, end);
        if is_decimal_literal(text) {
            Ok((TokenView::Number(text), end))
        } else {
            Err(TokenizeErrorView::ParseNumberError(text))
        }
    } else if s[at] == '"' {
        match string_end(s, at + 1, false) {
            Some(close) => Ok((TokenView::String(s.subrange(at + 1, close)), close + 1)),
            None => Err(TokenizeErrorView::UnclosedQuotes),
        }
    } else {
        Err(TokenizeErrorView::CharNotRecognized(s[at]))
    }
}

/// A token ends after the position at which its scan began, and within
/// the input.
pub proof fn lemma_scan_token_advances(s: Seq<char>, i: int)
    requires
        0 <= i < s.len(),
    ensures
        scan_token(s, i) matches Ok((_, next)) ==> i < next <= s.len(),
{
    lemma_skip_whitespace_stops(s, i);
    let at = skip_whitespace(s, i);
    if at < s.len() {
        if is_digit(s[at]) || s[at] == '-' {
            lemma_number_shape_bounds(s, at);
        }
        if s[at] == '"' {
            lemma_string_end_bounds(s, at + 1, false);
        }
    }
}

/// Skipping whitespace stops within the text, at a character that is no
/// whitespace or at the end.
pub proof fn lemma_skip_whitespace_stops(s: Seq<char>, i: int)
    requires
        0 <= i <= s.len(),
    ensures
        i <= skip_whitespace(s, i) <= s.len(),
        skip_whitespace(s, i) < s.len() ==> !is_whitespace(s[skip_whitespace(s, i)]),
    decreases s.len() - i,
{
    if i < s.len() && is_whitespace(s[i]) {
        lemma_skip_whitespace_stops(s, i + 1);
    }
}

/// The quote that closes a string stands within the text, at or after the
/// position from which the string is read.
pub proof fn lemma_string_end_bounds(s: Seq<char>, i: int, escaped: bool)
    requires
        0 <= i <= s.len(),
    ensures
        string_end(s, i, escaped) matches Some(close) ==> i <= close < s.len() && s[close] == '"',
    decreases s.len() - i,
{
    if i < s.len() && !(s[i] == '"' && !escaped) {
        lemma_string_end_bounds(s, i + 1, s[i] == '\\' && !escaped);
    }
}

/// The tokens of `s` from position `i` on, or the first error met.
pub open spec fn tokenize_from(s: Seq<char>, i: int) -> Result<Seq<TokenView>, TokenizeErrorView>
    decreases s.len() - i,
{
    if !(0 <= i < s.len()) {
        Ok(Seq::empty())
    } else {
        match scan_token(s, i) {
            Err(e) => Err(e),
            Ok((token, next)) => {
                proof {
                    lemma_scan_token_advances(s, i);
                }
                match tokenize_from(s, next) {
                    Err(e) => Err(e),
                    Ok(rest) => Ok(seq![token] + rest),
                }
            },
        }
    }
}

/// The tokens of the text `s`, or the first lexical error in it.
pub open spec fn tokenize_spec(s: Seq<char>) -> Result<Seq<TokenView>, TokenizeErrorView> {
    tokenize_from(s, 0)
}

/// Whether `r` and the cursor beside it are what scanning one token of
/// `s` from `from` yields: on success the token of [`scan_token`] with the
/// cursor after it; on failure the error of [`scan_token`] with the cursor
/// after the whitespace that was skipped, where the token that failed
/// begins or the text ends.
pub open spec fn scanned(
    r: Result<Token, TokenizeError>,
    cursor: int,
    s: Seq<char>,
    from: int,
) -> bool {
    match scan_token(s, from) {
        Ok((token, next)) => r matches Ok(t) && t@ == token && cursor == next,
        Err(e) => r matches Err(err) && err@ == e && cursor == skip_whitespace(s, from),
    }
}

/// Whether the characters of `word` stand in `chars` from `at` on.
fn has_word_at(chars: &[char], at: usize, word: &str) -> (r: bool)
    ensures
        r == word_at(chars@, at as int, word@),
{
    let letters = chars_of(word);
    if at > chars.len() || letters.len() > chars.len() - at {
        return false;
    }
    let mut k: usize = 0;
    while k < letters.len()
        invariant
            letters@ == word@,
            at + letters.len() <= chars.len(),
            0 <= k <= letters.len(),
            forall|j: int| 0 <= j < k ==> chars@[at + j] == letters@[j],
        decreases letters.len() - k,
    {
        if chars[at + k] != letters[k] {
            assert(chars@.subrange(at as int, at + letters.len())[k as int] != letters@[k as int]);
            return false;
        }
        k += 1;
    }
    assert(chars@.subrange(at as int, at + letters.len()) == letters@);
    true
}

/// Reads `null` at the cursor and leaves the cursor after it. Where the
/// letters of `null` do not stand at the cursor, or the text ends before
/// the last of them, this is `UnfinishedLiteralValue` and the cursor stays.
pub fn tokenize_null(chars: &[char], index: &mut usize) -> (r: Result<Token, TokenizeError>)
    ensures
        word_at(chars@, *old(index) as int, null_word()) ==> (r matches Ok(Token::Null)
            && *final(index) == *old(index) + 4),
        !word_at(chars@, *old(index) as int, null_word()) ==> (r matches Err(
            TokenizeError::UnfinishedLiteralValue,
        ) && *final(index) == *old(index)),
{
    proof {
        reveal_strlit("null");
        assert("null"@ == null_word());
    }
    if has_word_at(chars, *index, "null") {
        assert(*index + 4 <= chars.len());
        *index += 4;
        Ok(Token::Null)
    } else {
        Err(TokenizeError::UnfinishedLiteralValue)
    }
}

/// Reads `false` at the cursor and leaves the cursor after it. Where the
/// letters of `false` do not stand at the cursor, or the text ends before
/// the last of them, this is `UnfinishedLiteralValue` and the cursor stays.
pub fn tokenize_false(chars: &[char], index: &mut usize) -> (r: Result<Token, TokenizeError>)
    ensures
        word_at(chars@, *old(index) as int, false_word()) ==> (r matches Ok(Token::False)
            && *final(index) == *old(index) + 5),
        !word_at(chars@, *old(index) as int, false_word()) ==> (r matches Err(
            TokenizeError::UnfinishedLiteralValue,
        ) && *final(index) == *old(index)),
{
    proof {
        reveal_strlit("false");
        assert("false"@ == false_word());
    }
    if has_word_at(chars, *index, "false") {
        assert(*index + 5 <= chars.len());
        *index += 5;
        Ok(Token::False)
    } else {
        Err(TokenizeError::UnfinishedLiteralValue)
    }
}

/// Reads `true` at the cursor and leaves the cursor after it. Where the
/// letters of `true` do not stand at the cursor, or the text ends before
/// the last of them, this is `UnfinishedLiteralValue` and the cursor stays.
pub fn tokenize_true(chars: &[char], index: &mut usize) -> (r: Result<Token, TokenizeError>)
    ensures
        word_at(chars@, *old(index) as int, true_word()) ==> (r matches Ok(Token::True)
            && *final(index) == *old(index) + 4),
        !word_at(chars@, *old(index) as int, true_word()) ==> (r matches Err(
            TokenizeError::UnfinishedLiteralValue,
        ) && *final(index) == *old(index)),
{
    proof {
        reveal_strlit("true");
        assert("true"@ == true_word());
    }
    if has_word_at(chars, *index, "true") {
        assert(*index + 4 <= chars.len());
        *index += 4;
        Ok(Token::True)
    } else {
        Err(TokenizeError::UnfinishedLiteralValue)
    }
}

/// Reads a number at the cursor: the longest text in the shape of a
/// decimal literal, which then has to be one. The cursor is left after the
/// number; where the text read is no decimal literal, this is
/// `ParseNumberError` with that text, and the cursor stays.
pub fn tokenize_float(chars: &[char], index: &mut usize) -> (r: Result<Token, TokenizeError>)
    requires
        *old(index) < chars.len(),
    ensures
        ({
            let end = number_shape(chars@, *old(index) as int).end;
            let text = chars@.subrange(*old(index) as int, end);
            if is_decimal_literal(text) {
                r matches Ok(Token::Number(n)) && n@ == text && *final(index) == end
            } else {
                r matches Err(TokenizeError::ParseNumberError(t)) && t@ == text && *final(index)
                    == *old(index)
            }
        }),
{
    let start: usize = *index;
    let (end, complete) = measure_number(chars, start);
    let text = text_of(chars, start, end);
    proof {
        lemma_literal_text(chars@, start as int);
    }
    if complete {
        *index = end;
        Ok(Token::Number(Number::from_literal(text)))
    } else {
        Err(TokenizeError::ParseNumberError(text))
    }
}

/// Reads a string whose opening quote is at the cursor: the raw text up
/// to the quote that closes it. The cursor is left after that quote; where
/// the text ends before it, this is `UnclosedQuotes` and the cursor stays.
pub fn tokenize_string(chars: &[char], index: &mut usize) -> (r: Result<Token, TokenizeError>)
    ensures
        match string_end(chars@, *old(index) + 1, false) {
            Some(close) => r matches Ok(Token::String(raw)) && raw@ == chars@.subrange(
                *old(index) + 1,
                close,
            ) && *final(index) == close + 1,
            None => r matches Err(TokenizeError::UnclosedQuotes) && *final(index) == *old(index),
        },
{
    if *index >= chars.len() {
        return Err(TokenizeError::UnclosedQuotes);
    }
    let start: usize = *index + 1;
    let mut at: usize = start;
    let mut is_escape = false;
    while at < chars.len()
        invariant
            start <= at <= chars.len(),
            start == *old(index) + 1,
            *index == *old(index),
            string_end(chars@, start as int, false) == string_end(chars@, at as int, is_escape),
        decreases chars.len() - at,
    {
        let ch = chars[at];
        if ch == '"' && !is_escape {
            *index = at + 1;
            return Ok(Token::String(text_of(chars, start, at)));
        }
        is_escape = ch == '\\' && !is_escape;
        at += 1;
    }
    Err(TokenizeError::UnclosedQuotes)
}

/// Reads the next token: skips whitespace, then reads the token that the
/// first character after it announces. The cursor is left after the token.
/// Where there is no token, the cursor is left after the whitespace: at
/// the character with which the failed token begins, or at the end of the
/// text for `UnexpectedEof`.
pub fn make_token(chars: &[char], index: &mut usize) -> (r: Result<Token, TokenizeError>)
    ensures
        scanned(r, *final(index) as int, chars@, *old(index) as int),
{
    let ghost begin = *index;
    let mut at: usize = *index;
    while at < chars.len() && is_ascii_whitespace(chars[at])
        invariant
            begin <= at,
            at <= chars.len() || at == begin,
            skip_whitespace(chars@, begin as int) == skip_whitespace(chars@, at as int),
        decreases chars.len() - at,
    {
        at += 1;
    }
    *index = at;
    if at >= chars.len() {
        return Err(TokenizeError::UnexpectedEof);
    }
    let ch = chars[at];
    if ch == '{' {
        *index = at + 1;
        Ok(Token::LeftBrace)
    } else if ch == '}' {
        *index = at + 1;
        Ok(Token::RightBrace)
    } else if ch == '[' {
        *index = at + 1;
        Ok(Token::LeftBracket)
    } else if ch == ']' {
        *index = at + 1;
        Ok(Token::RightBracket)
    } else if ch == ',' {
        *index = at + 1;
        Ok(Token::Comma)
    } else if ch == ':' {
        *index = at + 1;
        Ok(Token::Colon)
    } else if ch == 'n' {
        tokenize_null(chars, index)
    } else if ch == 'f' {
        tokenize_false(chars, index)
    } else if ch == 't' {
        tokenize_true(chars, index)
    } else if is_ascii_digit(ch) || ch == '-' {
        tokenize_float(chars, index)
    } else if ch == '"' {
        tokenize_string(chars, index)
    } else {
        Err(TokenizeError::CharNotRecognized(ch))
    }
}

/// Joins the tokens read so far with what scanning the rest yields.
pub open spec fn continue_with(
    read: Seq<TokenView>,
    rest: Result<Seq<TokenView>, TokenizeErrorView>,
) -> Result<Seq<TokenView>, TokenizeErrorView> {
    match rest {
        Ok(tokens) => Ok(read + tokens),
        Err(e) => Err(e),
    }
}

/// Scans `input` into its tokens. Stops at the first error; no tokens are
/// returned then.
pub fn tokenize(input: String) -> (r: Result<Vec<Token>, TokenizeError>)
    ensures
        match tokenize_spec(input@) {
            Ok(tokens) => r matches Ok(v) && token_views(v@) == tokens,
            Err(e) => r matches Err(err) && err@ == e,
        },
{
    let chars = chars_of(input.as_str());
    let mut index: usize = 0;
    let mut tokens: Vec<Token> = Vec::new();
    assert(token_views(tokens@) + tokenize_from(chars@, 0)->Ok_0 == tokenize_from(chars@, 0)->Ok_0);
    while index < chars.len()
        invariant
            chars@ == input@,
            0 <= index <= chars.len(),
            tokenize_spec(input@) == continue_with(
                token_views(tokens@),
                tokenize_from(chars@, index as int),
            ),
        decreases chars.len() - index,
    {
        let ghost read = token_views(tokens@);
        let ghost from = index as int;
        proof {
            lemma_scan_token_advances(chars@, from);
        }
        match make_token(chars.as_slice(), &mut index) {
            Ok(token) => {
                tokens.push(token);
                proof {
                    assert(token_views(tokens@) == read + seq![token@]);
                    if let Ok(rest) = tokenize_from(chars@, index as int) {
                        assert(read + (seq![token@] + rest) == (read + seq![token@]) + rest);
                    }
                }
            },
            Err(e) => {
                return Err(e);
            },
        }
    }
    assert(token_views(tokens@) + Seq::<TokenView>::empty() == token_views(tokens@));
    Ok(tokens)
}

} // verus!
