//! Numbers: the decimal literals that denote them, and the type that
//! holds one.

use crate::text::{chars_of, is_ascii_digit, is_digit};
use vstd::prelude::*;

verus! {

/// First position at or after `i` in `s` that holds no decimal digit.
pub open spec fn digits_end(s: Seq<char>, i: int) -> int
    decreases s.len() - i,
{
    if 0 <= i < s.len() && is_digit(s[i]) {
        digits_end(s, i + 1)
    } else {
        i
    }
}

/// Where the parts of a decimal literal lie in a text, read greedily from
/// `start`: an optional `-`, digits, an optional `.` with digits, and an
/// optional `e` or `E` with an optional sign and digits.
pub ghost struct NumberShape {
    /// First position after the optional minus sign.
    pub int_start: int,
    /// First position after the integer digits.
    pub int_end: int,
    /// First position after the fraction, which is `int_end` where there
    /// is no decimal point.
    pub frac_end: int,
    /// First position of the exponent's digits, after marker and sign;
    /// `frac_end` where there is no exponent marker.
    pub exp_start: int,
    /// First position after the whole literal.
    pub end: int,
}

impl NumberShape {
    pub open spec fn has_point(self) -> bool {
        self.frac_end > self.int_end
    }

    pub open spec fn has_exponent(self) -> bool {
        self.exp_start > self.frac_end
    }

    /// Count of digits before and after the decimal point.
    pub open spec fn mantissa_digits(self) -> int {
        if self.has_point() {
            self.frac_end - self.int_start - 1
        } else {
            self.int_end - self.int_start
        }
    }

    /// The mantissa holds a digit, and so does the exponent if there is
    /// one.
    pub open spec fn complete(self) -> bool {
        &&& self.mantissa_digits() >= 1
        &&& self.has_exponent() ==> self.end > self.exp_start
    }
}

/// The shape of the literal that stands in `s` at `start`.
pub open spec fn number_shape(s: Seq<char>, start: int) -> NumberShape {
    let int_start = if 0 <= start < s.len() && s[start] == '-' {
        start + 1
    } else {
        start
    };
    let int_end = digits_end(s, int_start);
    let frac_end = if 0 <= int_end < s.len() && s[int_end] == '.' {
        digits_end(s, int_end + 1)
    } else {
        int_end
    };
    let exp_start = if 0 <= frac_end < s.len() && (s[frac_end] == 'e' || s[frac_end] == 'E') {
        if frac_end + 1 < s.len() && (s[frac_end + 1] == '+' || s[frac_end + 1] == '-') {
            frac_end + 2
        } else {
            frac_end + 1
        }
    } else {
        frac_end
    };
    NumberShape { int_start, int_end, frac_end, exp_start, end: digits_end(s, exp_start) }
}

/// Whether `text` is a decimal literal: an optional `-`; then digits, a
/// decimal point or both, with at least one digit; then optionally `e` or
/// `E`, an optional sign and at least one digit. These are the texts that
/// denote a number.
pub open spec fn is_decimal_literal(text: Seq<char>) -> bool {
    let shape = number_shape(text, 0);
    shape.end == text.len() && shape.complete()
}

/// The parts of a literal read from `start` lie in order, within the text.
pub proof fn lemma_number_shape_bounds(s: Seq<char>, start: int)
    requires
        0 <= start < s.len(),
        is_digit(s[start]) || s[start] == '-',
    ensures
        start < number_shape(s, start).end <= s.len(),
{
    let shape = number_shape(s, start);
    lemma_digits_end_bounds(s, shape.int_start);
    if shape.int_end < s.len() && s[shape.int_end] == '.' {
        lemma_digits_end_bounds(s, shape.int_end + 1);
    }
    lemma_digits_end_bounds(s, shape.exp_start);
}

/// Within a part of the text that holds the whole run of digits, the run
/// ends where it ends in the text.
pub proof fn lemma_digits_end_within(s: Seq<char>, from: int, to: int, i: int)
    requires
        0 <= from <= i <= to <= s.len(),
        digits_end(s, i) <= to,
    ensures
        digits_end(s.subrange(from, to), i - from) == digits_end(s, i) - from,
    decreases to - i,
{
    let part = s.subrange(from, to);
    if i < to {
        assert(part[i - from] == s[i]);
        if is_digit(s[i]) {
            lemma_digits_end_bounds(s, i + 1);
            lemma_digits_end_within(s, from, to, i + 1);
        }
    } else {
        lemma_digits_end_bounds(s, i);
    }
}

/// The text read as a literal from `start` is a decimal literal exactly
/// when the literal read there is complete.
pub proof fn lemma_literal_text(s: Seq<char>, start: int)
    requires
        0 <= start <= s.len(),
    ensures
        start <= number_shape(s, start).end <= s.len(),
        is_decimal_literal(s.subrange(start, number_shape(s, start).end)) == number_shape(
            s,
            start,
        ).complete(),
{
    let shape = number_shape(s, start);
    lemma_digits_end_bounds(s, shape.int_start);
    if shape.int_end < s.len() && s[shape.int_end] == '.' {
        lemma_digits_end_bounds(s, shape.int_end + 1);
    }
    lemma_digits_end_bounds(s, shape.exp_start);
    let text = s.subrange(start, shape.end);
    let moved = number_shape(text, 0);
    assert(moved.int_start == shape.int_start - start) by {
        if text.len() > 0 {
            assert(text[0] == s[start]);
        }
    }
    lemma_digits_end_within(s, start, shape.end, shape.int_start);
    assert(moved.int_end == shape.int_end - start);
    if shape.int_end < shape.end {
        assert(text[shape.int_end - start] == s[shape.int_end]);
    }
    if shape.has_point() {
        lemma_digits_end_within(s, start, shape.end, shape.int_end + 1);
    }
    assert(moved.frac_end == shape.frac_end - start);
    if shape.frac_end < shape.end {
        assert(text[shape.frac_end - start] == s[shape.frac_end]);
    }
    if shape.frac_end + 1 < shape.end {
        assert(text[shape.frac_end + 1 - start] == s[shape.frac_end + 1]);
    }
    assert(moved.exp_start == shape.exp_start - start);
    lemma_digits_end_within(s, start, shape.end, shape.exp_start);
    assert(moved.end == shape.end - start);
}

/// A run of digits lies within the text, holds digits only, and ends
/// before a character that is none.
pub proof fn lemma_digits_end_bounds(s: Seq<char>, i: int)
    requires
        0 <= i <= s.len(),
    ensures
        i <= digits_end(s, i) <= s.len(),
        forall|k: int| i <= k < digits_end(s, i) ==> is_digit(#[trigger] s[k]),
        digits_end(s, i) < s.len() ==> !is_digit(s[digits_end(s, i)]),
    decreases s.len() - i,
{
    if i < s.len() && is_digit(s[i]) {
        lemma_digits_end_bounds(s, i + 1);
    }
}

/// First position at or after `from` that holds no decimal digit.
pub(crate) fn skip_digits(chars: &[char], from: usize) -> (end: usize)
    requires
        from <= chars.len(),
    ensures
        end == digits_end(chars@, from as int),
        from <= end <= chars.len(),
{
    let mut i: usize = from;
    while i < chars.len() && is_ascii_digit(chars[i])
        invariant
            from <= i <= chars.len(),
            digits_end(chars@, from as int) == digits_end(chars@, i as int),
        decreases chars.len() - i,
    {
        i += 1;
    }
    i
}

/// Reads a decimal literal greedily from `start`. Returns where it ends and
/// whether it is complete.
pub(crate) fn measure_number(chars: &[char], start: usize) -> (r: (usize, bool))
    requires
        start <= chars.len(),
    ensures
        r.0 == number_shape(chars@, start as int).end,
        r.1 == number_shape(chars@, start as int).complete(),
        start <= r.0 <= chars.len(),
{
    let n: usize = chars.len();
    let int_start: usize = if start < n && chars[start] == '-' {
        start + 1
    } else {
        start
    };
    let int_end: usize = skip_digits(chars, int_start);
    let frac_end: usize = if int_end < n && chars[int_end] == '.' {
        skip_digits(chars, int_end + 1)
    } else {
        int_end
    };
    let exp_start: usize = if frac_end < n && (chars[frac_end] == 'e' || chars[frac_end] == 'E') {
        if frac_end + 1 < n && (chars[frac_end + 1] == '+' || chars[frac_end + 1] == '-') {
            frac_end + 2
        } else {
            frac_end + 1
        }
    } else {
        frac_end
    };
    let end: usize = skip_digits(chars, exp_start);
    let mantissa_digits: usize = if frac_end > int_end {
        frac_end - int_start - 1
    } else {
        int_end - int_start
    };
    (end, mantissa_digits >= 1 && (exp_start == frac_end || end > exp_start))
}

/// A number, held as the decimal literal that denotes it. Every `Number`
/// holds a decimal literal; turning it into a binary floating-point value
/// is left to the caller.
#[derive(Debug, PartialEq, Eq)]
pub struct Number {
    text: String,
}

impl View for Number {
    type V = Seq<char>;

    closed spec fn view(&self) -> Seq<char> {
        self.text@
    }
}

impl Clone for Number {
    fn clone(&self) -> (r: Number)
        ensures
            r@ == self@,
    {
        proof {
            use_type_invariant(self);
        }
        Number { text: self.text.clone() }
    }
}

impl Number {
    #[verifier::type_invariant]
    spec fn well_formed(self) -> bool {
        is_decimal_literal(self.text@)
    }

    /// The number that the decimal literal `text` denotes.
    pub(crate) fn from_literal(text: String) -> (r: Number)
        requires
            is_decimal_literal(text@),
        ensures
            r@ == text@,
    {
        Number { text }
    }

    /// The number that `text` denotes, if `text` is a decimal literal.
    pub fn new(text: &str) -> (r: Option<Number>)
        ensures
            match r {
                Some(n) => n@ == text@ && is_decimal_literal(text@),
                None => !is_decimal_literal(text@),
            },
    {
        let chars = chars_of(text);
        let (end, complete) = measure_number(chars.as_slice(), 0);
        if end == chars.len() && complete {
            Some(Number::from_literal(text.to_owned()))
        } else {
            None
        }
    }

    /// Whether both numbers are denoted by the same literal.
    pub fn same_literal(&self, other: &Number) -> (r: bool)
        ensures
            r == (self@ == other@),
    {
        self.text == other.text
    }

    /// The decimal literal that denotes this number.
    pub fn as_str(&self) -> (r: &str)
        ensures
            r@ == self@,
            is_decimal_literal(r@),
    {
        proof {
            use_type_invariant(self);
        }
        self.text.as_str()
    }
}

} // verus!
