//! The grammar, as a function from a text and a starting point to the value
//! found there or to the first violation.
//!
//! Every production takes the whole text `s` and the number `i` of
//! characters read so far, and tells either the value it recognises and the
//! number of characters read once it is done, or the fault it meets and the
//! number of characters read when it meets it.

use vstd::prelude::*;
use crate::json::{
    exponent_text, fraction_text, is_number_literal, kind_name, sign_text, Exponent, Kind, Numeral,
    Value,
};
use crate::json_error::Report;
use crate::position::{column_after, line_after};
use crate::text::{
    all_digits, debug_form, decimal, hex_value, is_digit, is_scalar_value, is_whitespace,
};

verus! {

/// The ways in which a text can violate the grammar.
pub enum Fault {
    /// The text ended where the grammar asks for more.
    UnexpectedEnd,
    /// Something else than `{` stands where an object has to start.
    ObjectStart,
    /// A value of another kind stands where a key has to be a string.
    KeyNotString(Kind),
    /// This character stands where a `:` has to follow a key.
    MissingColon(char),
    /// This character stands where a `,` or `}` has to follow a member.
    UnexpectedToken(char),
    /// This character stands where a string has to start with `"`.
    StringStart(char),
    /// This character stands where a `\u` escape needs a hexadecimal digit.
    HexDigit(char),
    /// A `\u` escape gives this code point, which is no character.
    CodePoint(nat),
    /// This character follows a backslash and names no escape.
    UnknownEscape(char),
    /// A digit follows a leading `0`.
    LeadingZero,
    /// This character stands where the integer part of a number has to
    /// start.
    IntegerPart(char),
    /// This text was read as a number, and a fraction or an exponent in it
    /// has no digit.
    MalformedNumber(Seq<char>),
    /// This character stands where an array has to start with `[`.
    ArrayStart(char),
    /// No literal word starts with this character.
    UnknownWord(char),
    /// The text departs from the literal `word`: `found` stands where
    /// `expected` has to.
    WordMismatch { word: Seq<char>, expected: char, found: char },
    /// No value starts with this character.
    Unparseable(char),
}

impl Fault {
    /// The message that reports this fault.
    pub open spec fn message(self) -> Seq<char> {
        match self {
            Fault::UnexpectedEnd => "Unexpected end of file during parsing"@,
            Fault::ObjectStart => "Object did not start with `{`"@,
            Fault::KeyNotString(kind) => "Key of object must be `Str`, but found `"@ + kind_name(
                kind,
            ) + "`"@,
            Fault::MissingColon(c) => "':' is expected after key, but found `"@ + debug_form(c)
                + "`"@,
            Fault::UnexpectedToken(c) => "Unexpected token "@ + debug_form(c),
            Fault::StringStart(c) => "String must start with `\"`, found `"@.push(c) + "`"@,
            Fault::HexDigit(c) => "Unable to parse `"@.push(c) + "` as hex"@,
            Fault::CodePoint(code) => "\\u`"@ + decimal(code) + "` is not a valid character"@,
            Fault::UnknownEscape(c) => "No escape token exists for `"@.push(c) + "`"@,
            Fault::LeadingZero => "Number starting with `0` must be followed by `.` or nothing"@,
            Fault::IntegerPart(c) => "`"@.push(c)
                + "` is not valid as part of integer part of a number"@,
            Fault::MalformedNumber(t) => "`"@ + t + "` could not be parsed as a number"@,
            Fault::ArrayStart(c) => "Array must start with `[`, found `"@.push(c) + "`"@,
            Fault::UnknownWord(c) => "No tokens start with the character `"@.push(c) + "`"@,
            Fault::WordMismatch { word, expected, found } => "Could not parse word. Did you mean `"@
                + word + "`? (diff: `"@.push(expected) + "`/`"@.push(found) + "`)"@,
            Fault::Unparseable(c) => "Not able to parse `"@.push(c) + "`"@,
        }
    }
}

/// What a production makes of a text.
pub enum Outcome<T> {
    /// It recognises `value`, and `next` characters have been read when it
    /// is done.
    Done { value: T, next: int },
    /// It meets `fault` when `at` characters have been read.
    Failed { fault: Fault, at: int },
}

/// The number of whitespace characters that stand in `s` from `i` on without
/// a break.
pub open spec fn blank_run(s: Seq<char>, i: int) -> nat
    decreases s.len() - i,
{
    if 0 <= i < s.len() && is_whitespace(s[i]) {
        1 + blank_run(s, i + 1)
    } else {
        0
    }
}

/// The place of the first character from `i` on that is no whitespace, or
/// the end of the text.
pub open spec fn skip_blanks(s: Seq<char>, i: int) -> int {
    i + blank_run(s, i)
}

/// Looking ahead: the whitespace is read, the character after it is told
/// and left unread.
pub open spec fn peeked(s: Seq<char>, i: int) -> Outcome<char> {
    let j = skip_blanks(s, i);
    if 0 <= j < s.len() {
        Outcome::Done { value: s[j], next: j }
    } else {
        Outcome::Failed { fault: Fault::UnexpectedEnd, at: j }
    }
}

/// The next token: the whitespace is read, and the character after it too.
pub open spec fn token(s: Seq<char>, i: int) -> Outcome<char> {
    let j = skip_blanks(s, i);
    if 0 <= j < s.len() {
        Outcome::Done { value: s[j], next: j + 1 }
    } else {
        Outcome::Failed { fault: Fault::UnexpectedEnd, at: j }
    }
}

/// The next character as it stands, whitespace or not.
pub open spec fn raw(s: Seq<char>, i: int) -> Outcome<char> {
    if 0 <= i < s.len() {
        Outcome::Done { value: s[i], next: i + 1 }
    } else {
        Outcome::Failed { fault: Fault::UnexpectedEnd, at: i }
    }
}

/// One hexadecimal digit of a `\u` escape.
pub open spec fn hex_at(s: Seq<char>, i: int) -> Outcome<nat> {
    if 0 <= i < s.len() {
        match hex_value(s[i]) {
            Some(d) => Outcome::Done { value: d, next: i + 1 },
            None => Outcome::Failed { fault: Fault::HexDigit(s[i]), at: i + 1 },
        }
    } else {
        Outcome::Failed { fault: Fault::UnexpectedEnd, at: i }
    }
}

/// The four hexadecimal digits of a `\u` escape, the most significant
/// first.
pub open spec fn code_unit(s: Seq<char>, i: int) -> Outcome<nat> {
    match hex_at(s, i) {
        Outcome::Failed { fault, at } => Outcome::Failed { fault, at },
        Outcome::Done { value: a, .. } => match hex_at(s, i + 1) {
            Outcome::Failed { fault, at } => Outcome::Failed { fault, at },
            Outcome::Done { value: b, .. } => match hex_at(s, i + 2) {
                Outcome::Failed { fault, at } => Outcome::Failed { fault, at },
                Outcome::Done { value: c, .. } => match hex_at(s, i + 3) {
                    Outcome::Failed { fault, at } => Outcome::Failed { fault, at },
                    Outcome::Done { value: d, .. } => Outcome::Done {
                        value: 4096 * a + 256 * b + 16 * c + d,
                        next: i + 4,
                    },
                },
            },
        },
    }
}

/// What follows a backslash inside a string: the character that the escape
/// stands for.
pub open spec fn escape(s: Seq<char>, i: int) -> Outcome<char> {
    if 0 <= i < s.len() {
        let c = s[i];
        if c == '"' || c == '\\' || c == '/' {
            Outcome::Done { value: c, next: i + 1 }
        } else if c == 'b' {
            Outcome::Done { value: '\u{8}', next: i + 1 }
        } else if c == 'f' {
            Outcome::Done { value: '\u{c}', next: i + 1 }
        } else if c == 'n' {
            Outcome::Done { value: '\n', next: i + 1 }
        } else if c == 'r' {
            Outcome::Done { value: '\r', next: i + 1 }
        } else if c == 't' {
            Outcome::Done { value: '\t', next: i + 1 }
        } else if c == 'u' {
            match code_unit(s, i + 1) {
                Outcome::Failed { fault, at } => Outcome::Failed { fault, at },
                Outcome::Done { value: code, next } => if is_scalar_value(code) {
                    Outcome::Done { value: code as char, next }
                } else {
                    Outcome::Failed { fault: Fault::CodePoint(code), at: next }
                },
            }
        } else {
            Outcome::Failed { fault: Fault::UnknownEscape(c), at: i + 1 }
        }
    } else {
        Outcome::Failed { fault: Fault::UnexpectedEnd, at: i }
    }
}

/// The characters of a string from `i` up to the closing quote, added to
/// those in `acc`. Whitespace counts here as any other character.
pub open spec fn string_chars(s: Seq<char>, i: int, acc: Seq<char>) -> Outcome<Seq<char>>
    decreases s.len() - i,
{
    if 0 <= i < s.len() {
        if s[i] == '"' {
            Outcome::Done { value: acc, next: i + 1 }
        } else if s[i] == '\\' {
            match escape(s, i + 1) {
                Outcome::Done { value, next } => string_chars(s, next, acc.push(value)),
                Outcome::Failed { fault, at } => Outcome::Failed { fault, at },
            }
        } else {
            string_chars(s, i + 1, acc.push(s[i]))
        }
    } else {
        Outcome::Failed { fault: Fault::UnexpectedEnd, at: i }
    }
}

/// A string: a quote, and the characters up to the quote that closes it.
pub open spec fn string(s: Seq<char>, i: int) -> Outcome<Seq<char>> {
    match token(s, i) {
        Outcome::Failed { fault, at } => Outcome::Failed { fault, at },
        Outcome::Done { value: c, next } => if c == '"' {
            string_chars(s, next, Seq::empty())
        } else {
            Outcome::Failed { fault: Fault::StringStart(c), at: next }
        },
    }
}

/// The character at `i` as it stands, whitespace or not, left unread.
pub open spec fn here(s: Seq<char>, i: int) -> Outcome<char> {
    if 0 <= i < s.len() {
        Outcome::Done { value: s[i], next: i }
    } else {
        Outcome::Failed { fault: Fault::UnexpectedEnd, at: i }
    }
}

/// The digits that stand from `i` on, one right after the other, added to
/// those in `acc`. The run ends before the first character that is no
/// digit, whitespace or not; a text that ends first is a fault.
pub open spec fn digits_onto(s: Seq<char>, i: int, acc: Seq<char>) -> Outcome<Seq<char>>
    decreases s.len() - i,
{
    if 0 <= i < s.len() {
        if is_digit(s[i]) {
            digits_onto(s, i + 1, acc.push(s[i]))
        } else {
            Outcome::Done { value: acc, next: i }
        }
    } else {
        Outcome::Failed { fault: Fault::UnexpectedEnd, at: i }
    }
}

/// A run of digits, possibly empty.
pub open spec fn digits(s: Seq<char>, i: int) -> Outcome<Seq<char>> {
    digits_onto(s, i, Seq::empty())
}

/// A run of at least one digit, added to the text `before` of the number
/// that it belongs to.
pub open spec fn digits_after(s: Seq<char>, i: int, before: Seq<char>) -> Outcome<Seq<char>> {
    match digits(s, i) {
        Outcome::Failed { fault, at } => Outcome::Failed { fault, at },
        Outcome::Done { value, next } => if value.len() == 0 {
            Outcome::Failed { fault: Fault::MalformedNumber(before), at: next }
        } else {
            Outcome::Done { value: before + value, next }
        },
    }
}

/// The sign of a number, where one is written. The whitespace before the
/// number is read here; from the first character of the number on,
/// whitespace ends it.
pub open spec fn sign_part(s: Seq<char>, i: int) -> Outcome<Seq<char>> {
    match peeked(s, i) {
        Outcome::Failed { fault, at } => Outcome::Failed { fault, at },
        Outcome::Done { value: c, next } => if c == '-' {
            Outcome::Done { value: seq!['-'], next: next + 1 }
        } else {
            Outcome::Done { value: Seq::empty(), next }
        },
    }
}

/// The integer part of a number: a single `0`, or digits of which the first
/// is not `0`.
pub open spec fn integer_part(s: Seq<char>, i: int, before: Seq<char>) -> Outcome<Seq<char>> {
    match here(s, i) {
        Outcome::Failed { fault, at } => Outcome::Failed { fault, at },
        Outcome::Done { value: c, .. } => if c == '0' {
            match here(s, i + 1) {
                Outcome::Failed { fault, at } => Outcome::Failed { fault, at },
                Outcome::Done { value: d, .. } => if is_digit(d) {
                    Outcome::Failed { fault: Fault::LeadingZero, at: i + 1 }
                } else {
                    Outcome::Done { value: before.push('0'), next: i + 1 }
                },
            }
        } else if is_digit(c) {
            digits_after(s, i, before)
        } else {
            Outcome::Failed { fault: Fault::IntegerPart(c), at: i }
        },
    }
}

/// The fraction of a number, where one is written: a point and at least one
/// digit.
pub open spec fn fraction_part(s: Seq<char>, i: int, before: Seq<char>) -> Outcome<Seq<char>> {
    match here(s, i) {
        Outcome::Failed { fault, at } => Outcome::Failed { fault, at },
        Outcome::Done { value: c, .. } => if c == '.' {
            digits_after(s, i + 1, before.push('.'))
        } else {
            Outcome::Done { value: before, next: i }
        },
    }
}

/// The exponent of a number, where one is written: `e` or `E`, a sign or
/// none, and at least one digit.
pub open spec fn exponent_part(s: Seq<char>, i: int, before: Seq<char>) -> Outcome<Seq<char>> {
    match here(s, i) {
        Outcome::Failed { fault, at } => Outcome::Failed { fault, at },
        Outcome::Done { value: c, .. } => if c == 'e' || c == 'E' {
            match here(s, i + 1) {
                Outcome::Failed { fault, at } => Outcome::Failed { fault, at },
                Outcome::Done { value: d, .. } => if d == '-' || d == '+' {
                    digits_after(s, i + 2, before.push(c).push(d))
                } else {
                    digits_after(s, i + 1, before.push(c))
                },
            }
        } else {
            Outcome::Done { value: before, next: i }
        },
    }
}

/// A number: its literal. The characters of the literal stand one right
/// after the other; the literal ends before the first character that
/// cannot belong to it, and a text that ends first is a fault.
pub open spec fn number(s: Seq<char>, i: int) -> Outcome<Seq<char>> {
    match sign_part(s, i) {
        Outcome::Failed { fault, at } => Outcome::Failed { fault, at },
        Outcome::Done { value: sign, next: a } => match integer_part(s, a, sign) {
            Outcome::Failed { fault, at } => Outcome::Failed { fault, at },
            Outcome::Done { value: whole, next: b } => match fraction_part(s, b, whole) {
                Outcome::Failed { fault, at } => Outcome::Failed { fault, at },
                Outcome::Done { value: mantissa, next: c } => exponent_part(s, c, mantissa),
            },
        },
    }
}

/// Skipping whitespace stays within the text and ends at a character that
/// is no whitespace, or at the end.
pub proof fn lemma_skip_blanks(s: Seq<char>, i: int)
    requires
        0 <= i <= s.len(),
    ensures
        i <= skip_blanks(s, i) <= s.len(),
        skip_blanks(s, i) < s.len() ==> !is_whitespace(s[skip_blanks(s, i)]),
        skip_blanks(s, skip_blanks(s, i)) == skip_blanks(s, i),
    decreases s.len() - i,
{
    if i < s.len() && is_whitespace(s[i]) {
        lemma_skip_blanks(s, i + 1);
    }
}

/// A run of digits ends before a character that is no digit, keeps what was
/// gathered before it, and adds digits only.
pub proof fn lemma_digits_onto(s: Seq<char>, i: int, acc: Seq<char>)
    requires
        0 <= i <= s.len(),
    ensures
        match digits_onto(s, i, acc) {
            Outcome::Done { value, next } => {
                &&& i <= next < s.len()
                &&& !is_digit(s[next])
                &&& value.len() >= acc.len()
                &&& value.take(acc.len() as int) == acc
                &&& all_digits(value.skip(acc.len() as int))
                &&& (value.len() == acc.len()) == !is_digit(s[i])
            },
            Outcome::Failed { fault, at } => fault == Fault::UnexpectedEnd && at == s.len(),
        },
    decreases s.len() - i,
{
    if i < s.len() && is_digit(s[i]) {
        let more = acc.push(s[i]);
        lemma_digits_onto(s, i + 1, more);
        match digits_onto(s, i + 1, more) {
            Outcome::Done { value, next } => {
                let n = acc.len() as int;
                assert(value.take(n) =~= value.take(n + 1).take(n));
                assert(value.take(n) =~= acc);
                assert(value[n] == value.take(n + 1)[n]);
                assert forall|k: int| 0 <= k < value.skip(n).len() implies is_digit(
                    #[trigger] value.skip(n)[k],
                ) by {
                    if k > 0 {
                        assert(value.skip(n)[k] == value.skip(n + 1)[k - 1]);
                    }
                }
            },
            Outcome::Failed { .. } => {},
        }
    }
}

/// Where [`digits_after`] succeeds it has added a run of at least one digit
/// to `before`; the run is returned. Where it fails, it does so within the
/// text.
pub proof fn lemma_digits_after(s: Seq<char>, i: int, before: Seq<char>) -> (run: Seq<char>)
    requires
        0 <= i <= s.len(),
    ensures
        digits_after(s, i, before) matches Outcome::Done { value, next } ==> {
            &&& value == before + run
            &&& run.len() >= 1
            &&& all_digits(run)
            &&& run[0] == s[i]
            &&& i < next < s.len()
            &&& !is_digit(s[next])
        },
        digits_after(s, i, before) matches Outcome::Failed { at, .. } ==> i <= at <= s.len(),
{
    lemma_digits_onto(s, i, Seq::empty());
    match digits(s, i) {
        Outcome::Done { value, next } => {
            assert(value.skip(0) =~= value);
            if value.len() > 0 {
                lemma_digits_onto(s, i + 1, seq![s[i]]);
                assert(Seq::<char>::empty().push(s[i]) =~= seq![s[i]]);
                assert(value.take(1)[0] == value[0]);
            }
            value
        },
        Outcome::Failed { .. } => Seq::empty(),
    }
}

/// Where [`integer_part`] succeeds it has added a single `0`, or digits of
/// which the first is not `0`; what it added is returned. Where it fails,
/// it does so within the text.
pub proof fn lemma_integer_part(s: Seq<char>, i: int, before: Seq<char>) -> (run: Seq<char>)
    requires
        0 <= i <= s.len(),
    ensures
        integer_part(s, i, before) matches Outcome::Done { value, next } ==> {
            &&& value == before + run
            &&& run.len() >= 1
            &&& all_digits(run)
            &&& run[0] == '0' ==> run.len() == 1
            &&& i < next <= s.len()
        },
        integer_part(s, i, before) matches Outcome::Failed { at, .. } ==> i <= at <= s.len(),
{
    if i < s.len() {
        if s[i] == '0' {
            assert(before.push('0') =~= before + seq!['0']);
            seq!['0']
        } else {
            lemma_digits_after(s, i, before)
        }
    } else {
        Seq::empty()
    }
}

/// Where [`fraction_part`] succeeds it has added nothing, or a point and at
/// least one digit; the digits are returned. Where it fails, it does so
/// within the text.
pub proof fn lemma_fraction_part(s: Seq<char>, i: int, before: Seq<char>) -> (fraction: Option<
    Seq<char>,
>)
    requires
        0 <= i <= s.len(),
    ensures
        fraction_part(s, i, before) matches Outcome::Done { value, next } ==> {
            &&& value == before + fraction_text(fraction)
            &&& fraction matches Some(f) ==> f.len() >= 1 && all_digits(f)
            &&& i <= next <= s.len()
        },
        fraction_part(s, i, before) matches Outcome::Failed { at, .. } ==> i <= at <= s.len(),
{
    if i < s.len() && s[i] == '.' {
        let f = lemma_digits_after(s, i + 1, before.push('.'));
        assert(before.push('.') + f =~= before + (seq!['.'] + f));
        Some(f)
    } else {
        assert(before + Seq::<char>::empty() =~= before);
        None
    }
}

/// Where [`exponent_part`] succeeds it has added nothing, or a marker, at
/// most a sign, and at least one digit; the exponent is returned. Where it
/// fails, it does so within the text.
pub proof fn lemma_exponent_part(s: Seq<char>, i: int, before: Seq<char>) -> (exponent: Option<
    Exponent,
>)
    requires
        0 <= i <= s.len(),
    ensures
        exponent_part(s, i, before) matches Outcome::Done { value, next } ==> {
            &&& value == before + exponent_text(exponent)
            &&& exponent matches Some(e) ==> e.valid()
            &&& i <= next <= s.len()
        },
        exponent_part(s, i, before) matches Outcome::Failed { at, .. } ==> i <= at <= s.len(),
{
    if i < s.len() && (s[i] == 'e' || s[i] == 'E') {
        if i + 1 < s.len() {
            if s[i + 1] == '-' || s[i + 1] == '+' {
                let run = lemma_digits_after(s, i + 2, before.push(s[i]).push(s[i + 1]));
                let e = Exponent { marker: s[i], sign: Some(s[i + 1]), digits: run };
                assert(before.push(s[i]).push(s[i + 1]) + run =~= before + e.text());
                Some(e)
            } else {
                let run = lemma_digits_after(s, i + 1, before.push(s[i]));
                let e = Exponent { marker: s[i], sign: None, digits: run };
                assert(before.push(s[i]) + run =~= before + e.text());
                Some(e)
            }
        } else {
            None
        }
    } else {
        assert(before + Seq::<char>::empty() =~= before);
        None
    }
}

/// What [`number`] recognises is a number literal, and it takes at least
/// one character. Where it fails, it does so within the text.
pub proof fn lemma_number_is_literal(s: Seq<char>, i: int)
    requires
        0 <= i <= s.len(),
    ensures
        number(s, i) matches Outcome::Done { value, next } ==> is_number_literal(value) && i < next
            <= s.len(),
        number(s, i) matches Outcome::Failed { at, .. } ==> i <= at <= s.len(),
{
    lemma_skip_blanks(s, i);
    if let Outcome::Done { value: sign, next: a } = sign_part(s, i) {
        let integer = lemma_integer_part(s, a, sign);
        if let Outcome::Done { value: whole, next: b } = integer_part(s, a, sign) {
            let fraction = lemma_fraction_part(s, b, whole);
            if let Outcome::Done { value: mantissa, next: c } = fraction_part(s, b, whole) {
                let exponent = lemma_exponent_part(s, c, mantissa);
                if let Outcome::Done { value, next } = exponent_part(s, c, mantissa) {
                    let n = Numeral { negative: sign.len() > 0, integer, fraction, exponent };
                    assert(sign_text(n.negative) =~= sign);
                    assert(n.text() == value);
                }
            }
        }
    }
}

/// The literal word that starts with `c`.
pub open spec fn word_of(c: char) -> Option<Seq<char>> {
    if c == 't' {
        Some(seq!['t', 'r', 'u', 'e'])
    } else if c == 'f' {
        Some(seq!['f', 'a', 'l', 's', 'e'])
    } else if c == 'n' {
        Some(seq!['n', 'u', 'l', 'l'])
    } else {
        None
    }
}

/// The value that the literal word starting with `c` stands for.
pub open spec fn word_value(c: char) -> Value {
    if c == 't' {
        Value::Bool(true)
    } else if c == 'f' {
        Value::Bool(false)
    } else {
        Value::Null
    }
}

/// How many characters of `w` stand in `s` from `i` on, given that the first
/// `k` do.
pub open spec fn matched(s: Seq<char>, i: int, w: Seq<char>, k: nat) -> nat
    decreases w.len() - k,
{
    if k < w.len() && 0 <= i + k < s.len() && s[i + k] == w[k as int] {
        matched(s, i, w, k + 1)
    } else {
        k
    }
}

/// One of the literal words `true`, `false` and `null`, chosen by the
/// character `c`, read character by character from `i` on.
pub open spec fn word(s: Seq<char>, i: int, c: char) -> Outcome<Value> {
    match word_of(c) {
        None => Outcome::Failed { fault: Fault::UnknownWord(c), at: i },
        Some(w) => {
            let n = matched(s, i, w, 0);
            if n >= w.len() {
                Outcome::Done { value: word_value(c), next: i + n }
            } else if 0 <= i + n < s.len() {
                Outcome::Failed {
                    fault: Fault::WordMismatch { word: w, expected: w[n as int], found: s[i + n] },
                    at: i + n + 1,
                }
            } else {
                Outcome::Failed { fault: Fault::UnexpectedEnd, at: i + n }
            }
        },
    }
}

/// The outcome `o` of a production that started at `from`, with the end of
/// a success kept after `from` and within the text. Every value takes at
/// least one character of the text, so this changes nothing of what
/// [`value`] gives (`lemma_forward_keeps_value` among the laws proves it);
/// it is what makes the definitions below well founded.
pub open spec fn forward<T>(s: Seq<char>, from: int, o: Outcome<T>) -> Outcome<T> {
    match o {
        Outcome::Done { value, next } => Outcome::Done {
            value,
            next: if from < next <= s.len() {
                next
            } else {
                from + 1
            },
        },
        Outcome::Failed { fault, at } => Outcome::Failed { fault, at },
    }
}

/// The outcome of [`number`] as a value.
pub open spec fn as_number(o: Outcome<Seq<char>>) -> Outcome<Value> {
    match o {
        Outcome::Done { value, next } => Outcome::Done { value: Value::Number(value), next },
        Outcome::Failed { fault, at } => Outcome::Failed { fault, at },
    }
}

/// The outcome of [`string`] as a value.
pub open spec fn as_string(o: Outcome<Seq<char>>) -> Outcome<Value> {
    match o {
        Outcome::Done { value, next } => Outcome::Done { value: Value::String(value), next },
        Outcome::Failed { fault, at } => Outcome::Failed { fault, at },
    }
}

/// Any value: the first character that is no whitespace decides which
/// production applies.
pub open spec fn value(s: Seq<char>, i: int) -> Outcome<Value>
    decreases s.len() - i, 2nat,
{
    let j = skip_blanks(s, i);
    if 0 <= j < s.len() {
        let c = s[j];
        if is_digit(c) || c == '-' {
            as_number(number(s, j))
        } else if c == '"' {
            as_string(string(s, j))
        } else if c == '{' {
            object(s, j)
        } else if c == '[' {
            array(s, j)
        } else if c == 't' || c == 'f' || c == 'n' {
            word(s, j, c)
        } else {
            Outcome::Failed { fault: Fault::Unparseable(c), at: j }
        }
    } else {
        Outcome::Failed { fault: Fault::UnexpectedEnd, at: j }
    }
}

/// An object: `{`, and either `}` at once or members up to `}`.
pub open spec fn object(s: Seq<char>, i: int) -> Outcome<Value>
    decreases s.len() - i, 1nat,
{
    match token(s, i) {
        Outcome::Failed { fault, at } => Outcome::Failed { fault, at },
        Outcome::Done { value: c, next } => if c == '{' {
            match peeked(s, next) {
                Outcome::Failed { fault, at } => Outcome::Failed { fault, at },
                Outcome::Done { value: d, next: j } => if d == '}' {
                    Outcome::Done { value: Value::Object(Map::empty()), next: j + 1 }
                } else {
                    members(s, j, Map::empty())
                },
            }
        } else {
            Outcome::Failed { fault: Fault::ObjectStart, at: next }
        },
    }
}

/// The members of an object from `i` up to the closing `}`, added to those
/// in `acc`: a key, which has to be a string, a `:`, a value, and then `,`
/// or `}`. A key that comes again replaces what it had.
pub open spec fn members(s: Seq<char>, i: int, acc: Map<Seq<char>, Value>) -> Outcome<Value>
    decreases s.len() - i, 3nat,
{
    match forward(s, i, value(s, i)) {
        Outcome::Failed { fault, at } => Outcome::Failed { fault, at },
        Outcome::Done { value: key, next: a } => match key {
            Value::String(name) => match token(s, a) {
                Outcome::Failed { fault, at } => Outcome::Failed { fault, at },
                Outcome::Done { value: c, next: b } => if c == ':' {
                    match forward(s, b, value(s, b)) {
                        Outcome::Failed { fault, at } => Outcome::Failed { fault, at },
                        Outcome::Done { value: v, next: d } => match token(s, d) {
                            Outcome::Failed { fault, at } => Outcome::Failed { fault, at },
                            Outcome::Done { value: e, next } => if e == '}' {
                                Outcome::Done { value: Value::Object(acc.insert(name, v)), next }
                            } else if e == ',' {
                                members(s, next, acc.insert(name, v))
                            } else {
                                Outcome::Failed { fault: Fault::UnexpectedToken(e), at: next }
                            },
                        },
                    }
                } else {
                    Outcome::Failed { fault: Fault::MissingColon(c), at: b }
                },
            },
            other => Outcome::Failed { fault: Fault::KeyNotString(other.kind()), at: a },
        },
    }
}

/// An array: `[`, and items up to `]`.
pub open spec fn array(s: Seq<char>, i: int) -> Outcome<Value>
    decreases s.len() - i, 1nat,
{
    match token(s, i) {
        Outcome::Failed { fault, at } => Outcome::Failed { fault, at },
        Outcome::Done { value: c, next } => if c == '[' {
            items(s, next, Seq::empty())
        } else {
            Outcome::Failed { fault: Fault::ArrayStart(c), at: next }
        },
    }
}

/// The items of an array from `i` up to the closing `]`, added to those in
/// `acc`. A `,` is passed over wherever it stands.
pub open spec fn items(s: Seq<char>, i: int, acc: Seq<Value>) -> Outcome<Value>
    decreases s.len() - i, 3nat,
{
    let j = skip_blanks(s, i);
    if 0 <= j < s.len() {
        if s[j] == ',' {
            items(s, j + 1, acc)
        } else if s[j] == ']' {
            Outcome::Done { value: Value::Array(acc), next: j + 1 }
        } else {
            match forward(s, j, value(s, j)) {
                Outcome::Done { value, next } => items(s, next, acc.push(value)),
                Outcome::Failed { fault, at } => Outcome::Failed { fault, at },
            }
        }
    } else {
        Outcome::Failed { fault: Fault::UnexpectedEnd, at: j }
    }
}

/// A whole text: the object that it holds.
pub open spec fn document(s: Seq<char>) -> Outcome<Value> {
    object(s, 0)
}

/// What is reported of a fault met in `s` when `at` characters have been
/// read: its message, and the line and the column reached.
pub open spec fn report(s: Seq<char>, fault: Fault, at: int) -> Report {
    Report {
        message: fault.message(),
        line: line_after(s.take(at)),
        column: column_after(s.take(at)),
    }
}

/// What parsing the text `s` gives: the value of the object it holds, or the
/// report of the first fault.
pub open spec fn parse_result(s: Seq<char>) -> Result<Value, Report> {
    match document(s) {
        Outcome::Done { value, .. } => Ok(value),
        Outcome::Failed { fault, at } => Err(report(s, fault, at)),
    }
}

} // verus!
