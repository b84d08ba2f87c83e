//! What holds of the grammar whatever the text: how far a production reads,
//! what the whole text has to be, and a few shapes that are always accepted
//! or always refused.

use vstd::prelude::*;
use crate::grammar::{
    array, document, escape, forward, integer_part, items, lemma_number_is_literal,
    lemma_skip_blanks, matched, members, number, object, parse_result, peeked, report, sign_part,
    skip_blanks, string, string_chars, token, value, word, word_of, Fault, Outcome,
};
use crate::json::Value;
use crate::json_error::Report;
use crate::position::{lemma_line_monotonic, lemma_position_bounds, line_after};
use crate::text::{is_digit, is_whitespace};

verus! {

/// The outcome `o` of a production that started at `i` lies within the
/// text: a success ends, and a fault is met, no earlier than `i` and no
/// later than the end of the text.
pub open spec fn within<T>(s: Seq<char>, i: int, o: Outcome<T>) -> bool {
    match o {
        Outcome::Done { next, .. } => i <= next <= s.len(),
        Outcome::Failed { at, .. } => i <= at <= s.len(),
    }
}

/// An escape ends, or fails, within the text.
pub proof fn lemma_escape_advances(s: Seq<char>, i: int)
    requires
        0 <= i <= s.len(),
    ensures
        escape(s, i) matches Outcome::Done { next, .. } ==> i < next <= s.len(),
        within(s, i, escape(s, i)),
{
}

/// The characters of a string end, or fail, within the text.
pub proof fn lemma_string_chars_advances(s: Seq<char>, i: int, acc: Seq<char>)
    requires
        0 <= i <= s.len(),
    ensures
        string_chars(s, i, acc) matches Outcome::Done { next, .. } ==> i < next <= s.len(),
        within(s, i, string_chars(s, i, acc)),
    decreases s.len() - i,
{
    if i < s.len() && s[i] != '"' {
        if s[i] == '\\' {
            lemma_escape_advances(s, i + 1);
            if let Outcome::Done { value, next } = escape(s, i + 1) {
                lemma_string_chars_advances(s, next, acc.push(value));
            }
        } else {
            lemma_string_chars_advances(s, i + 1, acc.push(s[i]));
        }
    }
}

/// A string ends, or fails, within the text.
pub proof fn lemma_string_advances(s: Seq<char>, i: int)
    requires
        0 <= i <= s.len(),
    ensures
        string(s, i) matches Outcome::Done { next, .. } ==> i < next <= s.len(),
        within(s, i, string(s, i)),
{
    lemma_skip_blanks(s, i);
    if let Outcome::Done { next, .. } = token(s, i) {
        lemma_string_chars_advances(s, next, Seq::empty());
    }
}

/// No more characters of a word are matched than the word and the text
/// have.
pub proof fn lemma_matched_bounds(s: Seq<char>, i: int, w: Seq<char>, k: nat)
    requires
        0 <= i,
        i + k <= s.len(),
        k <= w.len(),
    ensures
        k <= matched(s, i, w, k) <= w.len(),
        i + matched(s, i, w, k) <= s.len(),
    decreases w.len() - k,
{
    if k < w.len() && i + k < s.len() && s[i + k] == w[k as int] {
        lemma_matched_bounds(s, i, w, k + 1);
    }
}

/// A literal word ends, or fails, within the text.
pub proof fn lemma_word_advances(s: Seq<char>, i: int, c: char)
    requires
        0 <= i <= s.len(),
    ensures
        word(s, i, c) matches Outcome::Done { next, .. } ==> i < next <= s.len(),
        within(s, i, word(s, i, c)),
{
    if let Some(w) = word_of(c) {
        lemma_matched_bounds(s, i, w, 0);
    }
}

/// A value that is accepted takes at least one character, and a value ends,
/// or fails, within the text.
pub proof fn lemma_value_advances(s: Seq<char>, i: int)
    requires
        0 <= i <= s.len(),
    ensures
        value(s, i) matches Outcome::Done { next, .. } ==> i < next <= s.len(),
        within(s, i, value(s, i)),
    decreases s.len() - i, 2nat,
{
    lemma_skip_blanks(s, i);
    let j = skip_blanks(s, i);
    if j < s.len() {
        let c = s[j];
        if is_digit(c) || c == '-' {
            lemma_number_is_literal(s, j);
        } else if c == '"' {
            lemma_string_advances(s, j);
        } else if c == '{' {
            lemma_object_advances(s, j);
        } else if c == '[' {
            lemma_array_advances(s, j);
        } else if c == 't' || c == 'f' || c == 'n' {
            lemma_word_advances(s, j, c);
        }
    }
}

/// What [`object`] accepts is an object, and it ends, or fails, within the
/// text.
pub proof fn lemma_object_advances(s: Seq<char>, i: int)
    requires
        0 <= i <= s.len(),
    ensures
        object(s, i) matches Outcome::Done { value, next } ==> i < next <= s.len()
            && value is Object,
        within(s, i, object(s, i)),
    decreases s.len() - i, 1nat,
{
    lemma_skip_blanks(s, i);
    if let Outcome::Done { value: c, next } = token(s, i) {
        lemma_skip_blanks(s, next);
        if c == '{' {
            if let Outcome::Done { value: d, next: j } = peeked(s, next) {
                if d != '}' {
                    lemma_members_advances(s, j, Map::empty());
                }
            }
        }
    }
}

/// What [`members`] accepts is an object, and it ends, or fails, within the
/// text.
pub proof fn lemma_members_advances(s: Seq<char>, i: int, acc: Map<Seq<char>, Value>)
    requires
        0 <= i <= s.len(),
    ensures
        members(s, i, acc) matches Outcome::Done { value, next } ==> i < next <= s.len()
            && value is Object,
        forward(s, i, value(s, i)) == value(s, i),
        within(s, i, members(s, i, acc)),
    decreases s.len() - i, 3nat,
{
    lemma_value_advances(s, i);
    if let Outcome::Done { value: key, next: a } = value(s, i) {
        lemma_skip_blanks(s, a);
        if let Value::String(name) = key {
            if let Outcome::Done { value: c, next: b } = token(s, a) {
                if c == ':' {
                    lemma_value_advances(s, b);
                    if let Outcome::Done { value: v, next: d } = value(s, b) {
                        lemma_skip_blanks(s, d);
                        if let Outcome::Done { value: e, next } = token(s, d) {
                            if e == ',' {
                                lemma_members_advances(s, next, acc.insert(name, v));
                            }
                        }
                    }
                }
            }
        }
    }
}

/// What [`array`] accepts is an array, and it ends, or fails, within the
/// text.
pub proof fn lemma_array_advances(s: Seq<char>, i: int)
    requires
        0 <= i <= s.len(),
    ensures
        array(s, i) matches Outcome::Done { value, next } ==> i < next <= s.len()
            && value is Array,
        within(s, i, array(s, i)),
    decreases s.len() - i, 1nat,
{
    lemma_skip_blanks(s, i);
    if let Outcome::Done { value: c, next } = token(s, i) {
        if c == '[' {
            lemma_items_advances(s, next, Seq::empty());
        }
    }
}

/// What [`items`] accepts is an array, and it ends, or fails, within the
/// text.
pub proof fn lemma_items_advances(s: Seq<char>, i: int, acc: Seq<Value>)
    requires
        0 <= i <= s.len(),
    ensures
        items(s, i, acc) matches Outcome::Done { value, next } ==> i < next <= s.len()
            && value is Array,
        within(s, i, items(s, i, acc)),
    decreases s.len() - i, 3nat,
{
    lemma_skip_blanks(s, i);
    let j = skip_blanks(s, i);
    if j < s.len() {
        if s[j] == ',' {
            lemma_items_advances(s, j + 1, acc);
        } else if s[j] != ']' {
            lemma_value_advances(s, j);
            if let Outcome::Done { value, next } = value(s, j) {
                lemma_items_advances(s, next, acc.push(value));
            }
        }
    }
}

/// One member read: a key, a colon, a value, and then `}` or `,`.
pub proof fn lemma_member_read(
    s: Seq<char>,
    i: int,
    acc: Map<Seq<char>, Value>,
    key: Seq<char>,
    a: int,
    b: int,
    child: Value,
    d: int,
    n: int,
    more: bool,
)
    requires
        value(s, i) == (Outcome::Done { value: Value::String(key), next: a }),
        i < a <= s.len(),
        token(s, a) == (Outcome::Done { value: ':', next: b }),
        value(s, b) == (Outcome::Done { value: child, next: d }),
        b < d <= s.len(),
        token(s, d) == (Outcome::Done {
            value: if more {
                ','
            } else {
                '}'
            },
            next: n,
        }),
    ensures
        members(s, i, acc) == (if more {
            members(s, n, acc.insert(key, child))
        } else {
            Outcome::Done { value: Value::Object(acc.insert(key, child)), next: n }
        }),
{
    assert(forward(s, i, value(s, i)) == value(s, i));
    assert(forward(s, b, value(s, b)) == value(s, b));
}

/// Keeping the end of a value in bounds changes nothing: the bounds hold of
/// every value that is accepted.
pub proof fn lemma_forward_keeps_value(s: Seq<char>, i: int)
    requires
        0 <= i <= s.len(),
    ensures
        forward(s, i, value(s, i)) == value(s, i),
{
    lemma_value_advances(s, i);
}

/// A fault is met within the text: where a text is refused, no more
/// characters have been read than it has. So the line that is reported is
/// none before the first and none after the last line of the text, and the
/// column is at most four times the number of characters read.
pub proof fn lemma_fault_within_text(s: Seq<char>)
    ensures
        document(s) matches Outcome::Failed { at, .. } ==> 0 <= at <= s.len(),
        parse_result(s) matches Err(rep) ==> 1 <= rep.line <= line_after(s) && rep.column <= 4
            * s.len(),
{
    lemma_object_advances(s, 0);
    if let Outcome::Failed { at, .. } = document(s) {
        lemma_line_monotonic(s, at, s.len() as int);
        lemma_position_bounds(s.take(at));
        assert(s.take(s.len() as int) =~= s);
    }
}

/// Whatever parses is an object.
pub proof fn lemma_parsed_is_object(s: Seq<char>)
    ensures
        parse_result(s) matches Ok(value) ==> value is Object,
{
    lemma_object_advances(s, 0);
}

/// A text whose first token is not `{` is refused, and the fault is
/// reported right behind that token.
pub proof fn lemma_top_level_must_be_object(s: Seq<char>)
    requires
        token(s, 0) matches Outcome::Done { value, .. } && value != '{',
    ensures
        parse_result(s) == Err::<Value, Report>(
            report(s, Fault::ObjectStart, skip_blanks(s, 0) + 1),
        ),
{
}

/// A text with nothing but whitespace is refused as ending too early.
pub proof fn lemma_blank_text_ends_early(s: Seq<char>)
    requires
        skip_blanks(s, 0) >= s.len(),
    ensures
        parse_result(s) == Err::<Value, Report>(
            report(s, Fault::UnexpectedEnd, skip_blanks(s, 0)),
        ),
{
}

/// A number whose integer part is a `0` with a digit right after it is
/// refused, and the fault is reported at that digit.
pub proof fn lemma_leading_zero(s: Seq<char>, i: int)
    requires
        ({
            &&& sign_part(s, i) matches Outcome::Done { next: a, .. }
            &&& 0 <= a
            &&& a + 1 < s.len()
            &&& s[a] == '0'
            &&& is_digit(s[a + 1])
        }),
    ensures
        number(s, i) matches Outcome::Failed { fault, at } && fault == Fault::LeadingZero && 0
            <= at < s.len() && is_digit(s[at]) && at >= 1 && s[at - 1] == '0',
{
}

/// Whitespace ends a number: where the integer part of a number is read and
/// whitespace stands right after it, the number is that integer part,
/// whatever follows the whitespace.
pub proof fn lemma_whitespace_ends_number(s: Seq<char>, i: int)
    requires
        ({
            &&& sign_part(s, i) matches Outcome::Done { value: sign, next: a }
            &&& integer_part(s, a, sign) matches Outcome::Done { next: b, .. }
            &&& 0 <= b < s.len()
            &&& is_whitespace(s[b])
        }),
    ensures
        ({
            &&& sign_part(s, i) matches Outcome::Done { value: sign, next: a }
            &&& number(s, i) == integer_part(s, a, sign)
        }),
{
}

/// A member needs `,` or `}` behind its value: with any other token there,
/// a second number after whitespace for one, the text is refused for that
/// token.
pub proof fn lemma_member_needs_separator(
    s: Seq<char>,
    i: int,
    acc: Map<Seq<char>, Value>,
    name: Seq<char>,
    a: int,
    b: int,
    d: int,
)
    requires
        value(s, i) == (Outcome::Done { value: Value::String(name), next: a }),
        i < a <= s.len(),
        token(s, a) == (Outcome::Done { value: ':', next: b }),
        value(s, b) matches Outcome::Done { next, .. } && next == d,
        b < d <= s.len(),
        token(s, d) matches Outcome::Done { value: c, .. } && c != ',' && c != '}',
    ensures
        members(s, i, acc) == (Outcome::Failed::<Value> {
            fault: Fault::UnexpectedToken(s[skip_blanks(s, d)]),
            at: skip_blanks(s, d) + 1,
        }),
{
    assert(forward(s, i, value(s, i)) == value(s, i));
    assert(forward(s, b, value(s, b)) == value(s, b));
}

/// `{` and `}` with nothing but whitespace between them are the empty
/// object.
pub proof fn lemma_empty_object(s: Seq<char>, i: int)
    requires
        ({
            &&& token(s, i) matches Outcome::Done { value: open, next: a }
            &&& open == '{'
            &&& token(s, a) matches Outcome::Done { value: close, .. }
            &&& close == '}'
        }),
    ensures
        object(s, i) == (Outcome::Done {
            value: Value::Object(Map::empty()),
            next: skip_blanks(s, skip_blanks(s, i) + 1) + 1,
        }),
{
}

/// `[` and `]` with nothing but whitespace between them are the empty
/// array.
pub proof fn lemma_empty_array(s: Seq<char>, i: int)
    requires
        ({
            &&& token(s, i) matches Outcome::Done { value: open, next: a }
            &&& open == '['
            &&& token(s, a) matches Outcome::Done { value: close, .. }
            &&& close == ']'
        }),
    ensures
        array(s, i) == (Outcome::Done {
            value: Value::Array(Seq::empty()),
            next: skip_blanks(s, skip_blanks(s, i) + 1) + 1,
        }),
{
}

/// Whitespace before a value changes nothing of what is read.
pub proof fn lemma_leading_whitespace(s: Seq<char>, i: int)
    requires
        0 <= i <= s.len(),
    ensures
        value(s, i) == value(s, skip_blanks(s, i)),
{
    lemma_skip_blanks(s, i);
}

} // verus!
