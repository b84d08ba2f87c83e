//! A text that parses, cut short: whatever the place of the cut, the rest
//! is refused because it ends too early, and for no other reason.

use vstd::prelude::*;
use crate::grammar::{
    array, code_unit, digits, digits_after, digits_onto, document, escape, exponent_part, forward,
    fraction_part, hex_at, integer_part, items, matched, members, number, object, parse_result,
    peeked, report, sign_part, skip_blanks, string, string_chars, token, value, word, word_of,
    Fault, Outcome,
};
use crate::json::Value;
use crate::json_error::Report;
use crate::laws::{lemma_matched_bounds, lemma_object_advances, lemma_value_advances};
use crate::text::is_digit;

verus! {

/// What a production that gives `whole` on a text may give on the first `k`
/// characters of it: where `whole` is a success, the same success, reached
/// within those `k` characters, or the end of the text as the fault.
pub open spec fn survives_cut<T>(whole: Outcome<T>, part: Outcome<T>, k: int) -> bool {
    match whole {
        Outcome::Done { next, .. } => (part == whole && next <= k) || part == (Outcome::Failed::<
            T,
        > { fault: Fault::UnexpectedEnd, at: k }),
        Outcome::Failed { .. } => true,
    }
}

/// In the text cut at `k`, whitespace is skipped as in the whole text, up
/// to the cut.
pub proof fn lemma_skip_cut(s: Seq<char>, i: int, k: int)
    requires
        0 <= i <= k <= s.len(),
    ensures
        skip_blanks(s.take(k), i) == if skip_blanks(s, i) <= k {
            skip_blanks(s, i)
        } else {
            k
        },
    decreases k - i,
{
    if i < k {
        lemma_skip_cut(s, i + 1, k);
    }
}

/// Looking ahead survives a cut.
pub proof fn lemma_peeked_cut(s: Seq<char>, i: int, k: int)
    requires
        0 <= i <= k <= s.len(),
    ensures
        survives_cut(peeked(s, i), peeked(s.take(k), i), k),
{
    lemma_skip_cut(s, i, k);
}

/// Reading a token survives a cut.
pub proof fn lemma_token_cut(s: Seq<char>, i: int, k: int)
    requires
        0 <= i <= k <= s.len(),
    ensures
        survives_cut(token(s, i), token(s.take(k), i), k),
{
    lemma_skip_cut(s, i, k);
}

/// Reading the four digits of a `\u` escape survives a cut.
pub proof fn lemma_code_unit_cut(s: Seq<char>, i: int, k: int)
    requires
        0 <= i <= k <= s.len(),
    ensures
        survives_cut(code_unit(s, i), code_unit(s.take(k), i), k),
{
    let t = s.take(k);
    if code_unit(s, i) is Done {
        assert(hex_at(s, i) is Done && hex_at(s, i + 1) is Done && hex_at(s, i + 2) is Done
            && hex_at(s, i + 3) is Done);
        if i + 4 <= k {
            assert(hex_at(t, i) == hex_at(s, i));
            assert(hex_at(t, i + 1) == hex_at(s, i + 1));
            assert(hex_at(t, i + 2) == hex_at(s, i + 2));
            assert(hex_at(t, i + 3) == hex_at(s, i + 3));
        } else if i + 3 <= k {
            assert(hex_at(t, i) == hex_at(s, i));
            assert(hex_at(t, i + 1) == hex_at(s, i + 1));
            assert(hex_at(t, i + 2) == hex_at(s, i + 2));
        } else if i + 2 <= k {
            assert(hex_at(t, i) == hex_at(s, i));
            assert(hex_at(t, i + 1) == hex_at(s, i + 1));
        } else if i + 1 <= k {
            assert(hex_at(t, i) == hex_at(s, i));
        }
    }
}

/// Reading an escape survives a cut.
pub proof fn lemma_escape_cut(s: Seq<char>, i: int, k: int)
    requires
        0 <= i <= k <= s.len(),
    ensures
        survives_cut(escape(s, i), escape(s.take(k), i), k),
{
    if i < k && s[i] == 'u' {
        lemma_code_unit_cut(s, i + 1, k);
    }
}

/// Reading the characters of a string survives a cut.
pub proof fn lemma_string_chars_cut(s: Seq<char>, i: int, acc: Seq<char>, k: int)
    requires
        0 <= i <= k <= s.len(),
    ensures
        survives_cut(string_chars(s, i, acc), string_chars(s.take(k), i, acc), k),
    decreases s.len() - i,
{
    if string_chars(s, i, acc) is Done && i < k && s[i] != '"' {
        if s[i] == '\\' {
            lemma_escape_cut(s, i + 1, k);
            if let Outcome::Done { value, next } = escape(s.take(k), i + 1) {
                lemma_string_chars_cut(s, next, acc.push(value), k);
            }
        } else {
            lemma_string_chars_cut(s, i + 1, acc.push(s[i]), k);
        }
    }
}

/// Reading a string survives a cut.
pub proof fn lemma_string_cut(s: Seq<char>, i: int, k: int)
    requires
        0 <= i <= k <= s.len(),
    ensures
        survives_cut(string(s, i), string(s.take(k), i), k),
{
    lemma_token_cut(s, i, k);
    if let Outcome::Done { next, .. } = token(s.take(k), i) {
        if string(s, i) is Done {
            lemma_string_chars_cut(s, next, Seq::empty(), k);
        }
    }
}

/// Reading a run of digits survives a cut.
pub proof fn lemma_digits_onto_cut(s: Seq<char>, i: int, acc: Seq<char>, k: int)
    requires
        0 <= i <= k <= s.len(),
    ensures
        survives_cut(digits_onto(s, i, acc), digits_onto(s.take(k), i, acc), k),
    decreases s.len() - i,
{
    if i < k && is_digit(s[i]) {
        lemma_digits_onto_cut(s, i + 1, acc.push(s[i]), k);
    }
}

/// Reading a run of at least one digit survives a cut.
pub proof fn lemma_digits_after_cut(s: Seq<char>, i: int, before: Seq<char>, k: int)
    requires
        0 <= i <= k <= s.len(),
    ensures
        survives_cut(digits_after(s, i, before), digits_after(s.take(k), i, before), k),
{
    lemma_digits_onto_cut(s, i, Seq::empty(), k);
}

/// Reading the integer part of a number survives a cut.
pub proof fn lemma_integer_cut(s: Seq<char>, i: int, before: Seq<char>, k: int)
    requires
        0 <= i <= k <= s.len(),
    ensures
        survives_cut(integer_part(s, i, before), integer_part(s.take(k), i, before), k),
{
    if integer_part(s, i, before) is Done && i < k && s[i] != '0' {
        lemma_digits_after_cut(s, i, before, k);
    }
}

/// Reading the fraction of a number survives a cut.
pub proof fn lemma_fraction_cut(s: Seq<char>, i: int, before: Seq<char>, k: int)
    requires
        0 <= i <= k <= s.len(),
    ensures
        survives_cut(fraction_part(s, i, before), fraction_part(s.take(k), i, before), k),
{
    if fraction_part(s, i, before) is Done && i < k && s[i] == '.' {
        lemma_digits_after_cut(s, i + 1, before.push('.'), k);
    }
}

/// Reading the exponent of a number survives a cut.
pub proof fn lemma_exponent_cut(s: Seq<char>, i: int, before: Seq<char>, k: int)
    requires
        0 <= i <= k <= s.len(),
    ensures
        survives_cut(exponent_part(s, i, before), exponent_part(s.take(k), i, before), k),
{
    if exponent_part(s, i, before) is Done && i + 1 < k && (s[i] == 'e' || s[i] == 'E') {
        if s[i + 1] == '-' || s[i + 1] == '+' {
            lemma_digits_after_cut(s, i + 2, before.push(s[i]).push(s[i + 1]), k);
        } else {
            lemma_digits_after_cut(s, i + 1, before.push(s[i]), k);
        }
    }
}

/// Reading a number survives a cut.
pub proof fn lemma_number_cut(s: Seq<char>, i: int, k: int)
    requires
        0 <= i <= k <= s.len(),
    ensures
        survives_cut(number(s, i), number(s.take(k), i), k),
{
    let t = s.take(k);
    lemma_peeked_cut(s, i, k);
    if number(s, i) is Done {
        if let Outcome::Done { value: sign, next: a } = sign_part(t, i) {
            assert(sign_part(s, i) == sign_part(t, i));
            lemma_integer_cut(s, a, sign, k);
            if let Outcome::Done { value: whole, next: b } = integer_part(t, a, sign) {
                lemma_fraction_cut(s, b, whole, k);
                if let Outcome::Done { value: mantissa, next: c } = fraction_part(t, b, whole) {
                    lemma_exponent_cut(s, c, mantissa, k);
                }
            }
        }
    }
}

/// In the text cut at `k`, a word is matched as far as in the whole text,
/// up to the cut.
pub proof fn lemma_matched_cut(s: Seq<char>, i: int, w: Seq<char>, n: nat, k: int)
    requires
        0 <= i,
        i + n <= k <= s.len(),
    ensures
        matched(s.take(k), i, w, n) == if i + matched(s, i, w, n) <= k {
            matched(s, i, w, n)
        } else {
            (k - i) as nat
        },
    decreases w.len() - n,
{
    if n < w.len() && i + n < s.len() && s[i + n] == w[n as int] {
        if i + n < k {
            lemma_matched_cut(s, i, w, n + 1, k);
        } else {
            lemma_matched_bounds(s, i, w, n + 1);
        }
    }
}

/// Reading a literal word survives a cut.
pub proof fn lemma_word_cut(s: Seq<char>, i: int, c: char, k: int)
    requires
        0 <= i <= k <= s.len(),
    ensures
        survives_cut(word(s, i, c), word(s.take(k), i, c), k),
{
    if let Some(w) = word_of(c) {
        lemma_matched_bounds(s, i, w, 0);
        lemma_matched_cut(s, i, w, 0, k);
    }
}

/// Reading a value survives a cut.
pub proof fn lemma_value_cut(s: Seq<char>, i: int, k: int)
    requires
        0 <= i <= k <= s.len(),
    ensures
        survives_cut(value(s, i), value(s.take(k), i), k),
    decreases s.len() - i, 2nat,
{
    lemma_skip_cut(s, i, k);
    let j = skip_blanks(s, i);
    if value(s, i) is Done && j < k {
        let c = s[j];
        if is_digit(c) || c == '-' {
            lemma_number_cut(s, j, k);
        } else if c == '"' {
            lemma_string_cut(s, j, k);
        } else if c == '{' {
            lemma_object_cut(s, j, k);
        } else if c == '[' {
            lemma_array_cut(s, j, k);
        } else if c == 't' || c == 'f' || c == 'n' {
            lemma_word_cut(s, j, c, k);
        }
    }
}

/// Reading an object survives a cut.
pub proof fn lemma_object_cut(s: Seq<char>, i: int, k: int)
    requires
        0 <= i <= k <= s.len(),
    ensures
        survives_cut(object(s, i), object(s.take(k), i), k),
    decreases s.len() - i, 1nat,
{
    let t = s.take(k);
    lemma_token_cut(s, i, k);
    if object(s, i) is Done {
        if let Outcome::Done { value: c, next } = token(t, i) {
            lemma_peeked_cut(s, next, k);
            if let Outcome::Done { value: d, next: j } = peeked(t, next) {
                if d != '}' {
                    lemma_members_cut(s, j, Map::empty(), k);
                }
            }
        }
    }
}

/// Reading the members of an object survives a cut.
pub proof fn lemma_members_cut(s: Seq<char>, i: int, acc: Map<Seq<char>, Value>, k: int)
    requires
        0 <= i <= k <= s.len(),
    ensures
        survives_cut(members(s, i, acc), members(s.take(k), i, acc), k),
    decreases s.len() - i, 3nat,
{
    let t = s.take(k);
    if members(s, i, acc) is Done {
        lemma_value_advances(s, i);
        lemma_value_cut(s, i, k);
        if let Outcome::Done { value: key, next: a } = value(t, i) {
            assert(forward(t, i, value(t, i)) == value(t, i));
            lemma_token_cut(s, a, k);
            if let Value::String(name) = key {
                if let Outcome::Done { value: c, next: b } = token(t, a) {
                    lemma_value_advances(s, b);
                    lemma_value_cut(s, b, k);
                    if let Outcome::Done { value: v, next: d } = value(t, b) {
                        assert(forward(t, b, value(t, b)) == value(t, b));
                        lemma_token_cut(s, d, k);
                        if let Outcome::Done { value: e, next } = token(t, d) {
                            if e == ',' {
                                lemma_members_cut(s, next, acc.insert(name, v), k);
                            }
                        }
                    }
                }
            }
        }
    }
}

/// Reading an array survives a cut.
pub proof fn lemma_array_cut(s: Seq<char>, i: int, k: int)
    requires
        0 <= i <= k <= s.len(),
    ensures
        survives_cut(array(s, i), array(s.take(k), i), k),
    decreases s.len() - i, 1nat,
{
    lemma_token_cut(s, i, k);
    if array(s, i) is Done {
        if let Outcome::Done { value: c, next } = token(s.take(k), i) {
            lemma_items_cut(s, next, Seq::empty(), k);
        }
    }
}

/// Reading the items of an array survives a cut.
pub proof fn lemma_items_cut(s: Seq<char>, i: int, acc: Seq<Value>, k: int)
    requires
        0 <= i <= k <= s.len(),
    ensures
        survives_cut(items(s, i, acc), items(s.take(k), i, acc), k),
    decreases s.len() - i, 3nat,
{
    let t = s.take(k);
    lemma_skip_cut(s, i, k);
    let j = skip_blanks(s, i);
    if items(s, i, acc) is Done && j < k {
        if s[j] == ',' {
            lemma_items_cut(s, j + 1, acc, k);
        } else if s[j] != ']' {
            lemma_value_advances(s, j);
            lemma_value_cut(s, j, k);
            if let Outcome::Done { value: item, next } = value(t, j) {
                assert(forward(t, j, value(t, j)) == value(t, j));
                lemma_items_cut(s, next, acc.push(item), k);
            }
        }
    }
}

/// A text that parses, cut anywhere before the end of its object, is
/// refused because it ends too early; the fault is reported at the cut.
pub proof fn lemma_cut_text_ends_early(s: Seq<char>, k: int)
    requires
        document(s) matches Outcome::Done { next, .. } && 0 <= k < next,
    ensures
        parse_result(s.take(k)) == Err::<Value, Report>(
            report(s.take(k), Fault::UnexpectedEnd, k),
        ),
{
    lemma_object_advances(s, 0);
    lemma_object_cut(s, 0, k);
}

} // verus!
