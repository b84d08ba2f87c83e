//! The canonical text of a tree, and the proof that parsing it gives the
//! tree back.

use vstd::prelude::*;
use crate::grammar::{
    blank_run, digits, digits_after, digits_onto, escape, exponent_part, forward, fraction_part,
    integer_part, matched, number, parse_result, peeked, sign_part, skip_blanks, string,
    string_chars, token, value, word, word_of, word_value, Outcome,
};
use crate::json::{
    exponent_text, fraction_text, items_literal_numbers, items_view, members_literal_numbers,
    members_map, members_view, sign_text, Exponent, JSON, Numeral, Value,
};
use crate::json_error::Report;
use crate::laws::lemma_member_read;
use crate::text::{all_digits, is_digit, is_whitespace};

verus! {

/// The text `w` stands in `s` from `i` on.
pub open spec fn has_at(s: Seq<char>, i: int, w: Seq<char>) -> bool {
    &&& 0 <= i
    &&& i + w.len() <= s.len()
    &&& forall|k: int| 0 <= k < w.len() ==> s[i + k] == #[trigger] w[k]
}

/// Where `a` and then `b` stand from `i` on, `a` stands at `i` and `b`
/// right after it.
pub proof fn lemma_has_at_split(s: Seq<char>, i: int, a: Seq<char>, b: Seq<char>)
    requires
        has_at(s, i, a + b),
    ensures
        has_at(s, i, a),
        has_at(s, i + a.len(), b),
{
    let w = a + b;
    assert forall|k: int| 0 <= k < a.len() implies s[i + k] == #[trigger] a[k] by {
        assert(w[k] == a[k]);
    }
    assert forall|k: int| 0 <= k < b.len() implies s[i + a.len() + k] == #[trigger] b[k] by {
        assert(w[a.len() + k] == b[k]);
    }
}

/// A character that is no whitespace is where skipping whitespace stops.
pub proof fn lemma_token_here(s: Seq<char>, i: int)
    requires
        0 <= i < s.len(),
        !is_whitespace(s[i]),
    ensures
        skip_blanks(s, i) == i,
        peeked(s, i) == (Outcome::Done { value: s[i], next: i }),
        token(s, i) == (Outcome::Done { value: s[i], next: i + 1 }),
{
    assert(blank_run(s, i) == 0);
}

/// How a character is written inside a string: a quote and a backslash
/// behind a backslash, anything else as it is.
pub open spec fn escape_of(c: char) -> Seq<char> {
    if c == '"' {
        seq!['\\', '"']
    } else if c == '\\' {
        seq!['\\', '\\']
    } else {
        seq![c]
    }
}

/// The characters of `t` as they are written inside a string.
pub open spec fn escaped(t: Seq<char>) -> Seq<char>
    decreases t.len(),
{
    if t.len() == 0 {
        Seq::empty()
    } else {
        escape_of(t[0]) + escaped(t.skip(1))
    }
}

/// The string literal for the text `t`.
pub open spec fn quoted(t: Seq<char>) -> Seq<char> {
    seq!['"'] + escaped(t) + seq!['"']
}

/// The escaped characters of `t` and a closing quote are read as `t`.
pub proof fn lemma_escaped_chars(s: Seq<char>, i: int, t: Seq<char>, acc: Seq<char>)
    requires
        has_at(s, i, escaped(t) + seq!['"']),
    ensures
        string_chars(s, i, acc) == (Outcome::Done {
            value: acc + t,
            next: i + escaped(t).len() + 1,
        }),
    decreases t.len(),
{
    let w = escaped(t) + seq!['"'];
    if t.len() == 0 {
        assert(w[0] == '"');
        assert(acc + t =~= acc);
    } else {
        let c = t[0];
        let rest = t.skip(1);
        let e = escape_of(c);
        let tail = escaped(rest) + seq!['"'];
        assert(w =~= e + tail);
        lemma_has_at_split(s, i, e, tail);
        assert(s[i + 0] == e[0]);
        if c == '"' || c == '\\' {
            assert(s[i + 1] == e[1]);
            assert(escape(s, i + 1) == (Outcome::Done { value: c, next: i + 2 }));
        }
        lemma_escaped_chars(s, i + e.len(), rest, acc.push(c));
        assert(acc.push(c) + rest =~= acc + t);
    }
}

/// A string literal is read as the text it was written for.
pub proof fn lemma_quoted(s: Seq<char>, i: int, t: Seq<char>)
    requires
        has_at(s, i, quoted(t)),
    ensures
        string(s, i) == (Outcome::Done { value: t, next: i + quoted(t).len() }),
        quoted(t).len() >= 2,
        quoted(t)[0] == '"',
{
    let body = escaped(t) + seq!['"'];
    assert(quoted(t) =~= seq!['"'] + body);
    lemma_has_at_split(s, i, seq!['"'], body);
    assert(s[i + 0] == seq!['"'][0]);
    lemma_token_here(s, i);
    lemma_escaped_chars(s, i + 1, t, Seq::empty());
    assert(Seq::<char>::empty() + t =~= t);
}

/// A literal word that stands in the text is matched to its end.
pub proof fn lemma_matched(s: Seq<char>, i: int, w: Seq<char>, k: nat)
    requires
        has_at(s, i, w),
        k <= w.len(),
    ensures
        matched(s, i, w, k) == w.len(),
    decreases w.len() - k,
{
    if k < w.len() {
        assert(s[i + k] == w[k as int]);
        lemma_matched(s, i, w, k + 1);
    }
}

/// A literal word that stands in the text is read as its value.
pub proof fn lemma_word(s: Seq<char>, i: int, c: char)
    requires
        word_of(c) is Some,
        has_at(s, i, word_of(c).unwrap()),
    ensures
        word(s, i, c) == (Outcome::Done {
            value: word_value(c),
            next: i + word_of(c).unwrap().len(),
        }),
{
    lemma_matched(s, i, word_of(c).unwrap(), 0);
}

/// There is a character at `i`, and it is no digit.
pub open spec fn ends_digits(s: Seq<char>, i: int) -> bool {
    0 <= i < s.len() && !is_digit(s[i])
}

/// There is a character at `i`, and it cannot belong to a number that ends
/// at `i`: whitespace, or anything else but a digit, a point and an
/// exponent marker.
pub open spec fn ends_number(s: Seq<char>, i: int) -> bool {
    0 <= i < s.len() && !is_digit(s[i]) && s[i] != '.' && s[i] != 'e' && s[i] != 'E'
}

/// Digits that stand in the text, with no digit right after them, are
/// read as one run.
pub proof fn lemma_digits_run(s: Seq<char>, i: int, run: Seq<char>, acc: Seq<char>)
    requires
        has_at(s, i, run),
        all_digits(run),
        ends_digits(s, i + run.len()),
    ensures
        digits_onto(s, i, acc) == (Outcome::Done {
            value: acc + run,
            next: i + run.len(),
        }),
    decreases run.len(),
{
    if run.len() == 0 {
        assert(acc + run =~= acc);
    } else {
        assert(s[i + 0] == run[0]);
        let rest = run.skip(1);
        assert forall|k: int| 0 <= k < rest.len() implies s[i + 1 + k] == #[trigger] rest[k] by {
            assert(run[k + 1] == rest[k]);
        }
        assert forall|k: int| 0 <= k < rest.len() implies is_digit(#[trigger] rest[k]) by {
            assert(run[k + 1] == rest[k]);
        }
        lemma_digits_run(s, i + 1, rest, acc.push(run[0]));
        assert(acc.push(run[0]) + rest =~= acc + run);
    }
}

/// At least one digit that stands in the text, with no digit right after
/// them, is a run that [`digits_after`] accepts.
pub proof fn lemma_digits_after_run(s: Seq<char>, i: int, run: Seq<char>, before: Seq<char>)
    requires
        has_at(s, i, run),
        all_digits(run),
        run.len() >= 1,
        ends_digits(s, i + run.len()),
    ensures
        digits_after(s, i, before) == (Outcome::Done {
            value: before + run,
            next: i + run.len(),
        }),
{
    lemma_digits_run(s, i, run, Seq::empty());
    assert(Seq::<char>::empty() + run =~= run);
}

/// The integer part of a number literal that stands in the text is read as
/// it is written.
pub proof fn lemma_integer_rendered(s: Seq<char>, i: int, integer: Seq<char>, before: Seq<char>)
    requires
        has_at(s, i, integer),
        integer.len() >= 1,
        all_digits(integer),
        integer[0] == '0' ==> integer.len() == 1,
        ends_digits(s, i + integer.len()),
    ensures
        integer_part(s, i, before) == (Outcome::Done {
            value: before + integer,
            next: i + integer.len(),
        }),
{
    assert(s[i + 0] == integer[0]);
    if integer[0] == '0' {
        assert(before.push('0') =~= before + integer);
    } else {
        lemma_digits_after_run(s, i, integer, before);
    }
}

/// The fraction of a number literal that stands in the text, or none where
/// the next character is no point, is read as it is written.
pub proof fn lemma_fraction_rendered(
    s: Seq<char>,
    i: int,
    fraction: Option<Seq<char>>,
    before: Seq<char>,
)
    requires
        has_at(s, i, fraction_text(fraction)),
        fraction matches Some(f) ==> f.len() >= 1 && all_digits(f),
        ends_digits(s, i + fraction_text(fraction).len()),
        fraction is None ==> s[i] != '.',
    ensures
        fraction_part(s, i, before) == (Outcome::Done {
            value: before + fraction_text(fraction),
            next: i + fraction_text(fraction).len(),
        }),
{
    match fraction {
        Some(f) => {
            lemma_has_at_split(s, i, seq!['.'], f);
            assert(s[i + 0] == seq!['.'][0]);
            lemma_digits_after_run(s, i + 1, f, before.push('.'));
            assert(before.push('.') + f =~= before + (seq!['.'] + f));
        },
        None => {
            assert(before + Seq::<char>::empty() =~= before);
        },
    }
}

/// The exponent of a number literal that stands in the text, or none where
/// the next character is no exponent marker, is read as it is written.
pub proof fn lemma_exponent_rendered(
    s: Seq<char>,
    i: int,
    exponent: Option<Exponent>,
    before: Seq<char>,
)
    requires
        has_at(s, i, exponent_text(exponent)),
        exponent matches Some(e) ==> e.valid(),
        ends_digits(s, i + exponent_text(exponent).len()),
        exponent is None ==> s[i] != 'e' && s[i] != 'E',
    ensures
        exponent_part(s, i, before) == (Outcome::Done {
            value: before + exponent_text(exponent),
            next: i + exponent_text(exponent).len(),
        }),
{
    match exponent {
        Some(e) => {
            let sign = match e.sign {
                Some(c) => seq![c],
                None => Seq::empty(),
            };
            assert(e.text() =~= seq![e.marker] + (sign + e.digits));
            lemma_has_at_split(s, i, seq![e.marker], sign + e.digits);
            lemma_has_at_split(s, i + 1, sign, e.digits);
            assert(s[i + 0] == seq![e.marker][0]);
            match e.sign {
                Some(c) => {
                    assert(s[i + 1 + 0] == sign[0]);
                    lemma_digits_after_run(s, i + 2, e.digits, before.push(e.marker).push(c));
                    assert(before.push(e.marker).push(c) + e.digits =~= before + e.text());
                },
                None => {
                    assert(s[i + 1 + 0] == e.digits[0]);
                    lemma_digits_after_run(s, i + 1, e.digits, before.push(e.marker));
                    assert(before.push(e.marker) + e.digits =~= before + e.text());
                },
            }
        },
        None => {
            assert(before + Seq::<char>::empty() =~= before);
        },
    }
}

/// Where the parts of a number literal stand, given where the literal
/// stands, and what character follows each part.
pub proof fn lemma_number_layout(s: Seq<char>, i: int, n: Numeral)
    requires
        n.valid(),
        has_at(s, i, n.text()),
        ends_number(s, i + n.text().len()),
    ensures
        ({
            let a = i + sign_text(n.negative).len();
            let b = a + n.integer.len();
            let c = b + fraction_text(n.fraction).len();
            &&& c + exponent_text(n.exponent).len() == i + n.text().len()
            &&& sign_part(s, i) == (Outcome::Done { value: sign_text(n.negative), next: a })
            &&& has_at(s, a, n.integer)
            &&& has_at(s, b, fraction_text(n.fraction))
            &&& has_at(s, c, exponent_text(n.exponent))
            &&& ends_digits(s, b)
            &&& ends_digits(s, c)
            &&& ends_digits(s, i + n.text().len())
            &&& n.fraction is None ==> s[b] != '.'
            &&& n.exponent is None ==> s[c] != 'e' && s[c] != 'E'
        }),
        n.text().len() >= 1,
        is_digit(n.text()[0]) || n.text()[0] == '-',
{
    let sign = sign_text(n.negative);
    let fraction = fraction_text(n.fraction);
    let exponent = exponent_text(n.exponent);
    assert(n.text() =~= sign + (n.integer + (fraction + exponent)));
    lemma_has_at_split(s, i, sign, n.integer + (fraction + exponent));
    let a = i + sign.len();
    lemma_has_at_split(s, a, n.integer, fraction + exponent);
    let b = a + n.integer.len();
    lemma_has_at_split(s, b, fraction, exponent);
    let c = b + fraction.len();
    assert(s[a + 0] == n.integer[0]);
    if n.negative {
        assert(s[i + 0] == sign[0]);
    }
    lemma_token_here(s, i);
    if let Some(e) = n.exponent {
        assert(exponent[0] == e.marker);
        assert(s[c + 0] == exponent[0]);
    }
    if n.fraction is Some {
        assert(fraction[0] == '.');
        assert(s[b + 0] == fraction[0]);
    }
}

/// A number literal that stands in the text, with a character after it
/// that cannot belong to it, is read as it is written.
pub proof fn lemma_number_rendered(s: Seq<char>, i: int, n: Numeral)
    requires
        n.valid(),
        has_at(s, i, n.text()),
        ends_number(s, i + n.text().len()),
    ensures
        number(s, i) == (Outcome::Done {
            value: n.text(),
            next: i + n.text().len(),
        }),
{
    let sign = sign_text(n.negative);
    let whole = sign + n.integer;
    let mantissa = whole + fraction_text(n.fraction);
    let a = i + sign.len();
    let b = a + n.integer.len();
    let c = b + fraction_text(n.fraction).len();
    lemma_number_layout(s, i, n);
    lemma_integer_rendered(s, a, n.integer, sign);
    lemma_fraction_rendered(s, b, n.fraction, whole);
    lemma_exponent_rendered(s, c, n.exponent, mantissa);
    assert(integer_part(s, a, sign) == (Outcome::Done { value: whole, next: b }));
    assert(fraction_part(s, b, whole) == (Outcome::Done {
        value: mantissa,
        next: c,
    }));
}

/// The canonical text of a tree in which every number is a number literal:
/// no whitespace, members and items parted by commas, the members in the
/// order of the list, and strings with no more escapes than they need.
pub open spec fn render(json: JSON) -> Seq<char>
    decreases json, 1nat,
{
    match json {
        JSON::Object(members) => seq!['{'] + members_text(members@, 0) + seq!['}'],
        JSON::Array(items) => seq!['['] + items_text(items@, 0) + seq![']'],
        JSON::String(text) => quoted(text@),
        JSON::Number(text) => text@,
        JSON::Bool(b) => if b {
            seq!['t', 'r', 'u', 'e']
        } else {
            seq!['f', 'a', 'l', 's', 'e']
        },
        JSON::Null => seq!['n', 'u', 'l', 'l'],
    }
}

/// The canonical text of the members from `from` on.
pub open spec fn members_text(members: Seq<(String, JSON)>, from: int) -> Seq<char>
    decreases members, members.len() - from,
{
    if 0 <= from < members.len() {
        quoted(members[from].0@) + seq![':'] + render(members[from].1) + (if from + 1
            < members.len() {
            seq![','] + members_text(members, from + 1)
        } else {
            Seq::empty()
        })
    } else {
        Seq::empty()
    }
}

/// The canonical text of the items from `from` on.
pub open spec fn items_text(items: Seq<JSON>, from: int) -> Seq<char>
    decreases items, items.len() - from,
{
    if 0 <= from < items.len() {
        render(items[from]) + (if from + 1 < items.len() {
            seq![','] + items_text(items, from + 1)
        } else {
            Seq::empty()
        })
    } else {
        Seq::empty()
    }
}

/// A character with which a value can start.
pub open spec fn starts_value(c: char) -> bool {
    is_digit(c) || c == '-' || c == '"' || c == '{' || c == '[' || c == 't' || c == 'f' || c
        == 'n'
}

/// The canonical text of a tree is not empty and starts as a value does.
pub proof fn lemma_render_start(json: JSON)
    requires
        json.literal_numbers(),
    ensures
        render(json).len() >= 1,
        starts_value(render(json)[0]),
{
    match json {
        JSON::Number(text) => {
            let n = choose|n: Numeral| n.valid() && #[trigger] n.text() == text@;
            assert(is_digit(n.integer[0]));
            assert(n.text() =~= sign_text(n.negative) + (n.integer + (fraction_text(n.fraction)
                + exponent_text(n.exponent))));
        },
        _ => {},
    }
}

/// The canonical text of a tree, standing in a text, is read as the value
/// of that tree. A number needs a character after it that cannot belong to
/// it.
pub proof fn lemma_value_rendered(s: Seq<char>, i: int, json: JSON)
    requires
        json.literal_numbers(),
        has_at(s, i, render(json)),
        json is Number ==> ends_number(s, i + render(json).len()),
    ensures
        value(s, i) == (Outcome::Done { value: json@, next: i + render(json).len() }),
        i < i + render(json).len() <= s.len(),
    decreases json, 1nat,
{
    lemma_render_start(json);
    let w = render(json);
    assert(s[i + 0] == w[0]);
    lemma_token_here(s, i);
    match json {
        JSON::Object(members) => {
            let inner = members_text(members@, 0) + seq!['}'];
            assert(w =~= seq!['{'] + inner);
            lemma_has_at_split(s, i, seq!['{'], inner);
            assert(s[i + 1 + 0] == inner[0]);
            if members@.len() == 0 {
                lemma_token_here(s, i + 1);
                assert(members_view(members@) =~= Seq::empty());
            } else {
                lemma_quoted_start(members@[0].0@);
                lemma_token_here(s, i + 1);
                assert(members_view(members@).take(0) =~= Seq::empty());
                lemma_members_rendered(s, i + 1, members@, 0, Map::empty());
            }
        },
        JSON::Array(items) => {
            let inner = items_text(items@, 0) + seq![']'];
            assert(w =~= seq!['['] + inner);
            lemma_has_at_split(s, i, seq!['['], inner);
            assert(items_view(items@).take(0) =~= Seq::empty());
            lemma_items_rendered(s, i + 1, items@, 0, Seq::empty());
        },
        JSON::String(text) => {
            lemma_quoted(s, i, text@);
        },
        JSON::Number(text) => {
            let n = choose|n: Numeral| n.valid() && #[trigger] n.text() == text@;
            lemma_number_rendered(s, i, n);
            lemma_number_layout(s, i, n);
        },
        JSON::Bool(b) => {
            lemma_word(s, i, w[0]);
        },
        JSON::Null => {
            lemma_word(s, i, 'n');
        },
    }
}

/// A string literal starts with a quote.
pub proof fn lemma_quoted_start(t: Seq<char>)
    ensures
        quoted(t).len() >= 2,
        quoted(t)[0] == '"',
{
    assert(quoted(t) =~= seq!['"'] + (escaped(t) + seq!['"']));
}

/// Where the parts of the member at `from` stand, given where the text of
/// the members from `from` on stands.
pub proof fn lemma_member_layout(
    s: Seq<char>,
    i: int,
    members: Seq<(String, JSON)>,
    from: int,
    close: char,
)
    requires
        0 <= from < members.len(),
        has_at(s, i, members_text(members, from) + seq![close]),
    ensures
        ({
            let a = i + quoted(members[from].0@).len();
            let d = a + 1 + render(members[from].1).len();
            &&& has_at(s, i, quoted(members[from].0@))
            &&& has_at(s, a, seq![':'])
            &&& has_at(s, a + 1, render(members[from].1))
            &&& d < s.len()
            &&& if from + 1 < members.len() {
                &&& s[d] == ','
                &&& has_at(s, d + 1, members_text(members, from + 1) + seq![close])
                &&& d + 1 + members_text(members, from + 1).len() == i + members_text(
                    members,
                    from,
                ).len()
            } else {
                &&& s[d] == close
                &&& d == i + members_text(members, from).len()
            }
        }),
{
    let key = members[from].0@;
    let child = members[from].1;
    let rest: Seq<char> = if from + 1 < members.len() {
        seq![','] + members_text(members, from + 1)
    } else {
        Seq::empty()
    };
    let after_value = rest + seq![close];
    let after_colon = render(child) + after_value;
    let after_key = seq![':'] + after_colon;
    assert(members_text(members, from) + seq![close] =~= quoted(key) + after_key);
    lemma_has_at_split(s, i, quoted(key), after_key);
    let a = i + quoted(key).len();
    lemma_has_at_split(s, a, seq![':'], after_colon);
    lemma_has_at_split(s, a + 1, render(child), after_value);
    let d = a + 1 + render(child).len();
    assert(s[d + 0] == after_value[0]);
    if from + 1 < members.len() {
        let tail = members_text(members, from + 1) + seq![close];
        assert(after_value =~= seq![','] + tail);
        lemma_has_at_split(s, d, seq![','], tail);
    }
}

/// The canonical text of the members from `from` on, and the closing brace,
/// are read as the object of all the members, given that `acc` holds the
/// members before `from`.
pub proof fn lemma_members_rendered(
    s: Seq<char>,
    i: int,
    members: Seq<(String, JSON)>,
    from: int,
    acc: Map<Seq<char>, Value>,
)
    requires
        members_literal_numbers(members),
        0 <= from < members.len(),
        has_at(s, i, members_text(members, from) + seq!['}']),
        acc == members_map(members_view(members).take(from)),
    ensures
        crate::grammar::members(s, i, acc) == (Outcome::Done {
            value: Value::Object(members_map(members_view(members))),
            next: i + members_text(members, from).len() + 1,
        }),
    decreases members, members.len() - from,
{
    let key = members[from].0@;
    let child = members[from].1;
    let view = members_view(members);
    let more = from + 1 < members.len();
    let a = i + quoted(key).len();
    let d = a + 1 + render(child).len();
    lemma_member_layout(s, i, members, from, '}');

    lemma_quoted(s, i, key);
    assert(s[i + 0] == quoted(key)[0]);
    lemma_token_here(s, i);
    assert(value(s, i) == (Outcome::Done { value: Value::String(key), next: a }));

    assert(s[a + 0] == seq![':'][0]);
    lemma_token_here(s, a);
    lemma_token_here(s, d);
    lemma_value_rendered(s, a + 1, child);
    lemma_member_read(s, i, acc, key, a, a + 1, child@, d, d + 1, more);

    let grown = acc.insert(key, child@);
    assert(view.take(from + 1).drop_last() =~= view.take(from));
    assert(view.take(from + 1).last() == (key, child@));
    assert(grown == members_map(view.take(from + 1)));
    if more {
        lemma_members_rendered(s, d + 1, members, from + 1, grown);
    } else {
        assert(view.take(from + 1) =~= view);
    }
}

/// Where the item at `from` stands, given where the text of the items from
/// `from` on stands.
pub proof fn lemma_item_layout(s: Seq<char>, i: int, items: Seq<JSON>, from: int)
    requires
        0 <= from < items.len(),
        has_at(s, i, items_text(items, from) + seq![']']),
    ensures
        ({
            let d = i + render(items[from]).len();
            &&& has_at(s, i, render(items[from]))
            &&& d < s.len()
            &&& if from + 1 < items.len() {
                &&& s[d] == ','
                &&& has_at(s, d + 1, items_text(items, from + 1) + seq![']'])
                &&& d + 1 + items_text(items, from + 1).len() == i + items_text(items, from).len()
            } else {
                &&& s[d] == ']'
                &&& has_at(s, d, items_text(items, from + 1) + seq![']'])
                &&& items_text(items, from + 1).len() == 0
                &&& d == i + items_text(items, from).len()
            }
        }),
{
    let child = items[from];
    let rest: Seq<char> = if from + 1 < items.len() {
        seq![','] + items_text(items, from + 1)
    } else {
        Seq::empty()
    };
    let after_value = rest + seq![']'];
    assert(items_text(items, from) + seq![']'] =~= render(child) + after_value);
    lemma_has_at_split(s, i, render(child), after_value);
    let d = i + render(child).len();
    assert(s[d + 0] == after_value[0]);
    if from + 1 < items.len() {
        let tail = items_text(items, from + 1) + seq![']'];
        assert(after_value =~= seq![','] + tail);
        lemma_has_at_split(s, d, seq![','], tail);
    } else {
        assert(items_text(items, from + 1) =~= Seq::empty());
        assert(after_value =~= items_text(items, from + 1) + seq![']']);
    }
}

/// One item read, and the comma after it where there is one.
pub proof fn lemma_items_step(
    s: Seq<char>,
    i: int,
    acc: Seq<Value>,
    child: Value,
    d: int,
    more: bool,
)
    requires
        0 <= i < s.len(),
        !is_whitespace(s[i]),
        s[i] != ',',
        s[i] != ']',
        value(s, i) == (Outcome::Done { value: child, next: d }),
        i < d < s.len(),
        more ==> s[d] == ',',
    ensures
        crate::grammar::items(s, i, acc) == crate::grammar::items(
            s,
            if more {
                d + 1
            } else {
                d
            },
            acc.push(child),
        ),
{
    lemma_token_here(s, i);
    assert(forward(s, i, value(s, i)) == value(s, i));
    assert(crate::grammar::items(s, i, acc) == crate::grammar::items(s, d, acc.push(child)));
    if more {
        lemma_token_here(s, d);
    }
}

/// The canonical text of the items from `from` on, and the closing bracket,
/// are read as the array of all the items, given that `acc` holds the items
/// before `from`.
pub proof fn lemma_items_rendered(
    s: Seq<char>,
    i: int,
    items: Seq<JSON>,
    from: int,
    acc: Seq<Value>,
)
    requires
        items_literal_numbers(items),
        0 <= from <= items.len(),
        has_at(s, i, items_text(items, from) + seq![']']),
        acc == items_view(items).take(from),
    ensures
        crate::grammar::items(s, i, acc) == (Outcome::Done {
            value: Value::Array(items_view(items)),
            next: i + items_text(items, from).len() + 1,
        }),
    decreases items, items.len() - from,
{
    let view = items_view(items);
    if from == items.len() {
        assert(s[i + 0] == (items_text(items, from) + seq![']'])[0]);
        lemma_token_here(s, i);
        assert(view.take(from) =~= view);
    } else {
        let child = items[from];
        let more = from + 1 < items.len();
        let d = i + render(child).len();
        lemma_item_layout(s, i, items, from);
        lemma_render_start(child);
        assert(s[i + 0] == render(child)[0]);
        lemma_token_here(s, d);
        lemma_value_rendered(s, i, child);
        lemma_items_step(s, i, acc, child@, d, more);
        let grown = acc.push(child@);
        assert(grown =~= view.take(from + 1));
        lemma_items_rendered(
            s,
            if more {
                d + 1
            } else {
                d
            },
            items,
            from + 1,
            grown,
        );
    }
}

/// Parsing the canonical text of an object gives the value of that object.
/// Where the object has a key more than once, that is the mapping in which
/// the last member with the key decides.
pub proof fn lemma_parse_rendered(json: JSON)
    requires
        json.literal_numbers(),
        json is Object,
    ensures
        parse_result(render(json)) == Ok::<Value, Report>(json@),
{
    let s = render(json);
    lemma_value_rendered(s, 0, json);
    assert(s[0] == '{');
    lemma_token_here(s, 0);
}

/// Parsing the canonical text of a well-formed object gives the value of
/// that object.
pub proof fn lemma_parse_rendered_wf(json: JSON)
    requires
        json.wf(),
        json is Object,
    ensures
        parse_result(render(json)) == Ok::<Value, Report>(json@),
{
    json.lemma_wf_literal_numbers();
    lemma_parse_rendered(json);
}

} // verus!
