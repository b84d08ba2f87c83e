//! The texts of JSON, with the whitespace and the escapes they are written
//! with, and the proof that each of them is read as the value it denotes.

use vstd::prelude::*;
use crate::canonical::{
    ends_number, has_at, lemma_has_at_split, lemma_number_rendered, lemma_token_here, lemma_word,
    starts_value,
};
use crate::grammar::{
    blank_run, code_unit, escape, forward, hex_at, items, members, parse_result, skip_blanks,
    string, string_chars, token, value, Outcome,
};
use crate::json::{exponent_text, fraction_text, members_map, sign_text, Numeral, Value};
use crate::json_error::Report;
use crate::laws::lemma_member_read;
use crate::text::{hex_value, is_digit, is_scalar_value, is_whitespace};

verus! {

/// Every character of `w` is whitespace.
pub open spec fn blanks(w: Seq<char>) -> bool {
    forall|k: int| 0 <= k < w.len() ==> is_whitespace(#[trigger] w[k])
}

/// Whitespace that stands in the text before a character that is none is
/// skipped as a whole.
pub proof fn lemma_skip_run(s: Seq<char>, i: int, w: Seq<char>)
    requires
        has_at(s, i, w),
        blanks(w),
        i + w.len() < s.len(),
        !is_whitespace(s[i + w.len()]),
    ensures
        skip_blanks(s, i) == i + w.len(),
    decreases w.len(),
{
    if w.len() == 0 {
        assert(blank_run(s, i) == 0);
    } else {
        assert(s[i + 0] == w[0]);
        let rest = w.skip(1);
        assert forall|k: int| 0 <= k < rest.len() implies s[i + 1 + k] == #[trigger] rest[k] by {
            assert(w[k + 1] == rest[k]);
        }
        assert forall|k: int| 0 <= k < rest.len() implies is_whitespace(#[trigger] rest[k]) by {
            assert(w[k + 1] == rest[k]);
        }
        lemma_skip_run(s, i + 1, rest);
    }
}

/// One character of a string, as it is written.
pub enum Piece {
    /// A character that stands for itself.
    Plain(char),
    /// A backslash and this letter.
    Escaped(char),
    /// A backslash, `u`, and these four hexadecimal digits.
    Coded(char, char, char, char),
}

/// The code point that four hexadecimal digits give, the most significant
/// first; zero where one of them is no such digit.
pub open spec fn code_of(a: char, b: char, c: char, d: char) -> nat {
    match (hex_value(a), hex_value(b), hex_value(c), hex_value(d)) {
        (Some(h3), Some(h2), Some(h1), Some(h0)) => 4096 * h3 + 256 * h2 + 16 * h1 + h0,
        _ => 0,
    }
}

impl Piece {
    /// The piece is one that the grammar of strings allows: no bare quote
    /// or backslash, a known escape letter, or four hexadecimal digits that
    /// give a character.
    pub open spec fn valid(self) -> bool {
        match self {
            Piece::Plain(c) => c != '"' && c != '\\',
            Piece::Escaped(c) => c == '"' || c == '\\' || c == '/' || c == 'b' || c == 'f' || c
                == 'n' || c == 'r' || c == 't',
            Piece::Coded(a, b, c, d) => {
                &&& hex_value(a) is Some
                &&& hex_value(b) is Some
                &&& hex_value(c) is Some
                &&& hex_value(d) is Some
                &&& is_scalar_value(code_of(a, b, c, d))
            },
        }
    }

    /// The piece as it is written.
    pub open spec fn text(self) -> Seq<char> {
        match self {
            Piece::Plain(c) => seq![c],
            Piece::Escaped(c) => seq!['\\', c],
            Piece::Coded(a, b, c, d) => seq!['\\', 'u', a, b, c, d],
        }
    }

    /// The character that the piece stands for.
    pub open spec fn decoded(self) -> char {
        match self {
            Piece::Plain(c) => c,
            Piece::Escaped(c) => if c == 'b' {
                '\u{8}'
            } else if c == 'f' {
                '\u{c}'
            } else if c == 'n' {
                '\n'
            } else if c == 'r' {
                '\r'
            } else if c == 't' {
                '\t'
            } else {
                c
            },
            Piece::Coded(a, b, c, d) => code_of(a, b, c, d) as char,
        }
    }
}

/// Every one of `pieces` is valid.
pub open spec fn pieces_valid(pieces: Seq<Piece>) -> bool {
    forall|k: int| 0 <= k < pieces.len() ==> (#[trigger] pieces[k]).valid()
}

/// The pieces as they are written, one after the other.
pub open spec fn pieces_text(pieces: Seq<Piece>) -> Seq<char>
    decreases pieces.len(),
{
    if pieces.len() == 0 {
        Seq::empty()
    } else {
        pieces[0].text() + pieces_text(pieces.skip(1))
    }
}

/// The characters that the pieces stand for.
pub open spec fn pieces_decoded(pieces: Seq<Piece>) -> Seq<char>
    decreases pieces.len(),
{
    if pieces.len() == 0 {
        Seq::empty()
    } else {
        seq![pieces[0].decoded()] + pieces_decoded(pieces.skip(1))
    }
}

/// The string literal made of `pieces`.
pub open spec fn string_text(pieces: Seq<Piece>) -> Seq<char> {
    seq!['"'] + pieces_text(pieces) + seq!['"']
}

/// A piece that stands in the text is read as the character it stands for.
pub proof fn lemma_piece(s: Seq<char>, i: int, piece: Piece, acc: Seq<char>)
    requires
        piece.valid(),
        has_at(s, i, piece.text()),
    ensures
        string_chars(s, i, acc) == string_chars(
            s,
            i + piece.text().len(),
            acc.push(piece.decoded()),
        ),
{
    let w = piece.text();
    assert(s[i + 0] == w[0]);
    match piece {
        Piece::Plain(c) => {},
        Piece::Escaped(c) => {
            assert(s[i + 1] == w[1]);
            assert(escape(s, i + 1) == (Outcome::Done { value: piece.decoded(), next: i + 2 }));
        },
        Piece::Coded(a, b, c, d) => {
            assert(s[i + 1] == w[1]);
            assert(s[i + 2] == w[2]);
            assert(s[i + 3] == w[3]);
            assert(s[i + 4] == w[4]);
            assert(s[i + 5] == w[5]);
            assert(hex_at(s, i + 2) == (Outcome::Done {
                value: hex_value(a).unwrap(),
                next: i + 3,
            }));
            assert(hex_at(s, i + 3) == (Outcome::Done {
                value: hex_value(b).unwrap(),
                next: i + 4,
            }));
            assert(hex_at(s, i + 4) == (Outcome::Done {
                value: hex_value(c).unwrap(),
                next: i + 5,
            }));
            assert(hex_at(s, i + 5) == (Outcome::Done {
                value: hex_value(d).unwrap(),
                next: i + 6,
            }));
            assert(code_unit(s, i + 2) == (Outcome::Done {
                value: code_of(a, b, c, d),
                next: i + 6,
            }));
            assert(escape(s, i + 1) == (Outcome::Done { value: piece.decoded(), next: i + 6 }));
        },
    }
}

/// The pieces of a string and the closing quote are read as the characters
/// that the pieces stand for.
pub proof fn lemma_pieces(s: Seq<char>, i: int, pieces: Seq<Piece>, acc: Seq<char>)
    requires
        pieces_valid(pieces),
        has_at(s, i, pieces_text(pieces) + seq!['"']),
    ensures
        string_chars(s, i, acc) == (Outcome::Done {
            value: acc + pieces_decoded(pieces),
            next: i + pieces_text(pieces).len() + 1,
        }),
    decreases pieces.len(),
{
    let w = pieces_text(pieces) + seq!['"'];
    if pieces.len() == 0 {
        assert(w[0] == '"');
        assert(acc + pieces_decoded(pieces) =~= acc);
    } else {
        let first = pieces[0];
        let rest = pieces.skip(1);
        let tail = pieces_text(rest) + seq!['"'];
        assert(w =~= first.text() + tail);
        lemma_has_at_split(s, i, first.text(), tail);
        lemma_piece(s, i, first, acc);
        assert forall|k: int| 0 <= k < rest.len() implies (#[trigger] rest[k]).valid() by {
            assert(pieces[k + 1] == rest[k]);
        }
        lemma_pieces(s, i + first.text().len(), rest, acc.push(first.decoded()));
        assert(acc.push(first.decoded()) + pieces_decoded(rest) =~= acc + pieces_decoded(pieces));
    }
}

/// A string literal that stands in the text is read as the characters that
/// its pieces stand for.
pub proof fn lemma_string_text(s: Seq<char>, i: int, pieces: Seq<Piece>)
    requires
        pieces_valid(pieces),
        has_at(s, i, string_text(pieces)),
    ensures
        string(s, i) == (Outcome::Done {
            value: pieces_decoded(pieces),
            next: i + string_text(pieces).len(),
        }),
        string_text(pieces).len() >= 2,
        string_text(pieces)[0] == '"',
{
    let body = pieces_text(pieces) + seq!['"'];
    assert(string_text(pieces) =~= seq!['"'] + body);
    lemma_has_at_split(s, i, seq!['"'], body);
    assert(s[i + 0] == seq!['"'][0]);
    lemma_token_here(s, i);
    lemma_pieces(s, i + 1, pieces, Seq::empty());
    assert(Seq::<char>::empty() + pieces_decoded(pieces) =~= pieces_decoded(pieces));
}

/// A JSON text with all that it is written with: the whitespace around its
/// tokens and the pieces of its strings.
pub enum Syntax {
    /// An object: its members, and the whitespace between its braces where
    /// it has no member.
    Object { members: Seq<Member>, hollow: Seq<char> },
    /// An array: its elements, and the whitespace between its brackets
    /// where it has no element.
    Array { elements: Seq<Element>, hollow: Seq<char> },
    /// A string.
    String { pieces: Seq<Piece> },
    /// A number.
    Number { numeral: Numeral },
    /// `true` or `false`.
    Bool { truth: bool },
    /// `null`.
    Null,
}

/// A value with the whitespace before and after it.
pub struct Element {
    /// The whitespace before the value.
    pub lead: Seq<char>,
    /// The value.
    pub value: Syntax,
    /// The whitespace after the value.
    pub trail: Seq<char>,
}

/// A member of an object: the key, the colon and the value, with the
/// whitespace around them.
pub struct Member {
    /// The whitespace before the key.
    pub lead: Seq<char>,
    /// The pieces of the key.
    pub key: Seq<Piece>,
    /// The whitespace between the key and the colon.
    pub gap: Seq<char>,
    /// The value, with the whitespace around it.
    pub element: Element,
}

/// The element as it is written.
pub open spec fn element_text(e: Element) -> Seq<char>
    decreases e, 0nat,
{
    e.lead + e.value.text() + e.trail
}

/// The whitespace of the element is whitespace, and its value is valid.
pub open spec fn element_valid(e: Element) -> bool
    decreases e, 0nat,
{
    blanks(e.lead) && e.value.valid() && blanks(e.trail)
}

/// The member as it is written.
pub open spec fn member_text(m: Member) -> Seq<char>
    decreases m, 0nat,
{
    m.lead + string_text(m.key) + m.gap + seq![':'] + element_text(m.element)
}

/// The whitespace of the member is whitespace, and its key and value are
/// valid.
pub open spec fn member_valid(m: Member) -> bool
    decreases m, 0nat,
{
    blanks(m.lead) && pieces_valid(m.key) && blanks(m.gap) && element_valid(m.element)
}

/// The members from `from` on as they are written, with commas between
/// them.
pub open spec fn members_text(members: Seq<Member>, from: int) -> Seq<char>
    decreases members, members.len() - from,
{
    if 0 <= from < members.len() {
        member_text(members[from]) + (if from + 1 < members.len() {
            seq![','] + members_text(members, from + 1)
        } else {
            Seq::empty()
        })
    } else {
        Seq::empty()
    }
}

/// The elements from `from` on as they are written, with commas between
/// them.
pub open spec fn elements_text(elements: Seq<Element>, from: int) -> Seq<char>
    decreases elements, elements.len() - from,
{
    if 0 <= from < elements.len() {
        element_text(elements[from]) + (if from + 1 < elements.len() {
            seq![','] + elements_text(elements, from + 1)
        } else {
            Seq::empty()
        })
    } else {
        Seq::empty()
    }
}

/// Every one of `members` is valid.
pub open spec fn members_valid(members: Seq<Member>) -> bool
    decreases members, 1nat,
{
    forall|k: int| 0 <= k < members.len() ==> member_valid(#[trigger] members[k])
}

/// Every one of `elements` is valid.
pub open spec fn elements_valid(elements: Seq<Element>) -> bool
    decreases elements, 1nat,
{
    forall|k: int| 0 <= k < elements.len() ==> element_valid(#[trigger] elements[k])
}

/// The keys and values that `members` denote, in their order.
pub open spec fn members_meaning(members: Seq<Member>) -> Seq<(Seq<char>, Value)>
    decreases members, 1nat,
{
    Seq::new(
        members.len(),
        |k: int|
            if 0 <= k < members.len() {
                (pieces_decoded(members[k].key), members[k].element.value.meaning())
            } else {
                (Seq::empty(), Value::Null)
            },
    )
}

/// The values that `elements` denote, in their order.
pub open spec fn elements_meaning(elements: Seq<Element>) -> Seq<Value>
    decreases elements, 1nat,
{
    Seq::new(
        elements.len(),
        |k: int|
            if 0 <= k < elements.len() {
                elements[k].value.meaning()
            } else {
                Value::Null
            },
    )
}

impl Syntax {
    /// The text as it is written.
    pub open spec fn text(self) -> Seq<char>
        decreases self, 0nat,
    {
        match self {
            Syntax::Object { members, hollow } => seq!['{'] + (if members.len() == 0 {
                hollow
            } else {
                members_text(members, 0)
            }) + seq!['}'],
            Syntax::Array { elements, hollow } => seq!['['] + (if elements.len() == 0 {
                hollow
            } else {
                elements_text(elements, 0)
            }) + seq![']'],
            Syntax::String { pieces } => string_text(pieces),
            Syntax::Number { numeral } => numeral.text(),
            Syntax::Bool { truth } => if truth {
                seq!['t', 'r', 'u', 'e']
            } else {
                seq!['f', 'a', 'l', 's', 'e']
            },
            Syntax::Null => seq!['n', 'u', 'l', 'l'],
        }
    }

    /// The text follows the grammar of JSON: whitespace is whitespace, the
    /// strings are made of valid pieces, and the numbers are number
    /// literals.
    pub open spec fn valid(self) -> bool
        decreases self, 0nat,
    {
        match self {
            Syntax::Object { members, hollow } => blanks(hollow) && members_valid(members),
            Syntax::Array { elements, hollow } => blanks(hollow) && elements_valid(elements),
            Syntax::String { pieces } => pieces_valid(pieces),
            Syntax::Number { numeral } => numeral.valid(),
            _ => true,
        }
    }

    /// The value that the text denotes. Where an object has a key more than
    /// once, the last member with the key decides.
    pub open spec fn meaning(self) -> Value
        decreases self, 0nat,
    {
        match self {
            Syntax::Object { members, hollow } => Value::Object(
                members_map(members_meaning(members)),
            ),
            Syntax::Array { elements, hollow } => Value::Array(elements_meaning(elements)),
            Syntax::String { pieces } => Value::String(pieces_decoded(pieces)),
            Syntax::Number { numeral } => Value::Number(numeral.text()),
            Syntax::Bool { truth } => Value::Bool(truth),
            Syntax::Null => Value::Null,
        }
    }
}

/// A character that can follow an element: a comma or a closing bracket or
/// brace.
pub open spec fn closes(c: char) -> bool {
    c == ',' || c == ']' || c == '}'
}

/// A valid text is not empty and starts as a value does.
pub proof fn lemma_syntax_start(x: Syntax)
    requires
        x.valid(),
    ensures
        x.text().len() >= 1,
        starts_value(x.text()[0]),
{
    match x {
        Syntax::Number { numeral } => {
            assert(is_digit(numeral.integer[0]));
            assert(numeral.text() =~= sign_text(numeral.negative) + (numeral.integer + (
            fraction_text(numeral.fraction) + exponent_text(numeral.exponent))));
        },
        Syntax::String { pieces } => {
            assert(string_text(pieces) =~= seq!['"'] + (pieces_text(pieces) + seq!['"']));
        },
        _ => {},
    }
}

/// A valid text that stands in `s` from `i` on is read as the value it
/// denotes. A number needs a character after it that cannot belong to it.
pub proof fn lemma_value_syntax(s: Seq<char>, i: int, x: Syntax)
    requires
        x.valid(),
        has_at(s, i, x.text()),
        x is Number ==> ends_number(s, i + x.text().len()),
    ensures
        value(s, i) == (Outcome::Done { value: x.meaning(), next: i + x.text().len() }),
        i < i + x.text().len() <= s.len(),
    decreases x, 0nat,
{
    lemma_syntax_start(x);
    let w = x.text();
    assert(s[i + 0] == w[0]);
    lemma_token_here(s, i);
    match x {
        Syntax::Object { members, hollow } => {
            let inner = if members.len() == 0 {
                hollow
            } else {
                members_text(members, 0)
            };
            let rest = inner + seq!['}'];
            assert(w =~= seq!['{'] + rest);
            lemma_has_at_split(s, i, seq!['{'], rest);
            if members.len() == 0 {
                lemma_has_at_split(s, i + 1, hollow, seq!['}']);
                assert(s[i + 1 + hollow.len() + 0] == seq!['}'][0]);
                lemma_skip_run(s, i + 1, hollow);
                assert(members_meaning(members) =~= Seq::empty());
            } else {
                assert(members_meaning(members).take(0) =~= Seq::empty());
                lemma_members_syntax(s, i + 1, members, 0, Map::empty());
            }
        },
        Syntax::Array { elements, hollow } => {
            let inner = if elements.len() == 0 {
                hollow
            } else {
                elements_text(elements, 0)
            };
            let rest = inner + seq![']'];
            assert(w =~= seq!['['] + rest);
            lemma_has_at_split(s, i, seq!['['], rest);
            if elements.len() == 0 {
                lemma_has_at_split(s, i + 1, hollow, seq![']']);
                assert(s[i + 1 + hollow.len() + 0] == seq![']'][0]);
                lemma_skip_run(s, i + 1, hollow);
                assert(elements_meaning(elements) =~= Seq::empty());
            } else {
                assert(elements_meaning(elements).take(0) =~= Seq::empty());
                lemma_items_syntax(s, i + 1, elements, 0, Seq::empty());
            }
        },
        Syntax::String { pieces } => {
            lemma_string_text(s, i, pieces);
        },
        Syntax::Number { numeral } => {
            lemma_number_rendered(s, i, numeral);
        },
        Syntax::Bool { truth } => {
            lemma_word(s, i, w[0]);
        },
        Syntax::Null => {
            lemma_word(s, i, 'n');
        },
    }
}

/// A valid element that stands in `s` from `i` on, with a comma or a
/// closing bracket or brace behind it, is read as the value it denotes, and
/// the next token is the one behind the element.
pub proof fn lemma_element(s: Seq<char>, i: int, e: Element)
    requires
        element_valid(e),
        has_at(s, i, element_text(e)),
        i + element_text(e).len() < s.len(),
        closes(s[i + element_text(e).len()]),
    ensures
        skip_blanks(s, i) == i + e.lead.len(),
        starts_value(s[skip_blanks(s, i)]),
        value(s, skip_blanks(s, i)) == value(s, i),
        value(s, i) matches Outcome::Done { value: v, next } && v == e.value.meaning()
            && skip_blanks(s, i) < next <= i + element_text(e).len() && skip_blanks(s, next) == i
            + element_text(e).len(),
    decreases e, 0nat,
{
    let w = e.value.text();
    assert(element_text(e) =~= e.lead + (w + e.trail));
    lemma_has_at_split(s, i, e.lead, w + e.trail);
    let j = i + e.lead.len();
    lemma_has_at_split(s, j, w, e.trail);
    let p = j + w.len();
    let q = p + e.trail.len();
    lemma_syntax_start(e.value);
    assert(s[j + 0] == w[0]);
    lemma_skip_run(s, i, e.lead);
    lemma_skip_run(s, p, e.trail);
    lemma_token_here(s, j);
    lemma_token_here(s, q);
    if e.trail.len() > 0 {
        assert(s[p + 0] == e.trail[0]);
    }
    lemma_value_syntax(s, j, e.value);
    assert(value(s, i) == value(s, j));
}

/// Where the parts of the member at `from` stand, given where the text of
/// the members from `from` on stands.
pub proof fn lemma_member_layout(s: Seq<char>, i: int, ms: Seq<Member>, from: int)
    requires
        0 <= from < ms.len(),
        has_at(s, i, members_text(ms, from) + seq!['}']),
    ensures
        ({
            let m = ms[from];
            let j = i + m.lead.len();
            let a = j + string_text(m.key).len();
            let c = a + m.gap.len();
            let q = c + 1 + element_text(m.element).len();
            &&& has_at(s, i, m.lead)
            &&& has_at(s, j, string_text(m.key))
            &&& has_at(s, a, m.gap)
            &&& c < s.len()
            &&& s[c] == ':'
            &&& has_at(s, c + 1, element_text(m.element))
            &&& q < s.len()
            &&& if from + 1 < ms.len() {
                &&& s[q] == ','
                &&& has_at(s, q + 1, members_text(ms, from + 1) + seq!['}'])
                &&& q + 1 + members_text(ms, from + 1).len() == i + members_text(ms, from).len()
            } else {
                &&& s[q] == '}'
                &&& q == i + members_text(ms, from).len()
            }
        }),
{
    let m = ms[from];
    let rest: Seq<char> = if from + 1 < ms.len() {
        seq![','] + members_text(ms, from + 1)
    } else {
        Seq::empty()
    };
    let after_value = rest + seq!['}'];
    let after_colon = element_text(m.element) + after_value;
    let after_gap = seq![':'] + after_colon;
    let after_key = m.gap + after_gap;
    let after_lead = string_text(m.key) + after_key;
    assert(members_text(ms, from) == member_text(m) + rest);
    assert(member_text(m) =~= m.lead + (string_text(m.key) + (m.gap + (seq![':'] + element_text(
        m.element,
    )))));
    assert(member_text(m) + rest + seq!['}'] =~= m.lead + after_lead);
    lemma_has_at_split(s, i, m.lead, after_lead);
    let j = i + m.lead.len();
    lemma_has_at_split(s, j, string_text(m.key), after_key);
    let a = j + string_text(m.key).len();
    lemma_has_at_split(s, a, m.gap, after_gap);
    let c = a + m.gap.len();
    lemma_has_at_split(s, c, seq![':'], after_colon);
    assert(s[c + 0] == seq![':'][0]);
    lemma_has_at_split(s, c + 1, element_text(m.element), after_value);
    let q = c + 1 + element_text(m.element).len();
    assert(s[q + 0] == after_value[0]);
    if from + 1 < ms.len() {
        let tail = members_text(ms, from + 1) + seq!['}'];
        assert(after_value =~= seq![','] + tail);
        lemma_has_at_split(s, q, seq![','], tail);
    }
}

/// The key of a member and the colon behind it, standing in the text, are
/// read as a string and a colon.
pub proof fn lemma_member_key(s: Seq<char>, i: int, m: Member)
    requires
        blanks(m.lead),
        pieces_valid(m.key),
        blanks(m.gap),
        has_at(s, i, m.lead),
        has_at(s, i + m.lead.len(), string_text(m.key)),
        has_at(s, i + m.lead.len() + string_text(m.key).len(), m.gap),
        i + m.lead.len() + string_text(m.key).len() + m.gap.len() < s.len(),
        s[i + m.lead.len() + string_text(m.key).len() + m.gap.len()] == ':',
    ensures
        ({
            let j = i + m.lead.len();
            let a = j + string_text(m.key).len();
            let c = a + m.gap.len();
            &&& skip_blanks(s, i) == j
            &&& s[j] == '"'
            &&& j < a <= s.len()
            &&& value(s, j) == (Outcome::Done {
                value: Value::String(pieces_decoded(m.key)),
                next: a,
            })
            &&& value(s, i) == value(s, j)
            &&& token(s, a) == (Outcome::Done { value: ':', next: c + 1 })
        }),
{
    let j = i + m.lead.len();
    let a = j + string_text(m.key).len();
    lemma_string_text(s, j, m.key);
    assert(s[j + 0] == string_text(m.key)[0]);
    lemma_skip_run(s, i, m.lead);
    lemma_token_here(s, j);
    lemma_skip_run(s, a, m.gap);
}

/// The valid members from `from` on and the closing brace, standing in `s`
/// from `i` on, are read as the object of all the members, given that `acc`
/// holds the members before `from`.
pub proof fn lemma_members_syntax(
    s: Seq<char>,
    i: int,
    ms: Seq<Member>,
    from: int,
    acc: Map<Seq<char>, Value>,
)
    requires
        members_valid(ms),
        0 <= from < ms.len(),
        has_at(s, i, members_text(ms, from) + seq!['}']),
        acc == members_map(members_meaning(ms).take(from)),
    ensures
        members(s, i, acc) == (Outcome::Done {
            value: Value::Object(members_map(members_meaning(ms))),
            next: i + members_text(ms, from).len() + 1,
        }),
        members(s, skip_blanks(s, i), acc) == members(s, i, acc),
        0 <= skip_blanks(s, i) < s.len(),
        s[skip_blanks(s, i)] == '"',
    decreases ms, ms.len() - from,
{
    let m = ms[from];
    let key = pieces_decoded(m.key);
    let child = m.element.value.meaning();
    let view = members_meaning(ms);
    let more = from + 1 < ms.len();
    let j = i + m.lead.len();
    let a = j + string_text(m.key).len();
    let b = a + m.gap.len() + 1;
    let q = b + element_text(m.element).len();
    assert(member_valid(m));
    lemma_member_layout(s, i, ms, from);
    lemma_member_key(s, i, m);
    lemma_element(s, b, m.element);
    let d = value(s, b)->Done_next;
    lemma_token_here(s, q);
    lemma_member_read(s, i, acc, key, a, b, child, d, q + 1, more);
    lemma_member_read(s, j, acc, key, a, b, child, d, q + 1, more);

    let grown = acc.insert(key, child);
    assert(view.take(from + 1).drop_last() =~= view.take(from));
    assert(view.take(from + 1).last() == (key, child));
    if more {
        lemma_members_syntax(s, q + 1, ms, from + 1, grown);
    } else {
        assert(view.take(from + 1) =~= view);
    }
}

/// Where the element at `from` stands, given where the text of the elements
/// from `from` on stands.
pub proof fn lemma_element_layout(s: Seq<char>, i: int, es: Seq<Element>, from: int)
    requires
        0 <= from < es.len(),
        has_at(s, i, elements_text(es, from) + seq![']']),
    ensures
        ({
            let q = i + element_text(es[from]).len();
            &&& has_at(s, i, element_text(es[from]))
            &&& q < s.len()
            &&& if from + 1 < es.len() {
                &&& s[q] == ','
                &&& has_at(s, q + 1, elements_text(es, from + 1) + seq![']'])
                &&& q + 1 + elements_text(es, from + 1).len() == i + elements_text(es, from).len()
            } else {
                &&& s[q] == ']'
                &&& q == i + elements_text(es, from).len()
            }
        }),
{
    let e = es[from];
    let rest: Seq<char> = if from + 1 < es.len() {
        seq![','] + elements_text(es, from + 1)
    } else {
        Seq::empty()
    };
    let after_value = rest + seq![']'];
    assert(elements_text(es, from) + seq![']'] =~= element_text(e) + after_value);
    lemma_has_at_split(s, i, element_text(e), after_value);
    let q = i + element_text(e).len();
    assert(s[q + 0] == after_value[0]);
    if from + 1 < es.len() {
        let tail = elements_text(es, from + 1) + seq![']'];
        assert(after_value =~= seq![','] + tail);
        lemma_has_at_split(s, q, seq![','], tail);
    }
}

/// One element read, and then `]` or `,`.
pub proof fn lemma_element_read(
    s: Seq<char>,
    i: int,
    acc: Seq<Value>,
    child: Value,
    d: int,
    q: int,
    more: bool,
)
    requires
        0 <= skip_blanks(s, i) < s.len(),
        starts_value(s[skip_blanks(s, i)]),
        value(s, skip_blanks(s, i)) == (Outcome::Done { value: child, next: d }),
        skip_blanks(s, i) < d <= s.len(),
        skip_blanks(s, d) == q,
        0 <= q < s.len(),
        s[q] == if more {
            ','
        } else {
            ']'
        },
    ensures
        items(s, i, acc) == (if more {
            items(s, q + 1, acc.push(child))
        } else {
            Outcome::Done { value: Value::Array(acc.push(child)), next: q + 1 }
        }),
{
    let j = skip_blanks(s, i);
    assert(forward(s, j, value(s, j)) == value(s, j));
    assert(items(s, i, acc) == items(s, d, acc.push(child)));
}

/// The valid elements from `from` on and the closing bracket, standing in
/// `s` from `i` on, are read as the array of all the elements, given that
/// `acc` holds the elements before `from`.
pub proof fn lemma_items_syntax(
    s: Seq<char>,
    i: int,
    es: Seq<Element>,
    from: int,
    acc: Seq<Value>,
)
    requires
        elements_valid(es),
        0 <= from < es.len(),
        has_at(s, i, elements_text(es, from) + seq![']']),
        acc == elements_meaning(es).take(from),
    ensures
        items(s, i, acc) == (Outcome::Done {
            value: Value::Array(elements_meaning(es)),
            next: i + elements_text(es, from).len() + 1,
        }),
    decreases es, es.len() - from,
{
    let e = es[from];
    let view = elements_meaning(es);
    let more = from + 1 < es.len();
    let q = i + element_text(e).len();
    assert(element_valid(e));
    lemma_element_layout(s, i, es, from);
    lemma_element(s, i, e);
    let d = value(s, i)->Done_next;
    lemma_element_read(s, i, acc, e.value.meaning(), d, q, more);
    let grown = acc.push(e.value.meaning());
    assert(grown =~= view.take(from + 1));
    if more {
        lemma_items_syntax(s, q + 1, es, from + 1, grown);
    } else {
        assert(view.take(from + 1) =~= view);
    }
}

/// A text that holds a valid object, with whitespace before it and
/// anything behind it, parses to the value that the object denotes.
pub proof fn lemma_parse_syntax(s: Seq<char>, lead: Seq<char>, x: Syntax)
    requires
        blanks(lead),
        x.valid(),
        x is Object,
        has_at(s, 0, lead + x.text()),
    ensures
        parse_result(s) == Ok::<Value, Report>(x.meaning()),
{
    lemma_has_at_split(s, 0, lead, x.text());
    let j = lead.len() as int;
    lemma_syntax_start(x);
    assert(s[j + 0] == x.text()[0]);
    lemma_skip_run(s, 0, lead);
    lemma_token_here(s, j);
    lemma_value_syntax(s, j, x);
    assert(token(s, 0) == token(s, j));
}

} // verus!
