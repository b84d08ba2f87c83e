//! The tree that a parse produces, and the mathematical value it stands for.

use vstd::prelude::*;
use crate::text::all_digits;

verus! {

/// The exponent of a number literal: the marker, the sign if one is written,
/// and the digits.
pub struct Exponent {
    /// `e` or `E`.
    pub marker: char,
    /// `+` or `-`, where the literal has one.
    pub sign: Option<char>,
    /// The digits of the exponent.
    pub digits: Seq<char>,
}

/// The parts of a number literal.
pub struct Numeral {
    /// Whether the literal starts with `-`.
    pub negative: bool,
    /// The digits before the decimal point.
    pub integer: Seq<char>,
    /// The digits after the decimal point, where there is one.
    pub fraction: Option<Seq<char>>,
    /// The exponent, where there is one.
    pub exponent: Option<Exponent>,
}

impl Exponent {
    /// The exponent has a marker, at most a sign, and at least one digit.
    pub open spec fn valid(self) -> bool {
        &&& self.marker == 'e' || self.marker == 'E'
        &&& self.sign matches Some(c) ==> c == '+' || c == '-'
        &&& self.digits.len() >= 1
        &&& all_digits(self.digits)
    }

    /// The exponent as it is written.
    pub open spec fn text(self) -> Seq<char> {
        seq![self.marker] + (match self.sign {
            Some(c) => seq![c],
            None => Seq::empty(),
        }) + self.digits
    }
}

impl Numeral {
    /// The parts follow the grammar of JSON numbers: the integer part is a
    /// single `0` or starts with another digit, and a fraction or an
    /// exponent, where present, has at least one digit.
    pub open spec fn valid(self) -> bool {
        &&& self.integer.len() >= 1
        &&& all_digits(self.integer)
        &&& self.integer[0] == '0' ==> self.integer.len() == 1
        &&& self.fraction matches Some(f) ==> f.len() >= 1 && all_digits(f)
        &&& self.exponent matches Some(e) ==> e.valid()
    }

    /// The literal as it is written.
    pub open spec fn text(self) -> Seq<char> {
        sign_text(self.negative) + self.integer + fraction_text(self.fraction) + exponent_text(
            self.exponent,
        )
    }
}

/// The text that the sign adds to a number literal.
pub open spec fn sign_text(negative: bool) -> Seq<char> {
    if negative {
        seq!['-']
    } else {
        Seq::empty()
    }
}

/// The text that a fraction adds to a number literal.
pub open spec fn fraction_text(fraction: Option<Seq<char>>) -> Seq<char> {
    match fraction {
        Some(f) => seq!['.'] + f,
        None => Seq::empty(),
    }
}

/// The text that an exponent adds to a number literal.
pub open spec fn exponent_text(exponent: Option<Exponent>) -> Seq<char> {
    match exponent {
        Some(e) => e.text(),
        None => Seq::empty(),
    }
}

/// `t` is a number literal of JSON.
pub open spec fn is_number_literal(t: Seq<char>) -> bool {
    exists|n: Numeral| n.valid() && #[trigger] n.text() == t
}

/// A JSON value as a mathematical object.
pub enum Value {
    /// A mapping from keys to values.
    Object(Map<Seq<char>, Value>),
    /// A sequence of values, in the order of the text.
    Array(Seq<Value>),
    /// A text, with every escape sequence decoded.
    String(Seq<char>),
    /// A number, given by its literal.
    Number(Seq<char>),
    /// `true` or `false`.
    Bool(bool),
    /// `null`.
    Null,
}

/// The name of a kind, as messages give it.
pub open spec fn kind_name(kind: Kind) -> Seq<char> {
    match kind {
        Kind::Object => "Object"@,
        Kind::Array => "Array"@,
        Kind::String => "Str"@,
        Kind::Number => "Number"@,
        Kind::Bool => "Bool"@,
        Kind::Null => "Null"@,
    }
}

/// The six kinds of JSON value.
pub enum Kind {
    /// An object.
    Object,
    /// An array.
    Array,
    /// A string.
    String,
    /// A number.
    Number,
    /// A boolean.
    Bool,
    /// `null`.
    Null,
}

impl Value {
    /// The kind of this value.
    pub open spec fn kind(self) -> Kind {
        match self {
            Value::Object(_) => Kind::Object,
            Value::Array(_) => Kind::Array,
            Value::String(_) => Kind::String,
            Value::Number(_) => Kind::Number,
            Value::Bool(_) => Kind::Bool,
            Value::Null => Kind::Null,
        }
    }
}

/// The mapping that a list of members denotes: where a key occurs more than
/// once, the last occurrence decides.
pub open spec fn members_map(members: Seq<(Seq<char>, Value)>) -> Map<Seq<char>, Value>
    decreases members.len(),
{
    if members.len() == 0 {
        Map::empty()
    } else {
        members_map(members.drop_last()).insert(members.last().0, members.last().1)
    }
}

/// Contains the JSON types
///
/// A number is kept as the text of its literal, so that nothing of it is
/// lost. An object is kept as the list of its members; in a well-formed tree
/// no key occurs twice, and where one does the last member with the key
/// decides.
#[derive(Debug)]
pub enum JSON {
    /// JSON Object
    Object(Vec<(String, JSON)>),
    /// JSON Array
    Array(Vec<JSON>),
    /// JSON String
    String(String),
    /// JSON Number
    Number(String),
    /// JSON Boolean
    Bool(bool),
    /// JSON Null
    Null,
}

/// The members of an object as mathematical values.
pub open spec fn members_view(members: Seq<(String, JSON)>) -> Seq<(Seq<char>, Value)>
    decreases members, 0nat,
{
    Seq::new(
        members.len(),
        |i: int|
            if 0 <= i < members.len() {
                (members[i].0@, members[i].1.view())
            } else {
                (Seq::empty(), Value::Null)
            },
    )
}

/// The items of an array as mathematical values.
pub open spec fn items_view(items: Seq<JSON>) -> Seq<Value>
    decreases items, 0nat,
{
    Seq::new(
        items.len(),
        |i: int|
            if 0 <= i < items.len() {
                items[i].view()
            } else {
                Value::Null
            },
    )
}

impl View for JSON {
    type V = Value;

    open spec fn view(&self) -> Value
        decreases self, 1nat,
    {
        match self {
            JSON::Object(members) => Value::Object(members_map(members_view(members@))),
            JSON::Array(items) => Value::Array(items_view(items@)),
            JSON::String(text) => Value::String(text@),
            JSON::Number(text) => Value::Number(text@),
            JSON::Bool(b) => Value::Bool(*b),
            JSON::Null => Value::Null,
        }
    }
}

/// No key occurs twice among `members`.
pub open spec fn distinct_keys(members: Seq<(Seq<char>, Value)>) -> bool {
    forall|i: int, j: int|
        0 <= i < j < members.len() ==> (#[trigger] members[i]).0 != (#[trigger] members[j]).0
}

/// Every value among `members` is well formed.
pub open spec fn members_wf(members: Seq<(String, JSON)>) -> bool
    decreases members, 0nat,
{
    forall|i: int| 0 <= i < members.len() ==> (#[trigger] members[i]).1.wf()
}

/// Every number among `members` is a number literal.
pub open spec fn members_literal_numbers(members: Seq<(String, JSON)>) -> bool
    decreases members, 0nat,
{
    forall|i: int| 0 <= i < members.len() ==> (#[trigger] members[i]).1.literal_numbers()
}

/// Every number among `items` is a number literal.
pub open spec fn items_literal_numbers(items: Seq<JSON>) -> bool
    decreases items, 0nat,
{
    forall|i: int| 0 <= i < items.len() ==> (#[trigger] items[i]).literal_numbers()
}

/// Every one of `items` is well formed.
pub open spec fn items_wf(items: Seq<JSON>) -> bool
    decreases items, 0nat,
{
    forall|i: int| 0 <= i < items.len() ==> (#[trigger] items[i]).wf()
}

/// The keys of the mapping are the keys of the members, and where no key
/// occurs twice each member's key leads to that member's value.
pub proof fn lemma_members_map(members: Seq<(Seq<char>, Value)>)
    ensures
        forall|k: Seq<char>|
            members_map(members).contains_key(k) <==> exists|i: int|
                0 <= i < members.len() && (#[trigger] members[i]).0 == k,
        distinct_keys(members) ==> forall|i: int|
            0 <= i < members.len() ==> members_map(members)[(#[trigger] members[i]).0]
                == members[i].1,
    decreases members.len(),
{
    if members.len() > 0 {
        let front = members.drop_last();
        let last = members.last();
        lemma_members_map(front);
        assert(members_map(members) == members_map(front).insert(last.0, last.1));
        assert forall|k: Seq<char>|
            members_map(members).contains_key(k) <==> exists|i: int|
                0 <= i < members.len() && (#[trigger] members[i]).0 == k by {
            if members_map(members).contains_key(k) {
                if k == last.0 {
                    assert(members[members.len() - 1].0 == k);
                } else {
                    assert(members_map(front).contains_key(k));
                    let i = choose|i: int| 0 <= i < front.len() && (#[trigger] front[i]).0 == k;
                    assert(members[i] == front[i]);
                }
            }
            if exists|i: int| 0 <= i < members.len() && (#[trigger] members[i]).0 == k {
                let i = choose|i: int| 0 <= i < members.len() && (#[trigger] members[i]).0 == k;
                if i < front.len() {
                    assert(front[i].0 == k);
                    assert(members_map(front).contains_key(k));
                }
            }
        }
        if distinct_keys(members) {
            assert(distinct_keys(front)) by {
                assert forall|i: int, j: int| 0 <= i < j < front.len() implies (#[trigger] front[i]).0
                    != (#[trigger] front[j]).0 by {
                    assert(members[i].0 != members[j].0);
                }
            }
            assert forall|i: int| 0 <= i < members.len() implies members_map(members)[(
            #[trigger] members[i]).0] == members[i].1 by {
                if i < front.len() {
                    assert(members[i].0 != members[members.len() - 1].0);
                    assert(front[i] == members[i]);
                }
            }
        }
    }
}

/// A member added at the end decides for its key.
pub proof fn lemma_members_map_push(
    members: Seq<(Seq<char>, Value)>,
    key: Seq<char>,
    value: Value,
)
    ensures
        members_map(members.push((key, value))) == members_map(members).insert(key, value),
{
    assert(members.push((key, value)).drop_last() =~= members);
}

/// Where no key occurs twice, a new value for the member at `i` is a new
/// value for its key.
pub proof fn lemma_members_map_update(members: Seq<(Seq<char>, Value)>, i: int, value: Value)
    requires
        distinct_keys(members),
        0 <= i < members.len(),
    ensures
        distinct_keys(members.update(i, (members[i].0, value))),
        members_map(members.update(i, (members[i].0, value))) == members_map(members).insert(
            members[i].0,
            value,
        ),
{
    let key = members[i].0;
    let after = members.update(i, (key, value));
    assert(distinct_keys(after)) by {
        assert forall|a: int, b: int| 0 <= a < b < after.len() implies (#[trigger] after[a]).0 != (
        #[trigger] after[b]).0 by {
            assert(members[a].0 != members[b].0);
        }
    }
    lemma_members_map(members);
    lemma_members_map(after);
    let left = members_map(after);
    let right = members_map(members).insert(key, value);
    assert forall|k: Seq<char>| left.contains_key(k) <==> right.contains_key(k) by {
        if left.contains_key(k) {
            let a = choose|a: int| 0 <= a < after.len() && (#[trigger] after[a]).0 == k;
            assert(members[a].0 == k);
        }
        if right.contains_key(k) && k != key {
            let a = choose|a: int| 0 <= a < members.len() && (#[trigger] members[a]).0 == k;
            assert(after[a].0 == k);
        }
        if k == key {
            assert(after[i].0 == k);
        }
    }
    assert forall|k: Seq<char>| left.contains_key(k) implies left[k] == right[k] by {
        let a = choose|a: int| 0 <= a < after.len() && (#[trigger] after[a]).0 == k;
        assert(left[after[a].0] == after[a].1);
        if a != i {
            assert(members[a].0 == k);
            assert(members[a].0 != members[i].0);
            assert(members_map(members)[members[a].0] == members[a].1);
        }
    }
    assert(left =~= right);
}

/// The place of the last member before `n` that has the key `key`.
pub open spec fn last_with_key_before(members: Seq<(String, JSON)>, key: Seq<char>, n: int) -> Option<
    int,
>
    decreases n,
{
    if 0 < n <= members.len() {
        if members[n - 1].0@ == key {
            Some(n - 1)
        } else {
            last_with_key_before(members, key, n - 1)
        }
    } else {
        None
    }
}

/// The place of the last member that has the key `key`.
pub open spec fn last_with_key(members: Seq<(String, JSON)>, key: Seq<char>) -> Option<int> {
    last_with_key_before(members, key, members.len() as int)
}

/// The last member with a key has that key, no member behind it has, and
/// its value is the one that the mapping has for the key; where there is
/// none, no member has the key and the mapping has no such key.
pub proof fn lemma_last_with_key(members: Seq<(String, JSON)>, key: Seq<char>, n: int)
    requires
        0 <= n <= members.len(),
    ensures
        match last_with_key_before(members, key, n) {
            Some(i) => {
                &&& 0 <= i < n
                &&& members[i].0@ == key
                &&& forall|j: int| i < j < n ==> (#[trigger] members[j]).0@ != key
                &&& members_map(members_view(members).take(n)).contains_key(key)
                &&& members_map(members_view(members).take(n))[key] == members[i].1@
            },
            None => {
                &&& forall|j: int| 0 <= j < n ==> (#[trigger] members[j]).0@ != key
                &&& !members_map(members_view(members).take(n)).contains_key(key)
            },
        },
    decreases n,
{
    let view = members_view(members);
    if n > 0 {
        lemma_last_with_key(members, key, n - 1);
        assert(view.take(n).drop_last() =~= view.take(n - 1));
        assert(view.take(n).last() == (members[n - 1].0@, members[n - 1].1@));
    }
}

/// What [`lemma_last_with_key`] says, of the whole list.
pub proof fn lemma_last_member(members: Seq<(String, JSON)>, key: Seq<char>)
    ensures
        match last_with_key(members, key) {
            Some(i) => {
                &&& 0 <= i < members.len()
                &&& members[i].0@ == key
                &&& forall|j: int| i < j < members.len() ==> (#[trigger] members[j]).0@ != key
                &&& members_map(members_view(members)).contains_key(key)
                &&& members_map(members_view(members))[key] == members[i].1@
            },
            None => {
                &&& forall|j: int| 0 <= j < members.len() ==> (#[trigger] members[j]).0@ != key
                &&& !members_map(members_view(members)).contains_key(key)
            },
        },
{
    lemma_last_with_key(members, key, members.len() as int);
    assert(members_view(members).take(members.len() as int) =~= members_view(members));
}

/// The place of the last member with the key `key`, where there is one.
pub fn find_member(members: &Vec<(String, JSON)>, key: &String) -> (r: Option<usize>)
    ensures
        match r {
            Some(i) => last_with_key(members@, key@) == Some(i as int) && i < members@.len(),
            None => last_with_key(members@, key@).is_none(),
        },
{
    let mut n: usize = members.len();
    while n > 0
        invariant
            n <= members@.len(),
            last_with_key_before(members@, key@, n as int) == last_with_key(members@, key@),
        decreases n,
    {
        if members[n - 1].0 == *key {
            return Some(n - 1);
        }
        n -= 1;
    }
    None
}

/// Gives `key` the value `value` among `members`: the member with that key
/// gets the new value, and where there is none the member is added at the
/// end.
pub fn insert_member(members: &mut Vec<(String, JSON)>, key: String, value: JSON)
    requires
        distinct_keys(members_view(old(members)@)),
    ensures
        distinct_keys(members_view(final(members)@)),
        members_map(members_view(final(members)@)) == members_map(
            members_view(old(members)@),
        ).insert(key@, value@),
        members_wf(old(members)@) && value.wf() ==> members_wf(final(members)@),
        match last_with_key(old(members)@, key@) {
            Some(i) => final(members)@ == old(members)@.update(i, (key, value)),
            None => final(members)@ == old(members)@.push((key, value)),
        },
{
    let ghost before = members_view(members@);
    let ghost k = key@;
    let ghost v = value@;
    proof {
        lemma_last_member(members@, key@);
    }
    match find_member(members, &key) {
        Some(i) => {
            members[i] = (key, value);
            proof {
                lemma_members_map_update(before, i as int, v);
                assert(members_view(members@) =~= before.update(i as int, (k, v)));
            }
        },
        None => {
            members.push((key, value));
            proof {
                lemma_members_map_push(before, k, v);
                assert(members_view(members@) =~= before.push((k, v)));
                assert forall|a: int, b: int|
                    0 <= a < b < members_view(members@).len() implies (#[trigger] members_view(
                    members@,
                )[a]).0 != (#[trigger] members_view(members@)[b]).0 by {
                    if b < before.len() {
                        assert(before[a].0 != before[b].0);
                    } else {
                        assert(old(members)@[a].0@ != k);
                    }
                }
            }
        },
    }
}

impl JSON {
    /// The tree is well formed: no object has a key twice, and every number
    /// is a number literal.
    pub open spec fn wf(&self) -> bool
        decreases self, 1nat,
    {
        match self {
            JSON::Object(members) => distinct_keys(members_view(members@)) && members_wf(members@),
            JSON::Array(items) => items_wf(items@),
            JSON::Number(text) => is_number_literal(text@),
            _ => true,
        }
    }

    /// Every number in the tree is a number literal, so that the tree has a
    /// text.
    pub open spec fn literal_numbers(&self) -> bool
        decreases self, 1nat,
    {
        match self {
            JSON::Object(members) => members_literal_numbers(members@),
            JSON::Array(items) => items_literal_numbers(items@),
            JSON::Number(text) => is_number_literal(text@),
            _ => true,
        }
    }

    /// In a well-formed tree every number is a number literal.
    pub proof fn lemma_wf_literal_numbers(&self)
        requires
            self.wf(),
        ensures
            self.literal_numbers(),
        decreases self,
    {
        match self {
            JSON::Object(members) => {
                assert forall|i: int| 0 <= i < members@.len() implies (#[trigger] members@[i]).1
                    .literal_numbers() by {
                    members@[i].1.lemma_wf_literal_numbers();
                }
            },
            JSON::Array(items) => {
                assert forall|i: int| 0 <= i < items@.len() implies (#[trigger] items@[i])
                    .literal_numbers() by {
                    items@[i].lemma_wf_literal_numbers();
                }
            },
            _ => {},
        }
    }

    /// The name of the kind of this value.
    pub fn kind_name(&self) -> (name: &'static str)
        ensures
            name@ == kind_name(self@.kind()),
    {
        match self {
            JSON::Object(_) => "Object",
            JSON::Array(_) => "Array",
            JSON::String(_) => "Str",
            JSON::Number(_) => "Number",
            JSON::Bool(_) => "Bool",
            JSON::Null => "Null",
        }
    }

    /// The value that the object `self` has for `key`, where it has one.
    pub fn get(&self, key: &String) -> (r: Option<&JSON>)
        ensures
            match self@ {
                Value::Object(map) => match r {
                    Some(found) => map.contains_key(key@) && found@ == map[key@],
                    None => !map.contains_key(key@),
                },
                _ => r.is_none(),
            },
            self.wf() ==> (r matches Some(found) ==> found.wf()),
    {
        match self {
            JSON::Object(members) => {
                proof {
                    lemma_last_member(members@, key@);
                }
                match find_member(members, key) {
                    Some(i) => Some(&members[i].1),
                    None => None,
                }
            },
            _ => None,
        }
    }

    /// Tells whether `self` and `other` stand for the same value: the same
    /// kind, and the same contents, whatever the order in which the members
    /// of an object are kept. Two numbers are the same where their literals
    /// are.
    pub fn equals(&self, other: &JSON) -> (r: bool)
        ensures
            r == (self@ == other@),
        decreases self, 1nat,
    {
        match self {
            JSON::Object(a) => match other {
                JSON::Object(b) => same_members(a, b),
                _ => false,
            },
            JSON::Array(a) => match other {
                JSON::Array(b) => same_items(a, b),
                _ => false,
            },
            JSON::String(a) => match other {
                JSON::String(b) => *a == *b,
                _ => false,
            },
            JSON::Number(a) => match other {
                JSON::Number(b) => *a == *b,
                _ => false,
            },
            JSON::Bool(a) => match other {
                JSON::Bool(b) => *a == *b,
                _ => false,
            },
            JSON::Null => match other {
                JSON::Null => true,
                _ => false,
            },
        }
    }

}

/// Tells whether the items of `a` and of `b` stand for the same values, one
/// by one.
pub fn same_items(a: &Vec<JSON>, b: &Vec<JSON>) -> (r: bool)
    ensures
        r == (items_view(a@) == items_view(b@)),
    decreases a, 0nat,
{
    if a.len() != b.len() {
        assert(items_view(a@).len() != items_view(b@).len());
        return false;
    }
    let mut i: usize = 0;
    while i < a.len()
        invariant
            a@.len() == b@.len(),
            i <= a@.len(),
            forall|j: int| 0 <= j < i ==> (#[trigger] a@[j])@ == b@[j]@,
        decreases a@.len() - i,
    {
        if !a[i].equals(&b[i]) {
            assert(items_view(a@)[i as int] != items_view(b@)[i as int]);
            return false;
        }
        i += 1;
    }
    assert(items_view(a@) =~= items_view(b@));
    true
}

/// Tells whether every key of `a` is a key of `b`.
pub fn keys_within(a: &Vec<(String, JSON)>, b: &Vec<(String, JSON)>) -> (r: bool)
    ensures
        r == (forall|k: Seq<char>| #[trigger]
            members_map(members_view(a@)).contains_key(k) ==> members_map(
                members_view(b@),
            ).contains_key(k)),
{
    let ghost ma = members_map(members_view(a@));
    let ghost mb = members_map(members_view(b@));
    let mut i: usize = 0;
    while i < a.len()
        invariant
            i <= a@.len(),
            ma == members_map(members_view(a@)),
            mb == members_map(members_view(b@)),
            forall|j: int| 0 <= j < i ==> mb.contains_key((#[trigger] a@[j]).0@),
        decreases a@.len() - i,
    {
        proof {
            lemma_last_member(a@, a@[i as int].0@);
            lemma_last_member(b@, a@[i as int].0@);
        }
        if find_member(b, &a[i].0).is_none() {
            assert(ma.contains_key(a@[i as int].0@) && !mb.contains_key(a@[i as int].0@));
            return false;
        }
        i += 1;
    }
    proof {
        assert forall|k: Seq<char>| #[trigger] ma.contains_key(k) implies mb.contains_key(k) by {
            lemma_last_member(a@, k);
            let j = last_with_key(a@, k).unwrap();
            assert(mb.contains_key(a@[j].0@));
        }
    }
    true
}

/// Tells whether the members of `a` and of `b` stand for the same mapping.
pub fn same_members(a: &Vec<(String, JSON)>, b: &Vec<(String, JSON)>) -> (r: bool)
    ensures
        r == (members_map(members_view(a@)) == members_map(members_view(b@))),
    decreases a, 0nat,
{
    let ghost ma = members_map(members_view(a@));
    let ghost mb = members_map(members_view(b@));
    if !keys_within(b, a) {
        return false;
    }
    let mut i: usize = 0;
    while i < a.len()
        invariant
            i <= a@.len(),
            ma == members_map(members_view(a@)),
            mb == members_map(members_view(b@)),
            forall|k: Seq<char>| #[trigger] mb.contains_key(k) ==> ma.contains_key(k),
            forall|j: int|
                0 <= j < i ==> mb.contains_key((#[trigger] a@[j]).0@) && ma[a@[j].0@]
                    == mb[a@[j].0@],
        decreases a@.len() - i,
    {
        proof {
            lemma_last_member(a@, a@[i as int].0@);
            lemma_last_member(b@, a@[i as int].0@);
        }
        let here = find_member(a, &a[i].0);
        let there = find_member(b, &a[i].0);
        match (here, there) {
            (Some(x), Some(y)) => {
                if !a[x].1.equals(&b[y].1) {
                    assert(ma[a@[i as int].0@] != mb[a@[i as int].0@]);
                    return false;
                }
            },
            _ => {
                assert(ma.contains_key(a@[i as int].0@) && !mb.contains_key(a@[i as int].0@));
                return false;
            },
        }
        i += 1;
    }
    proof {
        assert forall|k: Seq<char>| #[trigger] ma.contains_key(k) implies mb.contains_key(k)
            && ma[k] == mb[k] by {
            lemma_last_member(a@, k);
            let j = last_with_key(a@, k).unwrap();
            assert(mb.contains_key(a@[j].0@));
        }
        assert(ma.dom() =~= mb.dom());
        assert(ma =~= mb);
    }
    true
}

impl PartialEq for JSON {
    fn eq(&self, other: &JSON) -> (r: bool) {
        self.equals(other)
    }
}

impl vstd::std_specs::cmp::PartialEqSpecImpl for JSON {
    open spec fn obeys_eq_spec() -> bool {
        true
    }

    open spec fn eq_spec(&self, other: &JSON) -> bool {
        self@ == other@
    }
}

} // verus!
