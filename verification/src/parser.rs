//! The parser: a cursor over the characters of a text, and one function for
//! each production of the grammar.

use vstd::prelude::*;
use crate::grammar::{
    array, as_number, as_string, digits, digits_after, digits_onto, escape, exponent_part,
    fraction_part, here, hex_at, integer_part, items, lemma_number_is_literal, matched, members,
    number, object, parse_result, peeked, raw, report, sign_part, skip_blanks, string, string_chars,
    token, value, word, word_of, Fault, Outcome,
};
use crate::json::{
    distinct_keys, insert_member, items_view, items_wf, members_map, members_view, members_wf, JSON,
    Value,
};
use crate::json_error::{JSONError, Report};
use crate::position::{column_after, lemma_position_bounds, line_after};
use crate::text::{char_debug, digit, hex_digit, is_whitespace, push_decimal, whitespace};

verus! {

/// JSON parser
pub struct Parser {
    chars: Vec<char>,
    pos: usize,
    line: usize,
    col: usize,
}

impl Parser {
    /// The text that is being parsed.
    pub closed spec fn text(&self) -> Seq<char> {
        self.chars@
    }

    /// The number of characters read so far.
    pub closed spec fn cursor(&self) -> int {
        self.pos as int
    }

    /// The cursor stands within the text, the line and the column are those
    /// of the cursor, and neither can overflow before the text ends.
    pub closed spec fn wf(&self) -> bool {
        &&& self.pos <= self.chars@.len()
        &&& 4 * self.chars@.len() <= usize::MAX
        &&& self.line == line_after(self.chars@.take(self.pos as int))
        &&& self.col == column_after(self.chars@.take(self.pos as int))
    }

    /// The character result `r` and the state `self` reached are what the
    /// outcome `o` asks for.
    pub open spec fn gives_char(&self, r: Result<char, JSONError>, o: Outcome<char>) -> bool {
        match o {
            Outcome::Done { value, next } => r matches Ok(c) && c == value && self.cursor() == next,
            Outcome::Failed { fault, at } => r matches Err(e) && e@ == report(
                self.text(),
                fault,
                at,
            ) && self.cursor() == at,
        }
    }

    /// The text result `r` and the state `self` reached are what the outcome
    /// `o` asks for.
    pub open spec fn gives_text(&self, r: Result<String, JSONError>, o: Outcome<Seq<char>>) -> bool {
        match o {
            Outcome::Done { value, next } => r matches Ok(t) && t@ == value && self.cursor()
                == next,
            Outcome::Failed { fault, at } => r matches Err(e) && e@ == report(
                self.text(),
                fault,
                at,
            ) && self.cursor() == at,
        }
    }

    /// The result `r`, the text `t` built and the state `self` reached are
    /// what the outcome `o` asks for.
    pub open spec fn gives_built(
        &self,
        r: Result<(), JSONError>,
        t: Seq<char>,
        o: Outcome<Seq<char>>,
    ) -> bool {
        match o {
            Outcome::Done { value, next } => r is Ok && t == value && self.cursor() == next,
            Outcome::Failed { fault, at } => r matches Err(e) && e@ == report(
                self.text(),
                fault,
                at,
            ) && self.cursor() == at,
        }
    }

    /// The result `r` and the state `self` reached are what the outcome `o`
    /// asks for, and a tree in `r` is well formed.
    pub open spec fn gives_json(&self, r: Result<JSON, JSONError>, o: Outcome<Value>) -> bool {
        match o {
            Outcome::Done { value, next } => r matches Ok(j) && j@ == value && j.wf()
                && self.cursor() == next,
            Outcome::Failed { fault, at } => r matches Err(e) && e@ == report(
                self.text(),
                fault,
                at,
            ) && self.cursor() == at,
        }
    }

    /// A parser at the start of `chars`.
    pub fn new(chars: Vec<char>) -> (p: Parser)
        requires
            4 * chars@.len() <= usize::MAX,
        ensures
            p.wf(),
            p.text() == chars@,
            p.cursor() == 0,
    {
        Parser { chars, pos: 0, line: 1, col: 0 }
    }

    /// Parse json data
    ///
    /// The text has to hold one object. What comes back is the tree of that
    /// object, or the report of the first fault in the text.
    pub fn parse(chars: Vec<char>) -> (r: Result<JSON, JSONError>)
        requires
            4 * chars@.len() <= usize::MAX,
        ensures
            match parse_result(chars@) {
                Ok(value) => r matches Ok(json) && json@ == value && json.wf(),
                Err(rep) => r matches Err(e) && e@ == rep,
            },
            r matches Ok(json) ==> json is Object,
    {
        let mut parser = Parser::new(chars);
        parser.parse_object()
    }

    /// Parses an object: `{`, and either `}` at once or members up to `}`.
    pub fn parse_object(&mut self) -> (r: Result<JSON, JSONError>)
        requires
            old(self).wf(),
        ensures
            final(self).wf(),
            final(self).text() == old(self).text(),
            old(self).cursor() <= final(self).cursor(),
            final(self).gives_json(r, object(old(self).text(), old(self).cursor())),
            r is Ok ==> final(self).cursor() > old(self).cursor(),
            r matches Ok(json) ==> json is Object,
        decreases old(self).text().len() - old(self).cursor(), 1nat,
    {
        if self.consume()? != '{' {
            return self.err("Object did not start with `{`".to_owned());
        }
        if self.peek()? == '}' {
            let _ = self.consume()?;
            let empty = JSON::Object(Vec::new());
            assert(empty@ == Value::Object(Map::empty()));
            return Ok(empty);
        }
        let mut entries: Vec<(String, JSON)> = Vec::new();

        loop
            invariant
                self.wf(),
                self.text() == old(self).text(),
                old(self).cursor() < self.cursor(),
                distinct_keys(members_view(entries@)),
                members_wf(entries@),
                members(self.text(), self.cursor(), members_map(members_view(entries@))) == object(
                    old(self).text(),
                    old(self).cursor(),
                ),
            decreases self.text().len() - self.cursor(),
        {
            let key = match self.parse_any()? {
                JSON::String(x) => x,
                x => {
                    let mut msg = "Key of object must be `Str`, but found `".to_owned();
                    msg.append(x.kind_name());
                    msg.append("`");
                    return self.err(msg);
                },
            };

            let c = self.consume()?;
            if c != ':' {
                let mut msg = "':' is expected after key, but found `".to_owned();
                msg.append(char_debug(c).as_str());
                msg.append("`");
                return self.err(msg);
            }
            let value = self.parse_any()?;

            insert_member(&mut entries, key, value);

            let c = self.consume()?;
            if c == '}' {
                return Ok(JSON::Object(entries));
            } else if c != ',' {
                let mut msg = "Unexpected token ".to_owned();
                msg.append(char_debug(c).as_str());
                return self.err(msg);
            }
        }
    }

    /// Parses an array: `[`, and items up to `]`.
    pub fn parse_array(&mut self) -> (r: Result<JSON, JSONError>)
        requires
            old(self).wf(),
        ensures
            final(self).wf(),
            final(self).text() == old(self).text(),
            old(self).cursor() <= final(self).cursor(),
            final(self).gives_json(r, array(old(self).text(), old(self).cursor())),
            r is Ok ==> final(self).cursor() > old(self).cursor(),
        decreases old(self).text().len() - old(self).cursor(), 1nat,
    {
        let c = self.consume()?;
        if c != '[' {
            let mut msg = "Array must start with `[`, found `".to_owned();
            msg.push(c);
            msg.append("`");
            return self.err(msg);
        }
        let mut list: Vec<JSON> = Vec::new();
        assert(items_view(list@) =~= Seq::<Value>::empty());

        loop
            invariant
                self.wf(),
                self.text() == old(self).text(),
                old(self).cursor() < self.cursor(),
                items_wf(list@),
                items(self.text(), self.cursor(), items_view(list@)) == array(
                    old(self).text(),
                    old(self).cursor(),
                ),
            decreases self.text().len() - self.cursor(),
        {
            let c = self.peek()?;
            if c == ',' {
                let _ = self.consume()?;
            } else if c == ']' {
                let _ = self.consume()?;
                return Ok(JSON::Array(list));
            } else {
                let ghost before = items_view(list@);
                let item = self.parse_any()?;
                list.push(item);
                assert(items_view(list@) =~= before.push(item@));
            }
        }
    }

    /// Parses any value: the next token decides which production applies.
    pub fn parse_any(&mut self) -> (r: Result<JSON, JSONError>)
        requires
            old(self).wf(),
        ensures
            final(self).wf(),
            final(self).text() == old(self).text(),
            old(self).cursor() <= final(self).cursor(),
            final(self).gives_json(r, value(old(self).text(), old(self).cursor())),
            r is Ok ==> final(self).cursor() > old(self).cursor(),
        decreases old(self).text().len() - old(self).cursor(), 2nat,
    {
        let c = self.peek()?;
        if digit(c) || c == '-' {
            self.parse_number()
        } else if c == '"' {
            self.parse_string()
        } else if c == '{' {
            self.parse_object()
        } else if c == '[' {
            self.parse_array()
        } else if c == 't' || c == 'f' || c == 'n' {
            self.parse_static_word(c)
        } else {
            let mut msg = "Not able to parse `".to_owned();
            msg.push(c);
            msg.append("`");
            self.err(msg)
        }
    }

    /// The number of characters read so far.
    pub fn consumed(&self) -> (n: usize)
        ensures
            n == self.cursor(),
            self.wf() ==> n <= self.text().len(),
    {
        self.pos
    }

    /// The cursor of a well-formed parser stands within the text, and a
    /// text that has a well-formed parser is short enough for its columns
    /// to be counted.
    pub proof fn lemma_cursor_within(&self)
        requires
            self.wf(),
        ensures
            0 <= self.cursor() <= self.text().len(),
            4 * self.text().len() <= usize::MAX,
    {
    }

    /// The line on which the cursor stands, counted from one.
    pub fn line(&self) -> (n: usize)
        requires
            self.wf(),
        ensures
            n == line_after(self.text().take(self.cursor())),
    {
        self.line
    }

    /// The column at which the cursor stands, counted from zero.
    pub fn column(&self) -> (n: usize)
        requires
            self.wf(),
        ensures
            n == column_after(self.text().take(self.cursor())),
    {
        self.col
    }

    /// Moves the line and the column over the character `c`, which stands at
    /// the cursor.
    fn update_position(&mut self, c: char)
        requires
            old(self).wf(),
            old(self).pos < old(self).chars@.len(),
            c == old(self).chars@[old(self).pos as int],
        ensures
            final(self).chars == old(self).chars,
            final(self).pos == old(self).pos,
            final(self).line == line_after(old(self).chars@.take(old(self).pos + 1)),
            final(self).col == column_after(old(self).chars@.take(old(self).pos + 1)),
    {
        proof {
            let s = self.chars@;
            let i = self.pos as int;
            assert(s.take(i + 1).drop_last() =~= s.take(i));
            assert(s.take(i + 1).last() == c);
            lemma_position_bounds(s.take(i));
        }
        if c == '\n' {
            self.line += 1;
            self.col = 0;
        } else if c == '\t' {
            self.col += 4;
        } else {
            self.col += 1;
        }
    }

    /// Reads the character at the cursor.
    fn advance(&mut self) -> (c: char)
        requires
            old(self).wf(),
            old(self).cursor() < old(self).text().len(),
        ensures
            final(self).wf(),
            final(self).text() == old(self).text(),
            old(self).cursor() <= final(self).cursor(),
            final(self).cursor() == old(self).cursor() + 1,
            c == old(self).text()[old(self).cursor()],
    {
        let c = self.chars[self.pos];
        self.update_position(c);
        self.pos += 1;
        c
    }

    /// Looks at the next token without reading it: the whitespace before it
    /// is read, the token is not.
    fn peek(&mut self) -> (r: Result<char, JSONError>)
        requires
            old(self).wf(),
        ensures
            final(self).wf(),
            final(self).text() == old(self).text(),
            old(self).cursor() <= final(self).cursor(),
            final(self).gives_char(r, peeked(old(self).text(), old(self).cursor())),
            final(self).cursor() == skip_blanks(old(self).text(), old(self).cursor()),
            r matches Ok(c) ==> !is_whitespace(c) && final(self).cursor() < final(self).text().len()
                && c == final(self).text()[final(self).cursor()],
    {
        while self.pos < self.chars.len()
            invariant
                self.wf(),
                self.chars@ == old(self).chars@,
                old(self).pos <= self.pos,
                skip_blanks(self.chars@, self.pos as int) == skip_blanks(
                    old(self).chars@,
                    old(self).pos as int,
                ),
            decreases self.chars@.len() - self.pos,
        {
            let c = self.chars[self.pos];
            if !self.is_whitespace(c) {
                return Ok(c);
            }
            self.advance();
        }
        self.eof_err()
    }

    /// Reads up to and including the next token; `None` at the end of the
    /// text.
    fn next_char_token(&mut self) -> (r: Option<char>)
        requires
            old(self).wf(),
        ensures
            final(self).wf(),
            final(self).text() == old(self).text(),
            old(self).cursor() <= final(self).cursor(),
            match token(old(self).text(), old(self).cursor()) {
                Outcome::Done { value, next } => r == Some(value) && final(self).cursor() == next,
                Outcome::Failed { fault, at } => r.is_none() && final(self).cursor() == at,
            },
    {
        while self.pos < self.chars.len()
            invariant
                self.wf(),
                self.chars@ == old(self).chars@,
                old(self).pos <= self.pos,
                skip_blanks(self.chars@, self.pos as int) == skip_blanks(
                    old(self).chars@,
                    old(self).pos as int,
                ),
            decreases self.chars@.len() - self.pos,
        {
            let c = self.advance();
            if !self.is_whitespace(c) {
                return Some(c);
            }
        }
        None
    }

    /// Reads the next token.
    fn consume(&mut self) -> (r: Result<char, JSONError>)
        requires
            old(self).wf(),
        ensures
            final(self).wf(),
            final(self).text() == old(self).text(),
            old(self).cursor() <= final(self).cursor(),
            final(self).gives_char(r, token(old(self).text(), old(self).cursor())),
            r is Ok ==> final(self).cursor() > old(self).cursor(),
    {
        if let Some(c) = self.next_char_token() {
            Ok(c)
        } else {
            self.eof_err()
        }
    }

    /// Reads the next character, whitespace or not.
    fn next_char(&mut self) -> (r: Result<char, JSONError>)
        requires
            old(self).wf(),
        ensures
            final(self).wf(),
            final(self).text() == old(self).text(),
            old(self).cursor() <= final(self).cursor(),
            final(self).gives_char(r, raw(old(self).text(), old(self).cursor())),
    {
        if self.pos < self.chars.len() {
            let c = self.advance();
            Ok(c)
        } else {
            self.eof_err()
        }
    }

    /// Looks at the character at the cursor as it stands, whitespace or not,
    /// without reading it.
    fn look(&self) -> (r: Result<char, JSONError>)
        requires
            self.wf(),
        ensures
            self.gives_char(r, here(self.text(), self.cursor())),
    {
        if self.pos < self.chars.len() {
            Ok(self.chars[self.pos])
        } else {
            self.eof_err()
        }
    }

    /// Reads one hexadecimal digit of a `\u` escape.
    fn hex_char(&mut self) -> (r: Result<u32, JSONError>)
        requires
            old(self).wf(),
        ensures
            final(self).wf(),
            final(self).text() == old(self).text(),
            old(self).cursor() <= final(self).cursor(),
            match hex_at(old(self).text(), old(self).cursor()) {
                Outcome::Done { value, next } => r matches Ok(d) && d == value && d < 16
                    && final(self).cursor() == next,
                Outcome::Failed { fault, at } => r matches Err(e) && e@ == report(
                    final(self).text(),
                    fault,
                    at,
                ) && final(self).cursor() == at,
            },
    {
        let c = self.next_char()?;
        match hex_digit(c) {
            Some(d) => Ok(d),
            None => {
                let mut msg = "Unable to parse `".to_owned();
                msg.push(c);
                msg.append("` as hex");
                self.err(msg)
            },
        }
    }

    /// Reads what follows a backslash inside a string.
    fn parse_escape(&mut self) -> (r: Result<char, JSONError>)
        requires
            old(self).wf(),
        ensures
            final(self).wf(),
            final(self).text() == old(self).text(),
            old(self).cursor() <= final(self).cursor(),
            final(self).gives_char(r, escape(old(self).text(), old(self).cursor())),
    {
        let c = self.next_char()?;
        if c == '"' || c == '\\' || c == '/' {
            Ok(c)
        } else if c == 'b' {
            Ok('\u{8}')
        } else if c == 'f' {
            Ok('\u{c}')
        } else if c == 'n' {
            Ok('\n')
        } else if c == 'r' {
            Ok('\r')
        } else if c == 't' {
            Ok('\t')
        } else if c == 'u' {
            let h3 = self.hex_char()?;
            let h2 = self.hex_char()?;
            let h1 = self.hex_char()?;
            let h0 = self.hex_char()?;
            let code: u32 = 4096 * h3 + 256 * h2 + 16 * h1 + h0;
            match char::from_u32(code) {
                Some(decoded) => Ok(decoded),
                None => {
                    let mut msg = "\\u`".to_owned();
                    push_decimal(&mut msg, code as usize);
                    msg.append("` is not a valid character");
                    self.err(msg)
                },
            }
        } else {
            let mut msg = "No escape token exists for `".to_owned();
            msg.push(c);
            msg.append("`");
            self.err(msg)
        }
    }

    /// Parses a string: a quote, and the characters up to the quote that
    /// closes it, with the escape sequences decoded.
    pub fn parse_string(&mut self) -> (r: Result<JSON, JSONError>)
        requires
            old(self).wf(),
        ensures
            final(self).wf(),
            final(self).text() == old(self).text(),
            old(self).cursor() <= final(self).cursor(),
            final(self).gives_json(r, as_string(string(old(self).text(), old(self).cursor()))),
            r is Ok ==> final(self).cursor() > old(self).cursor(),
    {
        let c = self.consume()?;
        if c != '"' {
            let mut msg = "String must start with `\"`, found `".to_owned();
            msg.push(c);
            msg.append("`");
            return self.err(msg);
        }
        let mut decoded = String::new();
        let ghost start = self.cursor();
        assert(decoded@ =~= Seq::<char>::empty());
        loop
            invariant
                self.wf(),
                self.text() == old(self).text(),
                old(self).cursor() < start <= self.cursor(),
                string_chars(self.text(), self.cursor(), decoded@) == string(
                    old(self).text(),
                    old(self).cursor(),
                ),
            decreases self.text().len() - self.cursor(),
        {
            let c = self.next_char()?;
            if c == '\\' {
                let unescaped = self.parse_escape()?;
                decoded.push(unescaped);
            } else if c == '"' {
                return Ok(JSON::String(decoded));
            } else {
                decoded.push(c);
            }
        }
    }

    /// Reads a run of digits, which may be empty, up to the next character
    /// that is no digit.
    fn extract_digits(&mut self) -> (r: Result<String, JSONError>)
        requires
            old(self).wf(),
        ensures
            final(self).wf(),
            final(self).text() == old(self).text(),
            old(self).cursor() <= final(self).cursor(),
            final(self).gives_text(r, digits(old(self).text(), old(self).cursor())),
    {
        let mut num_str = String::new();
        loop
            invariant
                self.wf(),
                self.text() == old(self).text(),
                old(self).cursor() <= self.cursor(),
                digits_onto(self.text(), self.cursor(), num_str@) == digits(
                    old(self).text(),
                    old(self).cursor(),
                ),
            decreases self.text().len() - self.cursor(),
        {
            let c = self.look()?;
            if digit(c) {
                let d = self.next_char()?;
                num_str.push(d);
            } else {
                return Ok(num_str);
            }
        }
    }

    /// Reads a run of at least one digit and appends it to `num_str`.
    fn append_digits(&mut self, num_str: &mut String) -> (r: Result<(), JSONError>)
        requires
            old(self).wf(),
        ensures
            final(self).wf(),
            final(self).text() == old(self).text(),
            old(self).cursor() <= final(self).cursor(),
            final(self).gives_built(
                r,
                final(num_str)@,
                digits_after(old(self).text(), old(self).cursor(), old(num_str)@),
            ),
    {
        let run = self.extract_digits()?;
        if run.as_str().is_empty() {
            let mut msg = "`".to_owned();
            msg.append(num_str.as_str());
            msg.append("` could not be parsed as a number");
            return self.err(msg);
        }
        num_str.append(run.as_str());
        Ok(())
    }

    /// Reads the whitespace before a number, and its sign where one is
    /// written.
    fn number_sign(&mut self, num_str: &mut String) -> (r: Result<(), JSONError>)
        requires
            old(self).wf(),
            old(num_str)@.len() == 0,
        ensures
            final(self).wf(),
            final(self).text() == old(self).text(),
            old(self).cursor() <= final(self).cursor(),
            final(self).gives_built(
                r,
                final(num_str)@,
                sign_part(old(self).text(), old(self).cursor()),
            ),
    {
        if self.peek()? == '-' {
            let sign = self.next_char()?;
            num_str.push(sign);
            assert(num_str@ =~= seq!['-']);
        } else {
            assert(num_str@ =~= Seq::<char>::empty());
        }
        Ok(())
    }

    /// Reads the integer part of a number: a single `0`, or digits of which
    /// the first is not `0`.
    fn number_integer(&mut self, num_str: &mut String) -> (r: Result<(), JSONError>)
        requires
            old(self).wf(),
        ensures
            final(self).wf(),
            final(self).text() == old(self).text(),
            old(self).cursor() <= final(self).cursor(),
            final(self).gives_built(
                r,
                final(num_str)@,
                integer_part(old(self).text(), old(self).cursor(), old(num_str)@),
            ),
    {
        let c = self.look()?;
        if c == '0' {
            let zero = self.next_char()?;
            num_str.push(zero);
            if digit(self.look()?) {
                return self.err(
                    "Number starting with `0` must be followed by `.` or nothing".to_owned(),
                );
            }
            Ok(())
        } else if digit(c) {
            self.append_digits(num_str)
        } else {
            let mut msg = "`".to_owned();
            msg.push(c);
            msg.append("` is not valid as part of integer part of a number");
            self.err(msg)
        }
    }

    /// Reads the fraction of a number, where one is written.
    fn number_fraction(&mut self, num_str: &mut String) -> (r: Result<(), JSONError>)
        requires
            old(self).wf(),
        ensures
            final(self).wf(),
            final(self).text() == old(self).text(),
            old(self).cursor() <= final(self).cursor(),
            final(self).gives_built(
                r,
                final(num_str)@,
                fraction_part(old(self).text(), old(self).cursor(), old(num_str)@),
            ),
    {
        if self.look()? == '.' {
            let point = self.next_char()?;
            num_str.push(point);
            self.append_digits(num_str)
        } else {
            Ok(())
        }
    }

    /// Reads the exponent of a number, where one is written.
    fn number_exponent(&mut self, num_str: &mut String) -> (r: Result<(), JSONError>)
        requires
            old(self).wf(),
        ensures
            final(self).wf(),
            final(self).text() == old(self).text(),
            old(self).cursor() <= final(self).cursor(),
            final(self).gives_built(
                r,
                final(num_str)@,
                exponent_part(old(self).text(), old(self).cursor(), old(num_str)@),
            ),
    {
        let c = self.look()?;
        if c == 'e' || c == 'E' {
            let marker = self.next_char()?;
            num_str.push(marker);
            let d = self.look()?;
            if d == '-' || d == '+' {
                let sign = self.next_char()?;
                num_str.push(sign);
            }
            self.append_digits(num_str)
        } else {
            Ok(())
        }
    }

    /// Parses a number: a sign or none, the integer part, a fraction or
    /// none, an exponent or none, one right after the other. Whitespace is
    /// passed over before the number only.
    pub fn parse_number(&mut self) -> (r: Result<JSON, JSONError>)
        requires
            old(self).wf(),
        ensures
            final(self).wf(),
            final(self).text() == old(self).text(),
            old(self).cursor() <= final(self).cursor(),
            final(self).gives_json(r, as_number(number(old(self).text(), old(self).cursor()))),
            r is Ok ==> final(self).cursor() > old(self).cursor(),
    {
        let mut num_str = String::new();
        self.number_sign(&mut num_str)?;
        self.number_integer(&mut num_str)?;
        self.number_fraction(&mut num_str)?;
        self.number_exponent(&mut num_str)?;
        proof {
            lemma_number_is_literal(old(self).text(), old(self).cursor());
        }
        Ok(JSON::Number(num_str))
    }

    /// Parses one of the literal words `true`, `false` and `null`, chosen by
    /// the character `c`, character by character.
    pub fn parse_static_word(&mut self, c: char) -> (r: Result<JSON, JSONError>)
        requires
            old(self).wf(),
        ensures
            final(self).wf(),
            final(self).text() == old(self).text(),
            old(self).cursor() <= final(self).cursor(),
            final(self).gives_json(r, word(old(self).text(), old(self).cursor(), c)),
            r is Ok ==> final(self).cursor() > old(self).cursor(),
    {
        let (name, letters): (&str, Vec<char>) = if c == 't' {
            ("true", vec!['t', 'r', 'u', 'e'])
        } else if c == 'f' {
            ("false", vec!['f', 'a', 'l', 's', 'e'])
        } else if c == 'n' {
            ("null", vec!['n', 'u', 'l', 'l'])
        } else {
            let mut msg = "No tokens start with the character `".to_owned();
            msg.push(c);
            msg.append("`");
            return self.err(msg);
        };
        proof {
            reveal_strlit("true");
            reveal_strlit("false");
            reveal_strlit("null");
            assert(name@ =~= letters@);
        }
        let mut k: usize = 0;
        while k < letters.len()
            invariant
                self.wf(),
                self.text() == old(self).text(),
                word_of(c) == Some(letters@),
                name@ == letters@,
                k <= letters.len(),
                self.cursor() == old(self).cursor() + k,
                matched(self.text(), old(self).cursor(), letters@, k as nat) == matched(
                    self.text(),
                    old(self).cursor(),
                    letters@,
                    0,
                ),
            decreases letters.len() - k,
        {
            let expected = letters[k];
            let found = self.next_char()?;
            if found != expected {
                let mut msg = "Could not parse word. Did you mean `".to_owned();
                msg.append(name);
                msg.append("`? (diff: `");
                msg.push(expected);
                msg.append("`/`");
                msg.push(found);
                msg.append("`)");
                assert(msg@ =~= (Fault::WordMismatch { word: letters@, expected, found }).message());
                return self.err(msg);
            }
            k += 1;
        }
        if c == 't' {
            Ok(JSON::Bool(true))
        } else if c == 'f' {
            Ok(JSON::Bool(false))
        } else {
            Ok(JSON::Null)
        }
    }

    /// Tells whether `c` is whitespace of JSON.
    fn is_whitespace(&self, c: char) -> (r: bool)
        ensures
            r == is_whitespace(c),
    {
        whitespace(c)
    }

    /// The error with the message `msg` at the place of the cursor.
    fn raw_err(&self, msg: String) -> (e: JSONError)
        requires
            self.wf(),
        ensures
            e@ == (Report {
                message: msg@,
                line: line_after(self.text().take(self.cursor())),
                column: column_after(self.text().take(self.cursor())),
            }),
    {
        JSONError::new(msg, self.line, self.col)
    }

    /// The failure with the message `msg` at the place of the cursor.
    fn err<T>(&self, msg: String) -> (r: Result<T, JSONError>)
        requires
            self.wf(),
        ensures
            r matches Err(e) && e@ == (Report {
                message: msg@,
                line: line_after(self.text().take(self.cursor())),
                column: column_after(self.text().take(self.cursor())),
            }),
    {
        Err(self.raw_err(msg))
    }

    /// The failure that reports the end of the text at the place of the
    /// cursor.
    fn eof_err<T>(&self) -> (r: Result<T, JSONError>)
        requires
            self.wf(),
        ensures
            r matches Err(e) && e@ == report(self.text(), Fault::UnexpectedEnd, self.cursor()),
    {
        self.err("Unexpected end of file during parsing".to_owned())
    }
}

} // verus!
