use arson::{JSONError, Parser, JSON};

fn failure(text: &str) -> JSONError {
    match Parser::parse(text.chars().collect()) {
        Ok(json) => panic!("parsed: {:?}", json),
        Err(e) => e,
    }
}

fn check(text: &str, message: &str, line: usize, column: usize) {
    let e = failure(text);
    assert_eq!(e.message(), message);
    assert_eq!(e.line(), line);
    assert_eq!(e.column(), column);
}

const END: &str = "Unexpected end of file during parsing";

#[test]
fn new_error_keeps_its_parts() {
    let e = JSONError::new("broken".to_string(), 3, 14);
    assert_eq!(e.message(), "broken");
    assert_eq!(e.line(), 3);
    assert_eq!(e.column(), 14);
}

#[test]
fn leading_zero_is_rejected() {
    check(
        r#"{"a": 01}"#,
        "Number starting with `0` must be followed by `.` or nothing",
        1,
        7,
    );
}

#[test]
fn leading_zero_after_a_sign_is_rejected() {
    check(
        r#"{"a": -00}"#,
        "Number starting with `0` must be followed by `.` or nothing",
        1,
        8,
    );
}

#[test]
fn whitespace_inside_a_number_is_rejected() {
    check(r#"{"a": 1 2}"#, "Unexpected token '2'", 1, 9);
    check(r#"{"a": 0 1}"#, "Unexpected token '1'", 1, 9);
    check(r#"{"a": -0 0}"#, "Unexpected token '0'", 1, 10);
    check(r#"{"a": 1 .5}"#, "Unexpected token '.'", 1, 9);
    check(r#"{"a": 1 e5}"#, "Unexpected token 'e'", 1, 9);
    check(
        r#"{"a": - 1}"#,
        "` ` is not valid as part of integer part of a number",
        1,
        7,
    );
    check(r#"{"a": 1. 5}"#, "`1.` could not be parsed as a number", 1, 8);
    check(r#"{"a": 1e 5}"#, "`1e` could not be parsed as a number", 1, 8);
    check(r#"{"a": 1e+ 5}"#, "`1e+` could not be parsed as a number", 1, 9);
    check("{\"a\": 1\n2}", "Unexpected token '2'", 2, 1);
}

#[test]
fn missing_value_is_reported_on_its_line() {
    check("{\n  \"a\": }", "Not able to parse `}`", 2, 7);
}

#[test]
fn top_level_must_be_an_object() {
    check("42", "Object did not start with `{`", 1, 1);
    check("[1]", "Object did not start with `{`", 1, 1);
    check("\"s\"", "Object did not start with `{`", 1, 1);
    check("  true", "Object did not start with `{`", 1, 3);
}

#[test]
fn unterminated_string_is_an_end_of_input() {
    check(r#"{"a": "b"#, END, 1, 8);
}

#[test]
fn empty_text_is_an_end_of_input() {
    check("", END, 1, 0);
    check(" \n ", END, 2, 1);
}

#[test]
fn unterminated_object_is_an_end_of_input() {
    check("{", END, 1, 1);
    check(r#"{"a""#, END, 1, 4);
    check(r#"{"a":"#, END, 1, 5);
    check(r#"{"a": 1"#, END, 1, 7);
    check(r#"{"a": 1,"#, END, 1, 8);
}

#[test]
fn unterminated_array_is_an_end_of_input() {
    check(r#"{"a": [1, 2"#, END, 1, 11);
}

#[test]
fn unterminated_word_is_an_end_of_input() {
    check(r#"{"a": tr"#, END, 1, 8);
}

#[test]
fn unterminated_escape_is_an_end_of_input() {
    check(r#"{"a": "\"#, END, 1, 8);
    check(r#"{"a": "\u00"#, END, 1, 11);
}

#[test]
fn key_must_be_a_string() {
    check(r#"{1: 2}"#, "Key of object must be `Str`, but found `Number`", 1, 2);
    check(r#"{true: 2}"#, "Key of object must be `Str`, but found `Bool`", 1, 5);
    check(r#"{null: 2}"#, "Key of object must be `Str`, but found `Null`", 1, 5);
    check(r#"{[]: 2}"#, "Key of object must be `Str`, but found `Array`", 1, 3);
    check(r#"{{}: 2}"#, "Key of object must be `Str`, but found `Object`", 1, 3);
}

#[test]
fn colon_must_follow_the_key() {
    check(r#"{"a" 1}"#, "':' is expected after key, but found `'1'`", 1, 6);
    check(r#"{"a" '}"#, "':' is expected after key, but found `'\\''`", 1, 6);
}

#[test]
fn comma_or_brace_must_follow_a_member() {
    check(r#"{"a": 1 x}"#, "Unexpected token 'x'", 1, 9);
    check(r#"{"a": "b" "c": 1}"#, "Unexpected token '\"'", 1, 11);
    check(r#"{"a": 1]"#, "Unexpected token ']'", 1, 8);
}

#[test]
fn hexadecimal_digits_are_required() {
    check(r#"{"a": "\u00g1"}"#, "Unable to parse `g` as hex", 1, 12);
    check(r#"{"a": "\u 041"}"#, "Unable to parse ` ` as hex", 1, 10);
}

#[test]
fn surrogate_is_no_character() {
    check(r#"{"a": "\ud800"}"#, "\\u`55296` is not a valid character", 1, 13);
    check(r#"{"a": "\uDFFF"}"#, "\\u`57343` is not a valid character", 1, 13);
}

#[test]
fn unknown_escape_is_rejected() {
    check(r#"{"a": "\q"}"#, "No escape token exists for `q`", 1, 9);
}

#[test]
fn integer_part_is_required() {
    check(
        r#"{"a": -x}"#,
        "`x` is not valid as part of integer part of a number",
        1,
        7,
    );
    check(
        r#"{"a": -.5}"#,
        "`.` is not valid as part of integer part of a number",
        1,
        7,
    );
}

#[test]
fn fraction_needs_a_digit() {
    check(r#"{"a": 1.}"#, "`1.` could not be parsed as a number", 1, 8);
    check(r#"{"a": 1.e5}"#, "`1.` could not be parsed as a number", 1, 8);
}

#[test]
fn exponent_needs_a_digit() {
    check(r#"{"a": 1e}"#, "`1e` could not be parsed as a number", 1, 8);
    check(r#"{"a": 2E+ }"#, "`2E+` could not be parsed as a number", 1, 9);
    check(r#"{"a": 2E+}"#, "`2E+` could not be parsed as a number", 1, 9);
}

#[test]
fn word_that_departs_is_rejected() {
    check(
        r#"{"a": trux}"#,
        "Could not parse word. Did you mean `true`? (diff: `e`/`x`)",
        1,
        10,
    );
    check(
        r#"{"a": fAlse}"#,
        "Could not parse word. Did you mean `false`? (diff: `a`/`A`)",
        1,
        8,
    );
    check(
        r#"{"a": nul }"#,
        "Could not parse word. Did you mean `null`? (diff: `l`/` `)",
        1,
        10,
    );
}

#[test]
fn unknown_start_of_a_value_is_rejected() {
    check(r#"{"a": ?}"#, "Not able to parse `?`", 1, 6);
    check(r#"{"a": +1}"#, "Not able to parse `+`", 1, 6);
}

#[test]
fn tab_counts_for_four_columns() {
    check("{\t\"a\": ?}", "Not able to parse `?`", 1, 10);
}

#[test]
fn line_feed_starts_a_new_line() {
    check("{\n\n\"a\":\n?}", "Not able to parse `?`", 4, 0);
    check("{\r\n\"a\":\r\n ?}", "Not able to parse `?`", 3, 1);
}

#[test]
fn line_feed_inside_a_string_counts() {
    check("{\"a\nb\": ?}", "Not able to parse `?`", 2, 4);
}

#[test]
fn error_inside_nested_values_comes_out_unchanged() {
    check(
        r#"{"a": [1, {"b": [tru]}]}"#,
        "Could not parse word. Did you mean `true`? (diff: `e`/`]`)",
        1,
        21,
    );
}

#[test]
fn string_must_start_with_a_quote() {
    let mut parser = Parser::new(" x".chars().collect());
    let e = parser.parse_string().unwrap_err();
    assert_eq!(e.message(), "String must start with `\"`, found `x`");
    assert_eq!((e.line(), e.column()), (1, 2));
}

#[test]
fn array_must_start_with_a_bracket() {
    let mut parser = Parser::new("{".chars().collect());
    let e = parser.parse_array().unwrap_err();
    assert_eq!(e.message(), "Array must start with `[`, found `{`");
    assert_eq!((e.line(), e.column()), (1, 1));
}

#[test]
fn word_must_start_with_a_known_letter() {
    let mut parser = Parser::new("x".chars().collect());
    let e = parser.parse_static_word('x').unwrap_err();
    assert_eq!(e.message(), "No tokens start with the character `x`");
    assert_eq!((e.line(), e.column()), (1, 0));
}

#[test]
fn number_alone_ends_with_the_text() {
    let mut parser = Parser::new("12".chars().collect());
    let e = parser.parse_number().unwrap_err();
    assert_eq!(e.message(), END);
    assert_eq!((e.line(), e.column()), (1, 2));
}

#[test]
fn number_cut_short_is_an_end_of_input() {
    check(r#"{"a": -"#, END, 1, 7);
    check(r#"{"a": 0"#, END, 1, 7);
    check(r#"{"a": 1."#, END, 1, 8);
    check(r#"{"a": 1.5e"#, END, 1, 10);
    check(r#"{"a": 1.5e-"#, END, 1, 11);
    check(r#"{"a": 12 "#, END, 1, 9);
}

#[test]
fn fault_lies_within_the_text() {
    let texts = ["", "{", "{\"a\": 1 2}", "{\n\n\"a\": tru\n", "42", "{\"a\": [1,\n"];
    for text in texts {
        let e = failure(text);
        let lines = 1 + text.chars().filter(|c| *c == '\n').count();
        assert!(1 <= e.line() && e.line() <= lines, "{:?}", text);
        assert!(e.column() <= 4 * text.chars().count(), "{:?}", text);
    }
}

#[test]
fn no_tree_comes_with_an_error() {
    assert!(matches!(
        Parser::parse(r#"{"a": 1, "b": }"#.chars().collect()),
        Err(_)
    ));
    let ok: Result<JSON, JSONError> = Parser::parse("{}".chars().collect());
    assert!(ok.is_ok());
}

#[test]
fn render_with_given_sequences() {
    let e = JSONError::new("broken".to_string(), 12, 0);
    assert_eq!(e.render_with("<", ">"), "<12:0> - broken");
    assert_eq!(e.render_with("", ""), "12:0 - broken");
    let far = JSONError::new(String::new(), 1, 1234567890);
    assert_eq!(far.render_with("", ""), "1:1234567890 - ");
}

#[test]
fn render_uses_the_colours_of_the_terminal() {
    let e = failure("{\n  \"a\": }");
    let expected = format!(
        "{}{}:{}{} - {}",
        termion::color::Fg(termion::color::Red),
        2,
        7,
        termion::color::Fg(termion::color::Reset),
        "Not able to parse `}`"
    );
    let text = e.render();
    assert_eq!(text, expected);
    assert!(text.ends_with("2:7\u{1b}[39m - Not able to parse `}`"));
    assert!(text == "\u{1b}[38;5;1m2:7\u{1b}[39m - Not able to parse `}`"
        || text == "2:7\u{1b}[39m - Not able to parse `}`");
}

#[test]
fn every_cut_of_a_text_that_parses_is_an_end_of_input() {
    let text = "{\n\t\"a\": [1, -2.5e+3, \"x\\\"y\\u0041\", true, false, null, {\"b\": {}}],\n \"c\": 0\n}";
    let chars: Vec<char> = text.chars().collect();
    assert!(Parser::parse(chars.clone()).is_ok());
    for k in 0..chars.len() {
        let e = Parser::parse(chars[..k].to_vec()).unwrap_err();
        assert_eq!(e.message(), END, "cut at {}", k);
        let newlines = chars[..k].iter().filter(|c| **c == '\n').count();
        assert_eq!(e.line(), 1 + newlines, "cut at {}", k);
    }
}

#[test]
fn only_four_characters_are_whitespace() {
    check("{\"a\":\u{c}1}", "Not able to parse `\u{c}`", 1, 5);
    check("{\"a\":\u{a0}1}", "Not able to parse `\u{a0}`", 1, 5);
    check("\u{2028}{}", "Object did not start with `{`", 1, 1);
    assert!(Parser::parse(" \t\r\n{ \t\r\n} \t\r\n".chars().collect()).is_ok());
}
