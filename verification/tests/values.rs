use arson::json::{find_member, insert_member};
use arson::{JSONError, Parser, JSON};

fn read(text: &str) -> Result<JSON, JSONError> {
    Parser::parse(text.chars().collect())
}

fn member<'a>(json: &'a JSON, key: &str) -> &'a JSON {
    json.get(&key.to_string()).expect("the key is missing")
}

fn number_text(json: &JSON) -> &str {
    match json {
        JSON::Number(text) => text.as_str(),
        other => panic!("not a number: {:?}", other),
    }
}

fn string_text(json: &JSON) -> &str {
    match json {
        JSON::String(text) => text.as_str(),
        other => panic!("not a string: {:?}", other),
    }
}

#[test]
fn empty_object() {
    let json = read("{}").unwrap();
    match json {
        JSON::Object(members) => assert!(members.is_empty()),
        other => panic!("not an object: {:?}", other),
    }
}

#[test]
fn empty_object_with_whitespace() {
    let json = read(" \n\t{ \r\n } ").unwrap();
    assert!(matches!(json, JSON::Object(ref members) if members.is_empty()));
}

#[test]
fn empty_array_inside_object() {
    let json = read(r#"{"a": []}"#).unwrap();
    match member(&json, "a") {
        JSON::Array(items) => assert!(items.is_empty()),
        other => panic!("not an array: {:?}", other),
    }
}

#[test]
fn number_with_sign_fraction_and_exponent() {
    let json = read(r#"{"n": -0.5e2}"#).unwrap();
    let text = number_text(member(&json, "n"));
    assert_eq!(text, "-0.5e2");
    assert_eq!(text.parse::<f64>().unwrap(), -50.0);
}

#[test]
fn plain_numbers() {
    let json = read(r#"{"a": 0, "b": 43, "c": 1.25, "d": 2E+3, "e": -7e-1}"#).unwrap();
    assert_eq!(number_text(member(&json, "a")), "0");
    assert_eq!(number_text(member(&json, "b")), "43");
    assert_eq!(number_text(member(&json, "c")), "1.25");
    assert_eq!(number_text(member(&json, "d")), "2E+3");
    assert_eq!(number_text(member(&json, "e")), "-7e-1");
    assert_eq!(number_text(member(&json, "d")).parse::<f64>().unwrap(), 2000.0);
}

#[test]
fn whitespace_ends_a_number() {
    let json = read("{\"a\": 12 , \"b\": [1 2\t3\n4], \"c\":-7\r}").unwrap();
    assert_eq!(number_text(member(&json, "a")), "12");
    match member(&json, "b") {
        JSON::Array(items) => {
            assert_eq!(items.len(), 4);
            assert_eq!(number_text(&items[0]), "1");
            assert_eq!(number_text(&items[3]), "4");
        }
        other => panic!("not an array: {:?}", other),
    }
    assert_eq!(number_text(member(&json, "c")), "-7");
}

#[test]
fn number_alone_ends_before_what_cannot_belong_to_it() {
    let mut parser = Parser::new("  10.5e-2 3,".chars().collect());
    assert!(matches!(parser.parse_number(), Ok(JSON::Number(text)) if text == "10.5e-2"));
    assert_eq!(parser.consumed(), 9);
    assert!(matches!(parser.parse_number(), Ok(JSON::Number(text)) if text == "3"));
    assert_eq!(parser.consumed(), 11);
}

#[test]
fn literal_words() {
    let json = read(r#"{"t": true, "f": false, "n": null}"#).unwrap();
    assert!(matches!(member(&json, "t"), JSON::Bool(true)));
    assert!(matches!(member(&json, "f"), JSON::Bool(false)));
    assert!(matches!(member(&json, "n"), JSON::Null));
}

#[test]
fn plain_string() {
    let json = read(r#"{"name": "John Doe"}"#).unwrap();
    assert_eq!(string_text(member(&json, "name")), "John Doe");
}

#[test]
fn whitespace_inside_a_string_is_kept() {
    let json = read("{\"a\": \" x\ty \"}").unwrap();
    assert_eq!(string_text(member(&json, "a")), " x\ty ");
}

#[test]
fn escapes_are_decoded() {
    let json = read(r#"{"a": "\n\t\"\\"}"#).unwrap();
    let text = string_text(member(&json, "a"));
    assert_eq!(text, "\n\t\"\\");
    assert_eq!(text.chars().count(), 4);
}

#[test]
fn every_simple_escape() {
    let json = read(r#"{"a": "\"\\\/\b\f\n\r\t"}"#).unwrap();
    assert_eq!(string_text(member(&json, "a")), "\"\\/\u{8}\u{c}\n\r\t");
}

#[test]
fn unicode_escape() {
    let json = read(r#"{"a": "\u0041"}"#).unwrap();
    assert_eq!(string_text(member(&json, "a")), "A");
}

#[test]
fn unicode_escape_in_either_case() {
    let json = read(r#"{"a": "\u00e9\u00E9\uFFFD\u0000"}"#).unwrap();
    assert_eq!(string_text(member(&json, "a")), "\u{e9}\u{e9}\u{fffd}\u{0}");
}

#[test]
fn duplicate_keys_last_wins() {
    let json = read(r#"{"a": 1, "a": 2}"#).unwrap();
    match &json {
        JSON::Object(members) => {
            assert_eq!(members.len(), 1);
            assert_eq!(members[0].0, "a");
        }
        other => panic!("not an object: {:?}", other),
    }
    assert_eq!(number_text(member(&json, "a")), "2");
}

#[test]
fn duplicate_key_keeps_its_place() {
    let json = read(r#"{"a": 1, "b": 2, "a": 3}"#).unwrap();
    match &json {
        JSON::Object(members) => {
            assert_eq!(members.len(), 2);
            assert_eq!(members[0].0, "a");
            assert_eq!(members[1].0, "b");
        }
        other => panic!("not an object: {:?}", other),
    }
    assert_eq!(number_text(member(&json, "a")), "3");
    assert_eq!(number_text(member(&json, "b")), "2");
}

#[test]
fn array_keeps_the_order() {
    let json = read(r#"{"a": [1, "two", false, null, [3], {"k": 4}]}"#).unwrap();
    match member(&json, "a") {
        JSON::Array(items) => {
            assert_eq!(items.len(), 6);
            assert_eq!(number_text(&items[0]), "1");
            assert_eq!(string_text(&items[1]), "two");
            assert!(matches!(items[2], JSON::Bool(false)));
            assert!(matches!(items[3], JSON::Null));
            assert!(matches!(&items[4], JSON::Array(inner) if inner.len() == 1));
            assert_eq!(number_text(member(&items[5], "k")), "4");
        }
        other => panic!("not an array: {:?}", other),
    }
}

#[test]
fn array_passes_over_commas() {
    let json = read(r#"{"a": [1,,2], "b": [,], "c": [,3,]}"#).unwrap();
    assert!(matches!(member(&json, "a"), JSON::Array(items) if items.len() == 2));
    assert!(matches!(member(&json, "b"), JSON::Array(items) if items.is_empty()));
    assert!(matches!(member(&json, "c"), JSON::Array(items) if items.len() == 1));
}

#[test]
fn array_items_need_no_comma() {
    let json = read(r#"{"a": [true false]}"#).unwrap();
    assert!(matches!(member(&json, "a"), JSON::Array(items) if items.len() == 2));
}

#[test]
fn nested_document() {
    let text = r#"{
        "name": "John Doe",
        "age": 43,
        "address": {
            "street": "10 Downing Street",
            "city": "London"
        },
        "phones": [
            "+44 1234567",
            "+44 2345678"
        ]
    } "#;
    let json = read(text).unwrap();
    assert_eq!(string_text(member(&json, "name")), "John Doe");
    assert_eq!(number_text(member(&json, "age")), "43");
    let address = member(&json, "address");
    assert_eq!(string_text(member(address, "street")), "10 Downing Street");
    assert_eq!(string_text(member(address, "city")), "London");
    match member(&json, "phones") {
        JSON::Array(items) => {
            assert_eq!(items.len(), 2);
            assert_eq!(string_text(&items[0]), "+44 1234567");
            assert_eq!(string_text(&items[1]), "+44 2345678");
        }
        other => panic!("not an array: {:?}", other),
    }
}

#[test]
fn what_follows_the_object_is_not_read() {
    let json = read(r#"{"a": 1} trailing"#).unwrap();
    assert_eq!(number_text(member(&json, "a")), "1");
}

#[test]
fn get_of_a_missing_key() {
    let json = read(r#"{"a": 1}"#).unwrap();
    assert!(json.get(&"b".to_string()).is_none());
}

#[test]
fn get_on_what_is_no_object() {
    let json = JSON::Array(vec![JSON::Null]);
    assert!(json.get(&"a".to_string()).is_none());
}

#[test]
fn kind_names() {
    assert_eq!(JSON::Object(vec![]).kind_name(), "Object");
    assert_eq!(JSON::Array(vec![]).kind_name(), "Array");
    assert_eq!(JSON::String(String::new()).kind_name(), "Str");
    assert_eq!(JSON::Number("0".to_string()).kind_name(), "Number");
    assert_eq!(JSON::Bool(true).kind_name(), "Bool");
    assert_eq!(JSON::Null.kind_name(), "Null");
}

#[test]
fn productions_can_be_called_alone() {
    let mut parser = Parser::new("  [1, 2] true \"s\" -3 ,".chars().collect());
    assert!(matches!(parser.parse_array(), Ok(JSON::Array(items)) if items.len() == 2));
    assert!(matches!(parser.parse_any(), Ok(JSON::Bool(true))));
    assert!(matches!(parser.parse_string(), Ok(JSON::String(text)) if text == "s"));
    assert!(matches!(parser.parse_number(), Ok(JSON::Number(text)) if text == "-3"));
}

#[test]
fn equal_whatever_the_order_of_members() {
    let one = read(r#"{"a": 1, "b": [true, null], "c": {"x": "y"}}"#).unwrap();
    let other = read(r#"{ "c": {"x": "y"}, "b": [true, null], "a": 1 }"#).unwrap();
    assert!(one.equals(&other));
    assert!(other.equals(&one));
    assert_eq!(one, other);
}

#[test]
fn equal_to_a_tree_built_by_hand() {
    let parsed = read(r#"{"a": [1, "x"], "b": false}"#).unwrap();
    let built = JSON::Object(vec![
        ("b".to_string(), JSON::Bool(false)),
        (
            "a".to_string(),
            JSON::Array(vec![
                JSON::Number("1".to_string()),
                JSON::String("x".to_string()),
            ]),
        ),
    ]);
    assert_eq!(parsed, built);
}

#[test]
fn unequal_values() {
    let base = read(r#"{"a": 1, "b": [1, 2]}"#).unwrap();
    assert_ne!(base, read(r#"{"a": 1}"#).unwrap());
    assert_ne!(base, read(r#"{"a": 1, "b": [1, 2], "c": null}"#).unwrap());
    assert_ne!(base, read(r#"{"a": 2, "b": [1, 2]}"#).unwrap());
    assert_ne!(base, read(r#"{"a": 1, "b": [2, 1]}"#).unwrap());
    assert_ne!(base, read(r#"{"a": 1, "b": [1]}"#).unwrap());
    assert_ne!(base, read(r#"{"a": 1, "c": [1, 2]}"#).unwrap());
    assert_ne!(JSON::Null, JSON::Bool(false));
    assert_ne!(JSON::String("1".to_string()), JSON::Number("1".to_string()));
    assert_ne!(JSON::Array(vec![]), JSON::Object(vec![]));
}

#[test]
fn numbers_are_compared_as_written() {
    assert_eq!(JSON::Number("10".to_string()), JSON::Number("10".to_string()));
    assert_ne!(JSON::Number("10".to_string()), JSON::Number("1e1".to_string()));
}

#[test]
fn equality_goes_by_the_last_of_two_members_with_one_key() {
    let twice = JSON::Object(vec![
        ("a".to_string(), JSON::Null),
        ("a".to_string(), JSON::Bool(true)),
    ]);
    let once = JSON::Object(vec![("a".to_string(), JSON::Bool(true))]);
    assert_eq!(twice, once);
    assert_eq!(once, twice);
    assert!(matches!(twice.get(&"a".to_string()), Some(JSON::Bool(true))));
}

#[test]
fn insert_member_replaces_or_appends() {
    let mut members = vec![
        ("a".to_string(), JSON::Null),
        ("b".to_string(), JSON::Null),
    ];
    insert_member(&mut members, "a".to_string(), JSON::Bool(true));
    insert_member(&mut members, "c".to_string(), JSON::Bool(false));
    assert_eq!(members.len(), 3);
    assert_eq!(members[0], ("a".to_string(), JSON::Bool(true)));
    assert_eq!(members[1], ("b".to_string(), JSON::Null));
    assert_eq!(members[2], ("c".to_string(), JSON::Bool(false)));
    assert_eq!(find_member(&members, &"b".to_string()), Some(1));
    assert_eq!(find_member(&members, &"d".to_string()), None);
}

#[test]
fn canonical_text_parses_to_the_same_value() {
    let text = r#"{"a":[1,-2.5e+3,"x\"y\\"],"b":{"c":null,"d":true},"e":false,"f":{},"g":[]}"#;
    let parsed = read(text).unwrap();
    let built = JSON::Object(vec![
        (
            "a".to_string(),
            JSON::Array(vec![
                JSON::Number("1".to_string()),
                JSON::Number("-2.5e+3".to_string()),
                JSON::String("x\"y\\".to_string()),
            ]),
        ),
        (
            "b".to_string(),
            JSON::Object(vec![
                ("c".to_string(), JSON::Null),
                ("d".to_string(), JSON::Bool(true)),
            ]),
        ),
        ("e".to_string(), JSON::Bool(false)),
        ("f".to_string(), JSON::Object(vec![])),
        ("g".to_string(), JSON::Array(vec![])),
    ]);
    assert_eq!(parsed, built);
}

#[test]
fn position_can_be_read_between_productions() {
    let mut parser = Parser::new("\n\t[1]  true,".chars().collect());
    assert_eq!((parser.consumed(), parser.line(), parser.column()), (0, 1, 0));
    assert!(parser.parse_array().is_ok());
    assert_eq!((parser.consumed(), parser.line(), parser.column()), (5, 2, 7));
    assert!(matches!(parser.parse_static_word('t'), Err(_)));
    assert_eq!((parser.consumed(), parser.line(), parser.column()), (6, 2, 8));
}

#[test]
fn canonical_text_with_a_key_twice_parses_to_the_last() {
    let parsed = read(r#"{"k":1,"j":[],"k":"last"}"#).unwrap();
    let built = JSON::Object(vec![
        ("k".to_string(), JSON::Number("1".to_string())),
        ("j".to_string(), JSON::Array(vec![])),
        ("k".to_string(), JSON::String("last".to_string())),
    ]);
    assert_eq!(parsed, built);
    assert!(matches!(parsed, JSON::Object(ref members) if members.len() == 2));
}
