use json_parser::de::{Deserializer, Object, Value, MAX_DEPTH};
use json_parser::token::Error;

fn parse(input: &str) -> Result<Option<Value>, Error> {
    Deserializer::new(input).parse()
}

fn value(input: &str) -> Value {
    parse(input).unwrap().unwrap()
}

fn number(text: &str) -> Value {
    Value::Number(text.to_string())
}

fn string(text: &str) -> Value {
    Value::String(text.to_string())
}

fn object(members: Vec<(&str, Value)>) -> Value {
    let mut object = Object::new();
    for (key, value) in members {
        object.insert(key.to_string(), value);
    }
    Value::Object(object)
}

#[test]
fn number_literal_is_kept_as_text() {
    assert_eq!(parse("-100.001e10"), Ok(Some(number("-100.001e10"))));
    assert_eq!(parse("1.0"), Ok(Some(number("1.0"))));
    assert_eq!(parse("1.50"), Ok(Some(number("1.50"))));
    assert_eq!(parse("1E5"), Ok(Some(number("1E5"))));
    assert_eq!(parse("-0e-12"), Ok(Some(number("-0e-12"))));
}

#[test]
fn empty_containers() {
    match value("{}") {
        Value::Object(object) => {
            assert!(object.is_empty());
            assert_eq!(object.len(), 0);
            assert_eq!(object.get(""), None);
        }
        _ => panic!("Should be Object"),
    }
    assert_eq!(parse("{}"), Ok(Some(Value::Object(Object::new()))));
    assert_eq!(parse("[]"), Ok(Some(Value::Array(vec![]))));
    assert_eq!(parse("[ ]"), Ok(Some(Value::Array(vec![]))));
    assert_eq!(parse(" \n[\t\r\n ]"), Ok(Some(Value::Array(vec![]))));
    assert_eq!(parse("[[],{}]"), Ok(Some(Value::Array(vec![Value::Array(vec![]), object(vec![])]))));
}

#[test]
fn string_escapes_are_decoded() {
    assert_eq!(parse(r#""hello\nworld""#), Ok(Some(string("hello\nworld"))));
    assert_eq!(parse(r#""\"a\\b\"""#), Ok(Some(string("\"a\\b\""))));
    assert_eq!(parse(r#""a\/b""#), Ok(Some(string("a/b"))));
    assert_eq!(parse(r#"["\t","\r\n","\b\f"]"#), Ok(Some(Value::Array(vec![
        string("\t"),
        string("\r\n"),
        string("\u{8}\u{c}"),
    ]))));
}

#[test]
fn keys_are_decoded() {
    match value(r#"{"a\tb":1,"\"":2,"":3}"#) {
        Value::Object(object) => {
            assert_eq!(object.len(), 3);
            assert_eq!(object.get("a\tb"), Some(&number("1")));
            assert_eq!(object.get("\""), Some(&number("2")));
            assert_eq!(object.get(""), Some(&number("3")));
            assert_eq!(object.get("a\\tb"), None);
        }
        _ => panic!("Should be Object"),
    }
}

#[test]
fn last_duplicate_key_wins() {
    match value(r#"{"k":1,"k":2}"#) {
        Value::Object(object) => {
            assert_eq!(object.get("k"), Some(&number("2")));
            assert_eq!(object.len(), 1);
        }
        _ => panic!("Should be Object"),
    }
    match value(r#"{"k":1,"j":[],"k":{"k":null},"j":false,"k":"z"}"#) {
        Value::Object(object) => {
            assert_eq!(object.get("k"), Some(&string("z")));
            assert_eq!(object.get("j"), Some(&Value::Bool(false)));
            assert_eq!(object.len(), 2);
        }
        _ => panic!("Should be Object"),
    }
}

#[test]
fn trailing_comma_is_refused() {
    assert_eq!(parse(r#"{"a":1,}"#), Err(Error::InvalidToken));
    assert_eq!(parse(r#"{"a":1 , }"#), Err(Error::InvalidToken));
    assert_eq!(parse("[1,]"), Err(Error::InvalidToken));
    assert_eq!(parse("[1 , ]"), Err(Error::InvalidToken));
    assert_eq!(parse("[,]"), Err(Error::InvalidToken));
    assert_eq!(parse("{,}"), Err(Error::InvalidToken));
}

#[test]
fn malformed_escape_is_refused() {
    assert_eq!(parse(r#""\q""#), Err(Error::InvalidEscapeChar));
    assert_eq!(parse(r#""\u0041""#), Err(Error::InvalidEscapeChar));
    assert_eq!(parse(r#"["a","\x"]"#), Err(Error::InvalidEscapeChar));
    assert_eq!(parse(r#"{"\x":1}"#), Err(Error::InvalidEscapeChar));
    assert_eq!(parse(r#"{"a":"\x"}"#), Err(Error::InvalidEscapeChar));
}

#[test]
fn whitespace_between_tokens_changes_nothing() {
    let compact = r#"[1,{"a":[true,null],"b":{}},"x y",-0.5e+1,[],false]"#;
    let spaced = "\n [ 1 ,\t{ \"a\" : [ true\r\n, null ] , \"b\"\n:\n{} }, \"x y\"  ,  -0.5e+1 ,[\n]\t,false ] \n";
    let expected = Value::Array(vec![
        number("1"),
        object(vec![
            ("a", Value::Array(vec![Value::Bool(true), Value::Null])),
            ("b", object(vec![])),
        ]),
        string("x y"),
        number("-0.5e+1"),
        Value::Array(vec![]),
        Value::Bool(false),
    ]);
    assert_eq!(parse(compact), Ok(Some(expected)));
    assert_eq!(parse(spaced), parse(compact));

    let failing = r#"{"a":[1,2}"#;
    let failing_spaced = " { \"a\" :\t[ 1 , 2\n} ";
    assert_eq!(parse(failing), Err(Error::InvalidToken));
    assert_eq!(parse(failing_spaced), parse(failing));

    assert_eq!(parse(r#"{"a":"#), Err(Error::EOF));
    assert_eq!(parse("{ \"a\" : \n"), Err(Error::EOF));
}

#[test]
fn whitespace_inside_the_empty_object_is_refused() {
    assert_eq!(parse("{}"), Ok(Some(object(vec![]))));
    assert_eq!(parse("{ }"), Err(Error::InvalidToken));
    assert_eq!(parse("{\n}"), Err(Error::InvalidToken));
    assert_eq!(parse("[{ }]"), Err(Error::InvalidToken));
    assert_eq!(parse(" {} "), Ok(Some(object(vec![]))));
}

#[test]
fn shape_follows_the_literal() {
    let input = r#"{"a":[1,[2,[3,[]]],{"b":{"c":[{"d":null}]}}],"e":{},"f":[[],[[]]]}"#;
    match value(input) {
        Value::Object(top) => {
            assert_eq!(top.len(), 3);
            match top.get("a").unwrap() {
                Value::Array(a) => {
                    assert_eq!(a.len(), 3);
                    assert_eq!(a[0], number("1"));
                    assert_eq!(
                        a[1],
                        Value::Array(vec![
                            number("2"),
                            Value::Array(vec![number("3"), Value::Array(vec![])]),
                        ])
                    );
                    assert_eq!(
                        a[2],
                        object(vec![(
                            "b",
                            object(vec![("c", Value::Array(vec![object(vec![("d", Value::Null)])]))]),
                        )])
                    );
                }
                _ => panic!("Should be Array"),
            }
            assert_eq!(top.get("e"), Some(&object(vec![])));
            assert_eq!(
                top.get("f"),
                Some(&Value::Array(vec![
                    Value::Array(vec![]),
                    Value::Array(vec![Value::Array(vec![])]),
                ]))
            );
            assert_eq!(top.get("b"), None);
            assert_eq!(top.get("d"), None);
        }
        _ => panic!("Should be Object"),
    }
}

#[test]
fn array_keeps_every_element_in_order() {
    assert_eq!(
        parse(r#"[1,"1",1,null,null,true,[1],1]"#),
        Ok(Some(Value::Array(vec![
            number("1"),
            string("1"),
            number("1"),
            Value::Null,
            Value::Null,
            Value::Bool(true),
            Value::Array(vec![number("1")]),
            number("1"),
        ])))
    );
}

#[test]
fn scalars_at_top_level() {
    assert_eq!(parse("null"), Ok(Some(Value::Null)));
    assert_eq!(parse("true"), Ok(Some(Value::Bool(true))));
    assert_eq!(parse("false"), Ok(Some(Value::Bool(false))));
    assert_eq!(parse("\"\""), Ok(Some(string(""))));
    assert_eq!(parse(" \t\n\r0"), Ok(Some(number("0"))));
}

#[test]
fn what_follows_the_value_is_not_read() {
    assert_eq!(parse("1 2"), Ok(Some(number("1"))));
    assert_eq!(parse("01"), Ok(Some(number("0"))));
    assert_eq!(parse("[]]"), Ok(Some(Value::Array(vec![]))));
    assert_eq!(parse("{}@"), Ok(Some(object(vec![]))));
    assert_eq!(parse("null\"unfinished"), Ok(Some(Value::Null)));
    assert_eq!(parse("1.5.5"), Ok(Some(number("1.5"))));

    let mut deserializer = Deserializer::new("[1] [2]\ttrue x");
    assert_eq!(deserializer.parse(), Ok(Some(Value::Array(vec![number("1")]))));
    assert_eq!(deserializer.parse(), Ok(Some(Value::Array(vec![number("2")]))));
    assert_eq!(deserializer.parse(), Ok(Some(Value::Bool(true))));
    assert_eq!(deserializer.parse(), Err(Error::InvalidToken));
    assert_eq!(deserializer.parse(), Err(Error::InvalidToken));
}

#[test]
fn leading_zero_falls_through() {
    assert_eq!(parse("[01]"), Err(Error::InvalidToken));
    assert_eq!(parse(r#"{"a":00}"#), Err(Error::InvalidToken));
    assert_eq!(parse("[0,1]"), Ok(Some(Value::Array(vec![number("0"), number("1")]))));
    assert_eq!(parse("[0e5]"), Ok(Some(Value::Array(vec![number("0e5")]))));
    assert_eq!(parse("[0x5]"), Err(Error::InvalidToken));
}

#[test]
fn end_of_input_is_reported() {
    for input in ["", " ", "\n\t", "[", "[ ", "[1,", "[1, ", "{", "{\"a\":", "{\"a\":1,", "[\"a", "{\"a", "[[", "[{"] {
        assert_eq!(parse(input), Err(Error::EOF), "{:?}", input);
    }
}

#[test]
fn grammar_errors_are_invalid_tokens() {
    for input in [
        "]", "}", ",", ":", "[1", "[1 ", "[1 2]", "[1:2]", "[1}", "{\"a\"", "{\"a\" ", "{\"a\"}",
        "{\"a\",1}", "{\"a\":1", "{\"a\":1 ", "{\"a\":1]", "{\"a\":1 \"b\":2}", "{1:2}", "{a:1}",
        "{[]:1}", "{null:1}", "{\"a\"::1}", "{\"a\":}", "[:]", "[}", "{]", "tru", "nul", "@",
        "[tru]", "{\"a\":nul}",
    ] {
        assert_eq!(parse(input), Err(Error::InvalidToken), "{:?}", input);
    }
}

#[test]
fn number_errors_are_reported() {
    for input in ["-", "1.", "[1.]", "[-]", "{\"a\":1.5e}", "-a", "[1.5e+]", "0.e1", "1e", "[1e]", "[2E-]"] {
        assert_eq!(parse(input), Err(Error::InvalidNumber), "{:?}", input);
    }
}

#[test]
fn first_error_is_the_one_reported() {
    assert_eq!(parse(r#"[1.,"\q"]"#), Err(Error::InvalidNumber));
    assert_eq!(parse(r#"["\q",1.]"#), Err(Error::InvalidEscapeChar));
    assert_eq!(parse(r#"[@,"\q",1.]"#), Err(Error::InvalidToken));
    assert_eq!(parse(r#"{"a":[1,{"b":"x"#), Err(Error::EOF));
}

#[test]
fn cursor_stops_behind_the_value() {
    let mut deserializer = Deserializer::new(" {\"a\":[1,2]} ,");
    assert!(deserializer.parse().is_ok());
    assert_eq!(deserializer.parse(), Err(Error::InvalidToken));
}

fn nested(open: &str, close: &str, depth: usize) -> String {
    let mut input = String::new();
    for _ in 0..depth {
        input.push_str(open);
    }
    for _ in 0..depth {
        input.push_str(close);
    }
    input
}

#[test]
fn nesting_up_to_the_limit() {
    assert_eq!(MAX_DEPTH, 128);
    let mut current = value(&nested("[", "]", MAX_DEPTH));
    let mut seen = 0;
    loop {
        match current {
            Value::Array(mut items) => {
                seen += 1;
                if items.is_empty() {
                    break;
                }
                assert_eq!(items.len(), 1);
                current = items.pop().unwrap();
            }
            _ => panic!("Should be Array"),
        }
    }
    assert_eq!(seen, MAX_DEPTH);

    assert!(parse(&nested("[ ", " ]", MAX_DEPTH - 1)).is_ok());
    assert!(parse(&nested("{\"a\":", "}", MAX_DEPTH - 1).replace(":}", ":1}")).is_ok());
    assert!(parse(&nested("[{\"a\":", "}]", MAX_DEPTH / 2).replace(":}", ":[]}")).is_err());
    assert!(parse(&nested("[{\"a\":", "}]", MAX_DEPTH / 2).replace(":}", ":0}")).is_ok());
}

#[test]
fn nesting_beyond_the_limit_is_refused() {
    assert_eq!(parse(&nested("[", "]", MAX_DEPTH + 1)), Err(Error::InvalidToken));
    assert_eq!(parse(&nested("[", "]", 100_000)), Err(Error::InvalidToken));
    assert_eq!(parse(&nested("[", "", 100_000)), Err(Error::InvalidToken));
    assert_eq!(
        parse(&nested("{\"a\":", "}", MAX_DEPTH + 1).replace(":}", ":1}")),
        Err(Error::InvalidToken)
    );
    assert_eq!(parse(&nested("{\"a\":", "", MAX_DEPTH + 1)), Err(Error::InvalidToken));

    let wide: String = nested("[", "]", MAX_DEPTH) + " " + &nested("[", "]", MAX_DEPTH);
    let mut deserializer = Deserializer::new(&wide);
    assert!(deserializer.parse().is_ok());
    assert!(deserializer.parse().is_ok());
    assert_eq!(deserializer.parse(), Err(Error::EOF));

    let siblings = "[".to_string() + &vec![nested("[", "]", MAX_DEPTH - 1); 50].join(",") + "]";
    assert!(parse(&siblings).is_ok());

    let mut deserializer = Deserializer::new(&(nested("[", "", MAX_DEPTH + 1) + "7]"));
    assert_eq!(deserializer.parse(), Err(Error::InvalidToken));
    assert_eq!(deserializer.parse(), Ok(Some(number("7"))));
    assert_eq!(deserializer.parse(), Err(Error::InvalidToken));
}

#[test]
fn equality_ignores_the_order_of_members() {
    assert_eq!(parse(r#"{"a":1,"b":[{"c":2,"d":3}]}"#), parse(r#"{"b":[{"d":3,"c":2}],"a":1}"#));
    assert_eq!(value(r#"{"a":1,"b":2}"#), object(vec![("b", number("2")), ("a", number("1"))]));
    assert_ne!(value(r#"{"a":1,"b":2}"#), value(r#"{"a":2,"b":1}"#));
    assert_ne!(value(r#"{"a":1,"b":2}"#), value(r#"{"a":1}"#));
    assert_ne!(value(r#"{"a":1}"#), value(r#"{"a":1,"b":2}"#));
    assert_ne!(value(r#"{"a":1,"b":2}"#), value(r#"{"a":1,"c":2}"#));
    assert_ne!(value("[1,2]"), value("[2,1]"));
    assert_ne!(value("[1,2]"), value("[1,2,3]"));
    assert_ne!(value("[]"), value("{}"));
    assert_ne!(value("\"1\""), value("1"));
    assert_ne!(value("1.0"), value("1"));
    assert_ne!(value("null"), value("false"));
    assert!(value(r#"[{"a":[1,{"b":null}]}]"#).same(&value(r#" [ {"a" : [1, {"b":null} ] } ] "#)));
    assert!(!value("true").same(&value("false")));
}

#[test]
fn object_members() {
    let mut object = Object::new();
    assert!(object.is_empty());
    assert_eq!(object.len(), 0);
    assert_eq!(object.get("a"), None);

    object.insert("a".to_string(), number("1"));
    object.insert("b".to_string(), Value::Null);
    assert!(!object.is_empty());
    assert_eq!(object.len(), 2);
    assert_eq!(object.get("a"), Some(&number("1")));
    assert_eq!(object.get("b"), Some(&Value::Null));
    assert_eq!(object.get("c"), None);
    assert_eq!(object.get("A"), None);
    assert_eq!(object.get(""), None);

    object.insert("a".to_string(), string("again"));
    assert_eq!(object.len(), 2);
    assert_eq!(object.get("a"), Some(&string("again")));
    assert_eq!(object.get("b"), Some(&Value::Null));

    object.insert("".to_string(), Value::Bool(true));
    assert_eq!(object.len(), 3);
    assert_eq!(object.get(""), Some(&Value::Bool(true)));
}
