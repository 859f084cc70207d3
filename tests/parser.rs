use rustjson::lexer::{lex, Token};
use rustjson::parser::{
    parse, parse_array, parse_member, parse_num, parse_object, parse_value, try_parse, Error,
    Value,
};

fn number(v: &Value) -> f32 {
    match v {
        Value::NUM(n) => n.parse().unwrap(),
        _ => panic!("not a number: {:?}", v),
    }
}

#[test]
fn test_array() {
    let tests = [
        ("[]", vec![], 2),
        ("[1]", vec![Value::NUM("1")], 3),
        ("[1,2]", vec![Value::NUM("1"), Value::NUM("2")], 5),
        (
            "[1,[4, 5]]",
            vec![
                Value::NUM("1"),
                Value::ARR(vec![Value::NUM("4"), Value::NUM("5")]),
            ],
            9,
        ),
    ];

    for test in tests.iter() {
        let (e, out, i) = test;
        let (got, got_i) = parse_array(&lex(e, 0), 0).expect("test case failed");
        assert_eq!(*out, got, "{}", e);
        assert_eq!(*i, got_i, "{}", e);
    }
    let (got, _) = parse_array(&lex("[1,[4, 5]]", 0), 0).unwrap();
    assert_eq!(number(&got[0]), 1.);
    match &got[1] {
        Value::ARR(inner) => {
            assert_eq!(number(&inner[0]), 4.);
            assert_eq!(number(&inner[1]), 5.);
        }
        other => panic!("not an array: {:?}", other),
    }
}

#[test]
fn test_parse_num() {
    let tests = [("1", Ok(1.)), ("21", Ok(21.)), ("123", Ok(123.))];

    for test in tests.iter() {
        let (e, out) = test;
        let token = &lex(e, 0)[0];
        let got = parse_num(token).map(|n| n.parse::<f32>().unwrap());
        assert_eq!(*out, got);
    }
}

#[test]
fn test_parse() {
    let tests = [
        ("1", Value::NUM("1")),
        ("21", Value::NUM("21")),
        ("123", Value::NUM("123")),
        (" \"asdf\"  ", Value::STR("asdf")),
        (
            "[1,2,3]",
            Value::ARR(vec![Value::NUM("1"), Value::NUM("2"), Value::NUM("3")]),
        ),
    ];

    for test in tests.iter() {
        let (e, out) = test;
        let got = parse(e);
        assert_eq!(*out, got);
    }
    assert_eq!(number(&parse("1")), 1.);
    assert_eq!(number(&parse("21")), 21.);
    assert_eq!(number(&parse("123")), 123.);
}

#[test]
fn digit_run_parses_to_its_number() {
    assert_eq!(parse("4096"), Value::NUM("4096"));
    assert_eq!(number(&parse("4096")), 4096.);
    assert_eq!(number(&parse("0")), 0.);
}

#[test]
fn quoted_bytes_parse_to_string() {
    assert_eq!(parse("\"hello world\""), Value::STR("hello world"));
    assert_eq!(parse("\"\""), Value::STR(""));
}

#[test]
fn arrays_and_cursor() {
    assert_eq!(parse("[]"), Value::ARR(vec![]));
    assert_eq!(
        parse("[1,2,3]"),
        Value::ARR(vec![Value::NUM("1"), Value::NUM("2"), Value::NUM("3")])
    );
    let tokens = lex("[1,2,3]", 0);
    assert_eq!(tokens.len(), 8);
    let (_, next) = parse_value(&tokens, 0).unwrap();
    assert_eq!(next, 7);
    let tokens = lex("[[1],[]] 5", 0);
    let (_, next) = parse_value(&tokens, 0).unwrap();
    assert_eq!(next, 8);
    assert_eq!(parse_value(&tokens, next).unwrap(), (Value::NUM("5"), 9));
}

#[test]
fn objects() {
    assert_eq!(parse("{}"), Value::OBJ(vec![]));
    assert_eq!(parse("{\"a\":1}"), Value::OBJ(vec![("a", Value::NUM("1"))]));
    assert_eq!(
        parse("{\"a\": 1, \"b\": [true, null]}"),
        Value::OBJ(vec![
            ("a", Value::NUM("1")),
            ("b", Value::ARR(vec![Value::BOOL(true), Value::NULL])),
        ])
    );
    let tokens = lex("{\"k\": \"v\"}", 0);
    assert_eq!(
        parse_object(&tokens, 0),
        Ok((vec![("k", Value::STR("v"))], 5))
    );
    assert_eq!(parse_member(&tokens, 1), Ok(("k", Value::STR("v"), 4)));
}

#[test]
fn duplicate_key_keeps_last_value() {
    assert_eq!(
        parse("{\"a\":1,\"b\":2,\"a\":3}"),
        Value::OBJ(vec![("a", Value::NUM("3")), ("b", Value::NUM("2"))])
    );
}

#[test]
fn literals() {
    assert_eq!(parse("true"), Value::BOOL(true));
    assert_eq!(parse("false"), Value::BOOL(false));
    assert_eq!(parse("null"), Value::NULL);
}

#[test]
fn nested_arrays() {
    assert_eq!(
        parse("[1,[4,5]]"),
        Value::ARR(vec![
            Value::NUM("1"),
            Value::ARR(vec![Value::NUM("4"), Value::NUM("5")]),
        ])
    );
    assert_eq!(
        parse("[[[]]]"),
        Value::ARR(vec![Value::ARR(vec![Value::ARR(vec![])])])
    );
}

#[test]
fn malformed_input() {
    assert_eq!(try_parse("[1,]"), Err(Error::ExpectedValueAfterComma));
    assert_eq!(try_parse("[1,"), Err(Error::ExpectedValueAfterComma));
    assert_eq!(try_parse("[1,2"), Err(Error::UnclosedArray));
    assert_eq!(try_parse("["), Err(Error::UnclosedArray));
    assert_eq!(try_parse("{\"a\":1"), Err(Error::UnclosedArray));
    assert_eq!(try_parse("{\"a\" 1}"), Err(Error::ExpectedColonInObj));
    assert_eq!(try_parse("{\"a\":1,}"), Err(Error::ExpectedValueAfterComma));
    assert_eq!(try_parse("[1 2]"), Err(Error::UnexpectedToken("2".to_string())));
    assert_eq!(try_parse("]"), Err(Error::UnexpectedToken("]".to_string())));
    assert_eq!(try_parse(""), Err(Error::UnexpectedToken("".to_string())));
    assert_eq!(try_parse("{1:2}"), Err(Error::UnexpectedToken("1".to_string())));
    assert_eq!(try_parse("{\"a\":}"), Err(Error::UnexpectedToken("}".to_string())));
    assert_eq!(
        try_parse("[1, @]"),
        Err(Error::UnexpectedToken("unexpected token , ch @, at pos 4".to_string()))
    );
}

#[test]
fn not_a_number() {
    assert_eq!(parse_num(&Token::COMMA), Err(Error::NotANumber(",".to_string())));
    assert_eq!(parse_num(&Token::NUM("1a")), Err(Error::NotANumber("1a".to_string())));
    assert_eq!(parse_num(&Token::NUM("")), Err(Error::NotANumber("".to_string())));
    assert_eq!(parse_value(&vec![Token::NUM("x")], 0), Err(Error::NotANumber("x".to_string())));
    assert_eq!(parse_num(&Token::NUM("12")), Ok("12"));
}

#[test]
fn trailing_tokens_are_ignored() {
    assert_eq!(parse("1 2"), Value::NUM("1"));
    assert_eq!(parse("[] ]"), Value::ARR(vec![]));
}

#[test]
fn parsing_is_deterministic() {
    let text = String::from("{\"a\":[1,{\"b\":null}],\"c\":\"d\"}");
    let copy = text.clone();
    assert_eq!(try_parse(&text), try_parse(&copy));
    assert_eq!(try_parse("[1,"), try_parse("[1,"));
}

#[test]
fn cloned_tree_is_equal() {
    let v = parse("{\"a\":[1,{\"b\":null}],\"c\":\"d\"}");
    assert_eq!(v.clone(), v);
}
