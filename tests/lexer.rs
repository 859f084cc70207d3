use rustjson::lexer::{
    lex, lex_loose, read_alphanumeric, read_non_whitespace, read_num, read_str, skip_whitespace,
    Token,
};

#[test]
fn lexer_test_lex() {
    let tests = [
        ("  ", vec![Token::EOF]),
        (" 1 ", vec![Token::NUM("1"), Token::EOF]),
        ("\"a\"", vec![Token::STRING("a"), Token::EOF]),
        (
            "1 \"a\" ",
            vec![Token::NUM("1"), Token::STRING("a"), Token::EOF],
        ),
        ("{", vec![Token::LBRACE, Token::EOF]),
        ("}", vec![Token::RBRACE, Token::EOF]),
        ("[", vec![Token::LBRACKET, Token::EOF]),
        ("]", vec![Token::RBRACKET, Token::EOF]),
        (":", vec![Token::COLON, Token::EOF]),
        (",", vec![Token::COMMA, Token::EOF]),
        ("true", vec![Token::BOOL("true"), Token::EOF]),
        ("false", vec![Token::BOOL("false"), Token::EOF]),
        ("null", vec![Token::NULL, Token::EOF]),
    ];

    for test in tests.iter() {
        let (e, v) = test;
        let got = lex(e, 0);
        assert_eq!(got, v.clone(), "'{}'", e);
    }
}

#[test]
fn test_read_alphanumeric() {
    let tests = [
        ("true ", "true", 4),
        ("false ", "false", 5),
        ("null ", "null", 4),
        ("asdfasdf\n\t  ", "asdfasdf", 8),
    ];

    for test in tests.iter() {
        let (e, t, i) = test;
        let got = read_alphanumeric(e, 0);
        assert_eq!(got, (*t, *i));
    }
}

#[test]
fn lexer_test_skip_whitespace() {
    let tests = [(" a", 1), ("  v", 2), ("   k", 3), ("a   k", 0)];

    for test in tests.iter() {
        let (e, i) = test;
        let got = skip_whitespace(e, 0);
        assert_eq!(got, *i, "{}", e);
    }
}

#[test]
fn lexer_tokenize_str() {
    let tests = [
        ("\"a\"", Token::STRING("a"), 3),
        ("\"ab\"", Token::STRING("ab"), 4),
        ("\"abc\"", Token::STRING("abc"), 5),
    ];

    for test in tests.iter() {
        let (e, t, i) = test;
        let got = read_str(e, 0);
        assert_eq!(got, (t.clone(), *i));
    }
}

#[test]
fn lexer_tokenize_num() {
    let tests = [
        ("1", Token::NUM("1"), 1),
        ("2", Token::NUM("2"), 1),
        ("21", Token::NUM("21"), 2),
        ("123", Token::NUM("123"), 3),
    ];

    for test in tests.iter() {
        let (e, t, i) = test;
        let got = read_num(e, 0);
        assert_eq!(got, (t.clone(), *i));
    }
}

#[test]
fn main_test_lex() {
    let tests = [
        ("  ", vec![Token::EOF]),
        (" 1 ", vec![Token::NUM("1"), Token::EOF]),
        ("\"a\"", vec![Token::STRING("a"), Token::EOF]),
        (
            "1 \"a\" ",
            vec![Token::NUM("1"), Token::STRING("a"), Token::EOF],
        ),
        ("{", vec![Token::LBRACE, Token::EOF]),
        ("}", vec![Token::RBRACE, Token::EOF]),
        ("[", vec![Token::LBRACKET, Token::EOF]),
        ("]", vec![Token::RBRACKET, Token::EOF]),
        (":", vec![Token::COLON, Token::EOF]),
        (",", vec![Token::COMMA, Token::EOF]),
        ("true", vec![Token::BOOL("true"), Token::EOF]),
        ("false", vec![Token::BOOL("false"), Token::EOF]),
        ("null", vec![Token::NULL, Token::EOF]),
    ];

    for test in tests.iter() {
        let (e, v) = test;
        let got = lex_loose(e, 0);
        assert_eq!(got, v.clone(), "{}", e);
    }
}

#[test]
fn test_read_non_whitespace() {
    let tests = [
        ("true ", "true", 4),
        ("false ", "false", 5),
        ("null ", "null", 4),
        ("asdfasdf\n\t  ", "asdfasdf", 8),
        ("%#$@()", "%#$@()", 6),
    ];

    for test in tests.iter() {
        let (e, t, i) = test;
        let got = read_non_whitespace(e, 0);
        assert_eq!(got, (*t, *i));
    }
}

#[test]
fn main_test_skip_whitespace() {
    let tests = [(" a", 1), ("  v", 2), ("   k", 3), ("a   k", 0)];

    for test in tests.iter() {
        let (e, i) = test;
        let got = skip_whitespace(e, 0);
        assert_eq!(got, *i, "{}", e);
    }
}

#[test]
fn main_tokenize_str() {
    let tests = [
        ("\"a\"", Token::STRING("a"), 3),
        ("\"ab\"", Token::STRING("ab"), 4),
        ("\"abc\"", Token::STRING("abc"), 5),
    ];

    for test in tests.iter() {
        let (e, t, i) = test;
        let got = read_str(e, 0);
        assert_eq!(got, (t.clone(), *i));
    }
}

#[test]
fn main_tokenize_num() {
    let tests = [
        ("1", Token::NUM("1"), 1),
        ("2", Token::NUM("2"), 1),
        ("21", Token::NUM("21"), 2),
        ("123", Token::NUM("123"), 3),
    ];

    for test in tests.iter() {
        let (e, t, i) = test;
        let got = read_num(e, 0);
        assert_eq!(got, (t.clone(), *i));
    }
}

#[test]
fn whitespace_only_gives_end_marker() {
    for e in ["", " ", " \t\n\r ", "\x0c\n"] {
        assert_eq!(lex(e, 0), vec![Token::EOF]);
        assert_eq!(lex_loose(e, 0), vec![Token::EOF]);
    }
    assert_eq!(lex("   ", 2), vec![Token::EOF]);
    assert_eq!(lex("ab", 7), vec![Token::EOF]);
}

#[test]
fn digit_run_gives_one_number() {
    for d in ["0", "7", "42", "000123", "98765432109876543210"] {
        assert_eq!(lex(d, 0), vec![Token::NUM(d), Token::EOF]);
    }
}

#[test]
fn quoted_bytes_give_one_string() {
    assert_eq!(lex("\"\"", 0), vec![Token::STRING(""), Token::EOF]);
    assert_eq!(lex("\"a b\tc\"", 0), vec![Token::STRING("a b\tc"), Token::EOF]);
    assert_eq!(lex("\"h\u{e9}llo {}\"", 0), vec![Token::STRING("h\u{e9}llo {}"), Token::EOF]);
}

#[test]
fn unterminated_string_runs_to_end() {
    assert_eq!(read_str("\"abc", 0), (Token::STRING("abc"), 4));
    assert_eq!(read_str("x\"", 1), (Token::STRING(""), 2));
    assert_eq!(lex("[\"abc", 0), vec![Token::LBRACKET, Token::STRING("abc"), Token::EOF]);
}

#[test]
fn unknown_word_stops_lexing() {
    assert_eq!(
        lex("[1, tru, 2]", 0),
        vec![
            Token::LBRACKET,
            Token::NUM("1"),
            Token::COMMA,
            Token::ERROR("unexpected token tru, ch t, at pos 7".to_string()),
        ]
    );
    assert_eq!(
        lex("@", 0),
        vec![Token::ERROR("unexpected token , ch @, at pos 0".to_string())]
    );
    assert_eq!(
        lex("  nullx12 1", 0),
        vec![Token::ERROR("unexpected token nullx12, ch n, at pos 9".to_string())]
    );
}

#[test]
fn error_message_parts() {
    assert_eq!(
        lex("          @", 0),
        vec![Token::ERROR("unexpected token , ch @, at pos 10".to_string())]
    );
    assert_eq!(
        lex("\u{e9}", 0),
        vec![Token::ERROR("unexpected token , ch \u{c3}, at pos 0".to_string())]
    );
    assert_eq!(
        lex_loose("[x1234567890abc]", 0),
        vec![
            Token::LBRACKET,
            Token::ERROR("unexpected token x1234567890abc], ch x, at pos 16".to_string())
        ]
    );
}

#[test]
fn loose_words_run_to_whitespace() {
    assert_eq!(
        lex_loose("true,", 0),
        vec![Token::ERROR("unexpected token true,, ch t, at pos 5".to_string())]
    );
    assert_eq!(lex("true,", 0), vec![Token::BOOL("true"), Token::COMMA, Token::EOF]);
    assert_eq!(lex_loose("[ null ]", 0), vec![Token::LBRACKET, Token::NULL, Token::RBRACKET, Token::EOF]);
}

#[test]
fn lexing_from_an_offset() {
    assert_eq!(lex("1 2", 1), vec![Token::NUM("2"), Token::EOF]);
    assert_eq!(lex("12", 1), vec![Token::NUM("2"), Token::EOF]);
}

#[test]
fn token_text() {
    assert_eq!(Token::NUM("12").to_string(), "12");
    assert_eq!(Token::STRING("ab").to_string(), "ab");
    assert_eq!(Token::BOOL("false").to_string(), "false");
    assert_eq!(Token::ERROR("oops".to_string()).to_string(), "oops");
    assert_eq!(Token::LBRACE.to_string(), "{");
    assert_eq!(Token::RBRACE.to_string(), "}");
    assert_eq!(Token::LBRACKET.to_string(), "[");
    assert_eq!(Token::RBRACKET.to_string(), "]");
    assert_eq!(Token::COMMA.to_string(), ",");
    assert_eq!(Token::COLON.to_string(), ":");
    assert_eq!(Token::NULL.to_string(), "null");
    assert_eq!(Token::EOF.to_string(), "");
}
