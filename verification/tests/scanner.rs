use miette::lex::{scan_tokens, Token, TokenKind};

fn scan(src: &str) -> Vec<Token> {
    scan_tokens(src).expect("expected a successful scan")
}

fn kinds(src: &str) -> Vec<TokenKind> {
    scan(src).into_iter().map(|t| t.kind).collect()
}

#[test]
fn empty_source_gives_only_the_sentinel() {
    let toks = scan("");
    assert_eq!(toks.len(), 1);
    assert_eq!(toks[0].kind, TokenKind::EOF);
    assert_eq!(toks[0].line, 1);
    assert_eq!(toks[0].id, 0);
}

#[test]
fn every_scan_ends_with_the_sentinel_and_nothing_follows_it() {
    for src in ["", "a", "1 + 2", "var x;", "\n\n", "print \"hi\";"] {
        let toks = scan(src);
        assert!(!toks.is_empty());
        assert_eq!(toks.last().unwrap().kind, TokenKind::EOF);
        for t in &toks[..toks.len() - 1] {
            assert_ne!(t.kind, TokenKind::EOF);
        }
    }
}

#[test]
fn ids_count_up_and_lines_never_decrease() {
    let toks = scan("var x = 1;\nprint x;\n{ x }");
    for (k, t) in toks.iter().enumerate() {
        assert_eq!(t.id, k);
    }
    for w in toks.windows(2) {
        assert!(w[0].line <= w[1].line);
    }
}

#[test]
fn quoted_text_round_trips_without_quotes() {
    let toks = scan("\"abc\"");
    assert_eq!(toks.len(), 2);
    assert_eq!(toks[0].kind, TokenKind::Text(String::from("abc")));
    assert_eq!(toks[0].lexeme, "abc");
    assert_eq!(toks[0].line, 1);
    assert_eq!(toks[1].kind, TokenKind::EOF);
}

#[test]
fn maximal_munch_prefers_the_two_character_operator() {
    let toks = scan("==");
    assert_eq!(toks.len(), 2);
    assert_eq!(toks[0].kind, TokenKind::EqualEqual);
    assert_eq!(toks[0].lexeme, "==");
    assert_eq!(toks[1].kind, TokenKind::EOF);
}

#[test]
fn all_two_character_operators() {
    assert_eq!(
        kinds("== ;"),
        vec![TokenKind::EqualEqual, TokenKind::SemiColon, TokenKind::EOF]
    );
    assert_eq!(
        kinds("!= ;"),
        vec![TokenKind::BangEqual, TokenKind::SemiColon, TokenKind::EOF]
    );
    assert_eq!(
        kinds("<= ;"),
        vec![TokenKind::LessEqual, TokenKind::SemiColon, TokenKind::EOF]
    );
    assert_eq!(
        kinds(">= ;"),
        vec![TokenKind::GreaterEqual, TokenKind::SemiColon, TokenKind::EOF]
    );
}

#[test]
fn single_character_operators_when_no_equals_follows() {
    assert_eq!(
        kinds("= ;"),
        vec![TokenKind::Equal, TokenKind::SemiColon, TokenKind::EOF]
    );
    assert_eq!(
        kinds("! ;"),
        vec![TokenKind::Bang, TokenKind::SemiColon, TokenKind::EOF]
    );
    assert_eq!(
        kinds("< ;"),
        vec![TokenKind::Less, TokenKind::SemiColon, TokenKind::EOF]
    );
    assert_eq!(
        kinds("> ;"),
        vec![TokenKind::Greater, TokenKind::SemiColon, TokenKind::EOF]
    );
}

#[test]
fn keyword_wins_on_exact_match_only() {
    let toks = scan("print");
    assert_eq!(toks[0].kind, TokenKind::Print);
    assert_eq!(toks[0].lexeme, "print");
    let toks = scan("printer");
    assert_eq!(toks[0].kind, TokenKind::Identifier(String::from("printer")));
    assert_eq!(toks[0].lexeme, "printer");
}

#[test]
fn all_keywords_are_recognized() {
    let table = [
        ("and", TokenKind::And),
        ("or", TokenKind::Or),
        ("if", TokenKind::If),
        ("else", TokenKind::Else),
        ("fun", TokenKind::Fun),
        ("return", TokenKind::Return),
        ("while", TokenKind::While),
        ("for", TokenKind::For),
        ("var", TokenKind::Var),
        ("class", TokenKind::Class),
        ("super", TokenKind::Super),
        ("this", TokenKind::This),
        ("nil", TokenKind::Nil),
        ("true", TokenKind::True),
        ("false", TokenKind::False),
        ("print", TokenKind::Print),
        ("break", TokenKind::Break),
        ("continue", TokenKind::Continue),
    ];
    for (word, kind) in table {
        let toks = scan(word);
        assert_eq!(toks.len(), 2);
        assert_eq!(toks[0].kind, kind);
        assert_eq!(toks[0].lexeme, word);
    }
}

#[test]
fn keyword_matching_is_case_sensitive() {
    let toks = scan("Print");
    assert_eq!(toks[0].kind, TokenKind::Identifier(String::from("Print")));
}

#[test]
fn numeric_literals_keep_their_exact_source_text() {
    let toks = scan("3.14");
    assert_eq!(toks.len(), 2);
    match &toks[0].kind {
        TokenKind::Number(s) => {
            assert_eq!(s, "3.14");
            assert_eq!(s.parse::<f64>().unwrap(), 3.14);
        }
        other => panic!("expected a number token, got {:?}", other),
    }
    assert_eq!(toks[0].lexeme, "3.14");

    let toks = scan("42");
    match &toks[0].kind {
        TokenKind::Number(s) => {
            assert_eq!(s, "42");
            assert_eq!(s.parse::<f64>().unwrap(), 42.0);
        }
        other => panic!("expected a number token, got {:?}", other),
    }
}

#[test]
fn a_trailing_lone_decimal_point_stays_in_the_numeral() {
    let toks = scan("42.");
    match &toks[0].kind {
        TokenKind::Number(s) => {
            assert_eq!(s, "42.");
            assert_eq!(s.parse::<f64>().unwrap(), 42.0);
        }
        other => panic!("expected a number token, got {:?}", other),
    }
}

#[test]
fn a_numeral_stops_before_an_identifier() {
    assert_eq!(
        kinds("42abc"),
        vec![
            TokenKind::Number(String::from("42")),
            TokenKind::Identifier(String::from("abc")),
            TokenKind::EOF
        ]
    );
}

#[test]
fn a_leading_decimal_point_is_a_dot_token() {
    assert_eq!(
        kinds(".5"),
        vec![TokenKind::Dot, TokenKind::Number(String::from("5")), TokenKind::EOF]
    );
}

#[test]
fn line_tracking_across_newlines() {
    let toks = scan("a\nb");
    assert_eq!(toks.len(), 3);
    assert_eq!(toks[0].kind, TokenKind::Identifier(String::from("a")));
    assert_eq!(toks[0].line, 1);
    assert_eq!(toks[1].kind, TokenKind::Identifier(String::from("b")));
    assert_eq!(toks[1].line, 2);
}

#[test]
fn punctuation_marks_each_emit_their_token() {
    assert_eq!(
        kinds("(){}[],:;.+-*/"),
        vec![
            TokenKind::LeftParen,
            TokenKind::RightParen,
            TokenKind::LeftBracket,
            TokenKind::RightBracket,
            TokenKind::LeftSBracket,
            TokenKind::RightSBracket,
            TokenKind::Comma,
            TokenKind::Colon,
            TokenKind::SemiColon,
            TokenKind::Dot,
            TokenKind::Plus,
            TokenKind::Minus,
            TokenKind::Star,
            TokenKind::Slash,
            TokenKind::EOF,
        ]
    );
}

#[test]
fn punctuation_lexemes_are_the_source_characters() {
    let toks = scan("{*}");
    assert_eq!(toks[0].lexeme, "{");
    assert_eq!(toks[1].lexeme, "*");
    assert_eq!(toks[2].lexeme, "}");
}

#[test]
fn whitespace_other_than_newline_is_skipped() {
    assert_eq!(
        kinds(" \t\r a \t"),
        vec![TokenKind::Identifier(String::from("a")), TokenKind::EOF]
    );
}

#[test]
fn unrecognized_characters_are_silently_skipped() {
    assert_eq!(
        kinds("a # b @ c"),
        vec![
            TokenKind::Identifier(String::from("a")),
            TokenKind::Identifier(String::from("b")),
            TokenKind::Identifier(String::from("c")),
            TokenKind::EOF
        ]
    );
}

#[test]
fn identifiers_may_hold_underscores_and_digits() {
    let toks = scan("_foo1 bar_2");
    assert_eq!(toks[0].kind, TokenKind::Identifier(String::from("_foo1")));
    assert_eq!(toks[1].kind, TokenKind::Identifier(String::from("bar_2")));
}

#[test]
fn escaped_characters_pass_through_literally() {
    // source: "a\"b" — the escaped quote does not close the literal
    let toks = scan("\"a\\\"b\"");
    assert_eq!(toks[0].kind, TokenKind::Text(String::from("a\"b")));
    // source: "a\\b" — an escaped backslash stays a single backslash
    let toks = scan("\"a\\\\b\"");
    assert_eq!(toks[0].kind, TokenKind::Text(String::from("a\\b")));
    // source: "a\nb" with a real newline escaped — taken literally
    let toks = scan("\"a\\\nb\"");
    assert_eq!(toks[0].kind, TokenKind::Text(String::from("a\nb")));
}

#[test]
fn a_text_literal_may_span_lines_and_keeps_its_starting_line() {
    let toks = scan("\"a\nb\"c");
    assert_eq!(toks[0].kind, TokenKind::Text(String::from("a\nb")));
    assert_eq!(toks[0].line, 1);
    assert_eq!(toks[1].kind, TokenKind::Identifier(String::from("c")));
    assert_eq!(toks[1].line, 2);
}

#[test]
fn a_small_program_scans_to_the_expected_stream() {
    let toks = scan("var x = 1.5;\nif (x >= 1) { print \"big\"; }");
    let expected = vec![
        TokenKind::Var,
        TokenKind::Identifier(String::from("x")),
        TokenKind::Equal,
        TokenKind::Number(String::from("1.5")),
        TokenKind::SemiColon,
        TokenKind::If,
        TokenKind::LeftParen,
        TokenKind::Identifier(String::from("x")),
        TokenKind::GreaterEqual,
        TokenKind::Number(String::from("1")),
        TokenKind::RightParen,
        TokenKind::LeftBracket,
        TokenKind::Print,
        TokenKind::Text(String::from("big")),
        TokenKind::SemiColon,
        TokenKind::RightBracket,
        TokenKind::EOF,
    ];
    let got: Vec<TokenKind> = toks.iter().map(|t| t.kind.clone()).collect();
    assert_eq!(got, expected);
    assert_eq!(toks[5].line, 2);
}
