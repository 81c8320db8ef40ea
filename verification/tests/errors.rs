use miette::error::MietteError;
use miette::lex::{scan_tokens, LexError};

#[test]
fn an_unterminated_text_literal_is_a_fatal_error() {
    let r = scan_tokens("var x = \"abc");
    assert_eq!(r, Err(LexError::UnterminatedText { line: 1 }));
}

#[test]
fn a_backslash_at_the_end_of_input_leaves_the_literal_unterminated() {
    let r = scan_tokens("\"abc\\");
    assert_eq!(r, Err(LexError::UnterminatedText { line: 1 }));
}

#[test]
fn an_unterminated_literal_reports_the_line_where_the_input_ended() {
    let r = scan_tokens("x\n\"ab\ncd");
    assert_eq!(r, Err(LexError::UnterminatedText { line: 3 }));
}

#[test]
fn each_dangling_operator_is_a_fatal_error() {
    for op in ['=', '!', '<', '>'] {
        let src = format!("var x {}", op);
        let r = scan_tokens(&src);
        assert_eq!(r, Err(LexError::DanglingOperator { op, line: 1 }));
    }
}

#[test]
fn a_dangling_operator_reports_its_line() {
    let r = scan_tokens("a\nb\nc =");
    assert_eq!(r, Err(LexError::DanglingOperator { op: '=', line: 3 }));
}

#[test]
fn a_second_decimal_point_is_a_malformed_numeral() {
    let r = scan_tokens("3.1.4");
    assert_eq!(r, Err(LexError::MalformedNumeral { line: 1 }));
    let r = scan_tokens("1..");
    assert_eq!(r, Err(LexError::MalformedNumeral { line: 1 }));
}

#[test]
fn error_lines_are_exposed_by_the_accessor() {
    assert_eq!(LexError::UnterminatedText { line: 7 }.line(), 7);
    assert_eq!(LexError::DanglingOperator { op: '<', line: 2 }.line(), 2);
    assert_eq!(LexError::MalformedNumeral { line: 9 }.line(), 9);
}

#[test]
fn error_messages_name_what_went_wrong() {
    let m = LexError::UnterminatedText { line: 1 }.message();
    assert_eq!(m, "Lexer Error: Expected a closing quote but got nothing");
    let m = LexError::DanglingOperator { op: '=', line: 1 }.message();
    assert_eq!(m, "Lexer Error: Expected token after equals but got nothing");
    let m = LexError::DanglingOperator { op: '!', line: 1 }.message();
    assert_eq!(m, "Lexer Error: Expected token after bang token but got nothing");
    let m = LexError::DanglingOperator { op: '<', line: 1 }.message();
    assert_eq!(m, "Lexer Error: Expected token after Less Than token but got nothing");
    let m = LexError::DanglingOperator { op: '>', line: 1 }.message();
    assert_eq!(
        m,
        "Lexer Error: Expected token after greater than token but got nothing"
    );
    let m = LexError::MalformedNumeral { line: 1 }.message();
    assert_eq!(m, "Lexer Error: Expected at most one decimal point in a number");
}

#[test]
fn a_lexical_error_converts_to_a_message_error() {
    let e = LexError::DanglingOperator { op: '=', line: 1 };
    let m = e.to_miette();
    assert_eq!(
        m.message(),
        "Lexer Error: Expected token after equals but got nothing"
    );
}

#[test]
fn miette_error_carries_its_message() {
    let e = MietteError::new(String::from("Failed to read the file contents"));
    assert_eq!(e.message(), "Failed to read the file contents");
}
