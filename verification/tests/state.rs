use miette::lex::{Token, TokenKind, Tokens};

#[test]
fn a_fresh_scanner_starts_at_line_one_with_nothing_consumed() {
    let t = Tokens::new("ab");
    assert_eq!(t.pos, 0);
    assert_eq!(t.current_line, 1);
    assert!(t.tokens.is_empty());
}

#[test]
fn advance_hands_out_the_characters_in_order() {
    let mut t = Tokens::new("ab");
    assert_eq!(t.advance(), Some('a'));
    assert_eq!(t.advance(), Some('b'));
    assert_eq!(t.advance(), None);
    assert_eq!(t.advance(), None);
}

#[test]
fn advance_counts_newlines() {
    let mut t = Tokens::new("a\n\nb");
    assert_eq!(t.advance(), Some('a'));
    assert_eq!(t.current_line, 1);
    assert_eq!(t.advance(), Some('\n'));
    assert_eq!(t.current_line, 2);
    assert_eq!(t.advance(), Some('\n'));
    assert_eq!(t.current_line, 3);
    assert_eq!(t.advance(), Some('b'));
    assert_eq!(t.current_line, 3);
}

#[test]
fn peek_looks_ahead_without_consuming() {
    let mut t = Tokens::new("xy");
    assert_eq!(t.peek(), Some('x'));
    assert_eq!(t.peek(), Some('x'));
    assert_eq!(t.pos, 0);
    assert_eq!(t.advance(), Some('x'));
    assert_eq!(t.peek(), Some('y'));
    assert_eq!(t.advance(), Some('y'));
    assert_eq!(t.peek(), None);
}

#[test]
fn token_new_keeps_its_parts() {
    let t = Token::new(3, TokenKind::Plus, String::from("+"), 5);
    assert_eq!(t.id, 3);
    assert_eq!(t.kind, TokenKind::Plus);
    assert_eq!(t.lexeme, "+");
    assert_eq!(t.line, 5);
}

#[test]
fn add_token_gives_each_token_the_next_ordinal() {
    let mut v: Vec<Token> = Vec::new();
    Token::add_token(&mut v, TokenKind::Plus, String::from("+"), 1);
    Token::add_token(&mut v, TokenKind::Minus, String::from("-"), 2);
    assert_eq!(v.len(), 2);
    assert_eq!(v[0].id, 0);
    assert_eq!(v[0].kind, TokenKind::Plus);
    assert_eq!(v[1].id, 1);
    assert_eq!(v[1].kind, TokenKind::Minus);
    assert_eq!(v[1].line, 2);
}
