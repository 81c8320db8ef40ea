//! The scanner: source text in, token sequence (or first lexical error) out.

use vstd::prelude::*;
use vstd::string::*;

verus! {

/// The classified category of a token.
///
/// Three variants carry data. `Identifier` holds the identifier's name and
/// `Text` holds the decoded value of a quoted literal. `Number` holds the
/// numeral exactly as it stood in the source (a run of ASCII digits with at
/// most one decimal point); hosts that compute with numbers convert that text
/// to their numeric representation, which keeps floating point out of the
/// scanner itself.
#[derive(Debug, Clone, PartialEq, Eq)]
pub enum TokenKind {
    Identifier(String),
    Text(String),
    Number(String),
    LeftParen,
    RightParen,
    LeftBracket,
    RightBracket,
    LeftSBracket,
    RightSBracket,
    Plus,
    Minus,
    Star,
    Slash,
    Comma,
    Colon,
    SemiColon,
    Dot,
    Bang,
    BangEqual,
    Equal,
    EqualEqual,
    Greater,
    GreaterEqual,
    Less,
    LessEqual,
    And,
    Continue,
    Break,
    Class,
    Else,
    False,
    True,
    Fun,
    For,
    If,
    Nil,
    Or,
    Print,
    Return,
    Super,
    This,
    Var,
    While,
    EOF,
}

/// The mathematical value of a [`TokenKind`]: the same variants, with the
/// carried text abstracted to a sequence of characters.
#[verifier::ext_equal]
pub enum SpecKind {
    Identifier(Seq<char>),
    Text(Seq<char>),
    Number(Seq<char>),
    LeftParen,
    RightParen,
    LeftBracket,
    RightBracket,
    LeftSBracket,
    RightSBracket,
    Plus,
    Minus,
    Star,
    Slash,
    Comma,
    Colon,
    SemiColon,
    Dot,
    Bang,
    BangEqual,
    Equal,
    EqualEqual,
    Greater,
    GreaterEqual,
    Less,
    LessEqual,
    And,
    Continue,
    Break,
    Class,
    Else,
    False,
    True,
    Fun,
    For,
    If,
    Nil,
    Or,
    Print,
    Return,
    Super,
    This,
    Var,
    While,
    EOF,
}

impl View for TokenKind {
    type V = SpecKind;

    open spec fn view(&self) -> SpecKind {
        match self {
            TokenKind::Identifier(s) => SpecKind::Identifier(s@),
            TokenKind::Text(s) => SpecKind::Text(s@),
            TokenKind::Number(s) => SpecKind::Number(s@),
            TokenKind::LeftParen => SpecKind::LeftParen,
            TokenKind::RightParen => SpecKind::RightParen,
            TokenKind::LeftBracket => SpecKind::LeftBracket,
            TokenKind::RightBracket => SpecKind::RightBracket,
            TokenKind::LeftSBracket => SpecKind::LeftSBracket,
            TokenKind::RightSBracket => SpecKind::RightSBracket,
            TokenKind::Plus => SpecKind::Plus,
            TokenKind::Minus => SpecKind::Minus,
            TokenKind::Star => SpecKind::Star,
            TokenKind::Slash => SpecKind::Slash,
            TokenKind::Comma => SpecKind::Comma,
            TokenKind::Colon => SpecKind::Colon,
            TokenKind::SemiColon => SpecKind::SemiColon,
            TokenKind::Dot => SpecKind::Dot,
            TokenKind::Bang => SpecKind::Bang,
            TokenKind::BangEqual => SpecKind::BangEqual,
            TokenKind::Equal => SpecKind::Equal,
            TokenKind::EqualEqual => SpecKind::EqualEqual,
            TokenKind::Greater => SpecKind::Greater,
            TokenKind::GreaterEqual => SpecKind::GreaterEqual,
            TokenKind::Less => SpecKind::Less,
            TokenKind::LessEqual => SpecKind::LessEqual,
            TokenKind::And => SpecKind::And,
            TokenKind::Continue => SpecKind::Continue,
            TokenKind::Break => SpecKind::Break,
            TokenKind::Class => SpecKind::Class,
            TokenKind::Else => SpecKind::Else,
            TokenKind::False => SpecKind::False,
            TokenKind::True => SpecKind::True,
            TokenKind::Fun => SpecKind::Fun,
            TokenKind::For => SpecKind::For,
            TokenKind::If => SpecKind::If,
            TokenKind::Nil => SpecKind::Nil,
            TokenKind::Or => SpecKind::Or,
            TokenKind::Print => SpecKind::Print,
            TokenKind::Return => SpecKind::Return,
            TokenKind::Super => SpecKind::Super,
            TokenKind::This => SpecKind::This,
            TokenKind::Var => SpecKind::Var,
            TokenKind::While => SpecKind::While,
            TokenKind::EOF => SpecKind::EOF,
        }
    }
}

/// A classified, positioned unit of lexical output.
#[derive(Debug, Clone, PartialEq, Eq)]
pub struct Token {
    /// 0-based ordinal position of this token within the output sequence.
    pub id: usize,
    /// The classified category, carrying any associated value.
    pub kind: TokenKind,
    /// The source text that produced this token. For quoted text the
    /// surrounding quotes are not retained, so the lexeme equals the decoded
    /// value.
    pub lexeme: String,
    /// 1-based source line on which the token's first character appears.
    pub line: usize,
}

/// The mathematical value of a [`Token`]: its kind, lexeme and line. The
/// ordinal `id` is stated separately, as a property of the whole sequence.
#[verifier::ext_equal]
pub struct SpecToken {
    pub kind: SpecKind,
    pub lexeme: Seq<char>,
    pub line: nat,
}

impl View for Token {
    type V = SpecToken;

    open spec fn view(&self) -> SpecToken {
        SpecToken { kind: self.kind@, lexeme: self.lexeme@, line: self.line as nat }
    }
}

/// A fatal lexical error. Scanning stops at the first one; no tokens are
/// returned beside it. Each variant records the 1-based source line at which
/// the error was detected.
#[derive(Debug, Clone, Copy, PartialEq, Eq)]
pub enum LexError {
    /// A text literal was still open when the input ended.
    UnterminatedText { line: usize },
    /// One of `=`, `!`, `<`, `>` stood as the very last character of the
    /// input, with nothing after it to disambiguate the operator.
    DanglingOperator { op: char, line: usize },
    /// A numeral held more than one decimal point.
    MalformedNumeral { line: usize },
}

/// The human-readable description of a lexical error.
pub open spec fn spec_message(e: LexError) -> Seq<char> {
    match e {
        LexError::UnterminatedText { .. } => "Lexer Error: Expected a closing quote but got nothing"@,
        LexError::DanglingOperator { op, .. } => {
            if op == '=' {
                "Lexer Error: Expected token after equals but got nothing"@
            } else if op == '!' {
                "Lexer Error: Expected token after bang token but got nothing"@
            } else if op == '<' {
                "Lexer Error: Expected token after Less Than token but got nothing"@
            } else {
                "Lexer Error: Expected token after greater than token but got nothing"@
            }
        },
        LexError::MalformedNumeral { .. } => "Lexer Error: Expected at most one decimal point in a number"@,
    }
}

impl LexError {
    /// The 1-based source line at which the error was detected.
    pub fn line(&self) -> (r: usize)
        ensures
            r == (match *self {
                LexError::UnterminatedText { line } => line,
                LexError::DanglingOperator { line, .. } => line,
                LexError::MalformedNumeral { line } => line,
            }),
    {
        match *self {
            LexError::UnterminatedText { line } => line,
            LexError::DanglingOperator { line, .. } => line,
            LexError::MalformedNumeral { line } => line,
        }
    }

    /// The human-readable description of this error.
    pub fn message(&self) -> (r: String)
        ensures
            r@ == spec_message(*self),
    {
        match *self {
            LexError::UnterminatedText { .. } => String::from_str(
                "Lexer Error: Expected a closing quote but got nothing",
            ),
            LexError::DanglingOperator { op, .. } => {
                if op == '=' {
                    String::from_str("Lexer Error: Expected token after equals but got nothing")
                } else if op == '!' {
                    String::from_str("Lexer Error: Expected token after bang token but got nothing")
                } else if op == '<' {
                    String::from_str(
                        "Lexer Error: Expected token after Less Than token but got nothing",
                    )
                } else {
                    String::from_str(
                        "Lexer Error: Expected token after greater than token but got nothing",
                    )
                }
            },
            LexError::MalformedNumeral { .. } => String::from_str(
                "Lexer Error: Expected at most one decimal point in a number",
            ),
        }
    }

    /// Wraps this error's description into a [`crate::error::MietteError`].
    pub fn to_miette(&self) -> (r: crate::error::MietteError)
        ensures
            r@ == spec_message(*self),
    {
        crate::error::MietteError::new(self.message())
    }
}

// ---------------------------------------------------------------------------
// Character classification
// ---------------------------------------------------------------------------

/// An ASCII decimal digit.
pub open spec fn is_digit(c: char) -> bool {
    ('0' as u32) <= (c as u32) && (c as u32) <= ('9' as u32)
}

/// A character that may open an identifier: an ASCII letter or `_`.
pub open spec fn is_alpha(c: char) -> bool {
    (('a' as u32) <= (c as u32) && (c as u32) <= ('z' as u32))
        || (('A' as u32) <= (c as u32) && (c as u32) <= ('Z' as u32))
        || c == '_'
}

/// A character that may continue an identifier: a letter, digit or `_`.
pub open spec fn is_ident_char(c: char) -> bool {
    is_alpha(c) || is_digit(c)
}

/// Whitespace other than newline: skipped without emitting a token.
pub open spec fn is_ws(c: char) -> bool {
    c == ' ' || c == '\t' || c == '\r'
}

/// A character that opens a comparison/assignment operator and needs one
/// character of lookahead.
pub open spec fn is_op(c: char) -> bool {
    c == '=' || c == '!' || c == '<' || c == '>'
}

/// One of the fixed single-character punctuation marks.
pub open spec fn is_punct(c: char) -> bool {
    c == '(' || c == ')' || c == '{' || c == '}' || c == '[' || c == ']' || c == ',' || c == ':'
        || c == ';' || c == '+' || c == '-' || c == '*' || c == '/' || c == '.'
}

/// The token kind of a single-character punctuation mark.
pub open spec fn punct_kind(c: char) -> SpecKind {
    if c == '(' {
        SpecKind::LeftParen
    } else if c == ')' {
        SpecKind::RightParen
    } else if c == '{' {
        SpecKind::LeftBracket
    } else if c == '}' {
        SpecKind::RightBracket
    } else if c == '[' {
        SpecKind::LeftSBracket
    } else if c == ']' {
        SpecKind::RightSBracket
    } else if c == ',' {
        SpecKind::Comma
    } else if c == ':' {
        SpecKind::Colon
    } else if c == ';' {
        SpecKind::SemiColon
    } else if c == '+' {
        SpecKind::Plus
    } else if c == '-' {
        SpecKind::Minus
    } else if c == '*' {
        SpecKind::Star
    } else if c == '/' {
        SpecKind::Slash
    } else {
        SpecKind::Dot
    }
}

/// The token kind of a comparison/assignment operator standing alone.
pub open spec fn op1_kind(c: char) -> SpecKind {
    if c == '=' {
        SpecKind::Equal
    } else if c == '!' {
        SpecKind::Bang
    } else if c == '<' {
        SpecKind::Less
    } else {
        SpecKind::Greater
    }
}

/// The token kind of a comparison/assignment operator followed by `=`.
pub open spec fn op2_kind(c: char) -> SpecKind {
    if c == '=' {
        SpecKind::EqualEqual
    } else if c == '!' {
        SpecKind::BangEqual
    } else if c == '<' {
        SpecKind::LessEqual
    } else {
        SpecKind::GreaterEqual
    }
}

/// Keyword recognition: an exact, case-sensitive, full-token match against
/// the fixed keyword table; any other word is an identifier.
pub open spec fn keyword_or_ident(w: Seq<char>) -> SpecKind {
    if w == "and"@ {
        SpecKind::And
    } else if w == "or"@ {
        SpecKind::Or
    } else if w == "if"@ {
        SpecKind::If
    } else if w == "else"@ {
        SpecKind::Else
    } else if w == "fun"@ {
        SpecKind::Fun
    } else if w == "return"@ {
        SpecKind::Return
    } else if w == "while"@ {
        SpecKind::While
    } else if w == "for"@ {
        SpecKind::For
    } else if w == "var"@ {
        SpecKind::Var
    } else if w == "class"@ {
        SpecKind::Class
    } else if w == "super"@ {
        SpecKind::Super
    } else if w == "this"@ {
        SpecKind::This
    } else if w == "nil"@ {
        SpecKind::Nil
    } else if w == "true"@ {
        SpecKind::True
    } else if w == "false"@ {
        SpecKind::False
    } else if w == "print"@ {
        SpecKind::Print
    } else if w == "break"@ {
        SpecKind::Break
    } else if w == "continue"@ {
        SpecKind::Continue
    } else {
        SpecKind::Identifier(w)
    }
}

// ---------------------------------------------------------------------------
// The mathematical scanner
//
// Every mode of the scanner is first stated as a recursive function over the
// source character sequence and a cursor position; the executable code is
// then proved to compute exactly these functions.
// ---------------------------------------------------------------------------

/// The first position at or after `i` holding a character that cannot
/// continue an identifier.
pub open spec fn ident_end(s: Seq<char>, i: int) -> int
    decreases s.len() - i,
{
    if 0 <= i < s.len() && is_ident_char(s[i]) {
        ident_end(s, i + 1)
    } else {
        i
    }
}

/// The position at which a numeral starting at `i` stops: after a maximal
/// run of digits and at most one decimal point.
pub open spec fn num_end(s: Seq<char>, i: int, seen_dot: bool) -> int
    decreases s.len() - i,
{
    if 0 <= i < s.len() {
        if is_digit(s[i]) {
            num_end(s, i + 1, seen_dot)
        } else if s[i] == '.' && !seen_dot {
            num_end(s, i + 1, true)
        } else {
            i
        }
    } else {
        i
    }
}

/// Whether a numeral starting at `i` is well formed: it never runs into a
/// second decimal point.
pub open spec fn num_ok(s: Seq<char>, i: int, seen_dot: bool) -> bool
    decreases s.len() - i,
{
    if 0 <= i < s.len() {
        if is_digit(s[i]) {
            num_ok(s, i + 1, seen_dot)
        } else if s[i] == '.' {
            !seen_dot && num_ok(s, i + 1, true)
        } else {
            true
        }
    } else {
        true
    }
}

/// Whether a text literal whose content starts at `i` (just after the opening
/// quote) reaches a closing quote before the input ends. A backslash consumes
/// the following character verbatim, so an escaped quote does not close the
/// literal.
pub open spec fn text_closes(s: Seq<char>, i: int) -> bool
    decreases s.len() - i,
{
    if 0 <= i < s.len() {
        if s[i] == '"' {
            true
        } else if s[i] == '\\' {
            i + 1 < s.len() && text_closes(s, i + 2)
        } else {
            text_closes(s, i + 1)
        }
    } else {
        false
    }
}

/// The position just after the closing quote of a text literal whose content
/// starts at `i` (meaningful when `text_closes(s, i)` holds).
pub open spec fn text_end(s: Seq<char>, i: int) -> int
    decreases s.len() - i,
{
    if 0 <= i < s.len() {
        if s[i] == '"' {
            i + 1
        } else if s[i] == '\\' {
            if i + 1 < s.len() {
                text_end(s, i + 2)
            } else {
                i
            }
        } else {
            text_end(s, i + 1)
        }
    } else {
        i
    }
}

/// The decoded value of a text literal whose content starts at `i`: every
/// content character in order, with each backslash dropped and the character
/// after it taken literally.
pub open spec fn text_value(s: Seq<char>, i: int) -> Seq<char>
    decreases s.len() - i,
{
    if 0 <= i < s.len() {
        if s[i] == '"' {
            Seq::empty()
        } else if s[i] == '\\' {
            if i + 1 < s.len() {
                seq![s[i + 1]] + text_value(s, i + 2)
            } else {
                Seq::empty()
            }
        } else {
            seq![s[i]] + text_value(s, i + 1)
        }
    } else {
        Seq::empty()
    }
}

/// How many newline characters the scanner consumes while reading a text
/// literal whose content starts at `i` (up to its closing quote, or to the
/// end of the input if it never closes).
pub open spec fn text_newlines(s: Seq<char>, i: int) -> nat
    decreases s.len() - i,
{
    if 0 <= i < s.len() {
        if s[i] == '"' {
            0
        } else if s[i] == '\\' {
            if i + 1 < s.len() {
                (if s[i + 1] == '\n' {
                    1nat
                } else {
                    0nat
                }) + text_newlines(s, i + 2)
            } else {
                0
            }
        } else {
            (if s[i] == '\n' {
                1nat
            } else {
                0nat
            }) + text_newlines(s, i + 1)
        }
    } else {
        0
    }
}

/// The end-of-input sentinel token.
pub open spec fn eof_token(line: nat) -> SpecToken {
    SpecToken { kind: SpecKind::EOF, lexeme: "EOF"@, line }
}

/// Prepends a token to a scan result, or keeps the error.
pub open spec fn cons_token(t: SpecToken, r: Result<Seq<SpecToken>, LexError>) -> Result<
    Seq<SpecToken>,
    LexError,
> {
    match r {
        Ok(ts) => Ok(seq![t] + ts),
        Err(e) => Err(e),
    }
}

/// The scanner itself, as a mathematical function: the tokens produced from
/// position `i` onward with the line counter at `line`, or the first fatal
/// lexical error. The whole scan of a source `s` is `scan_from(s, 0, 1)`.
pub open spec fn scan_from(s: Seq<char>, i: int, line: nat) -> Result<Seq<SpecToken>, LexError>
    decreases s.len() - i,
    via scan_from_decreases
{
    if !(0 <= i < s.len()) {
        Ok(seq![eof_token(line)])
    } else {
        let c = s[i];
        if c == '\n' {
            scan_from(s, i + 1, line + 1)
        } else if is_ws(c) {
            scan_from(s, i + 1, line)
        } else if c == '"' {
            if text_closes(s, i + 1) {
                let v = text_value(s, i + 1);
                cons_token(
                    SpecToken { kind: SpecKind::Text(v), lexeme: v, line },
                    scan_from(s, text_end(s, i + 1), line + text_newlines(s, i + 1)),
                )
            } else {
                Err(LexError::UnterminatedText { line: (line + text_newlines(s, i + 1)) as usize })
            }
        } else if is_digit(c) {
            if num_ok(s, i, false) {
                let w = s.subrange(i, num_end(s, i, false));
                cons_token(
                    SpecToken { kind: SpecKind::Number(w), lexeme: w, line },
                    scan_from(s, num_end(s, i, false), line),
                )
            } else {
                Err(LexError::MalformedNumeral { line: line as usize })
            }
        } else if is_alpha(c) {
            let w = s.subrange(i, ident_end(s, i));
            cons_token(
                SpecToken { kind: keyword_or_ident(w), lexeme: w, line },
                scan_from(s, ident_end(s, i), line),
            )
        } else if is_op(c) {
            if i + 1 >= s.len() {
                Err(LexError::DanglingOperator { op: c, line: line as usize })
            } else if s[i + 1] == '=' {
                cons_token(
                    SpecToken { kind: op2_kind(c), lexeme: s.subrange(i, i + 2), line },
                    scan_from(s, i + 2, line),
                )
            } else {
                cons_token(
                    SpecToken { kind: op1_kind(c), lexeme: s.subrange(i, i + 1), line },
                    scan_from(s, i + 1, line),
                )
            }
        } else if is_punct(c) {
            cons_token(
                SpecToken { kind: punct_kind(c), lexeme: s.subrange(i, i + 1), line },
                scan_from(s, i + 1, line),
            )
        } else {
            scan_from(s, i + 1, line)
        }
    }
}

#[via_fn]
proof fn scan_from_decreases(s: Seq<char>, i: int, line: nat) {
    if 0 <= i < s.len() {
        lemma_text_end_bounds(s, i + 1);
        lemma_num_end_bounds(s, i, false);
        lemma_ident_end_bounds(s, i);
    }
}

/// The complete scan of a source: the token sequence ending in the
/// end-of-input sentinel, or the first fatal lexical error.
pub open spec fn spec_scan(s: Seq<char>) -> Result<Seq<SpecToken>, LexError> {
    scan_from(s, 0, 1)
}

// ---------------------------------------------------------------------------
// Bounds of the mode helpers
// ---------------------------------------------------------------------------

/// An identifier ends no earlier than it starts and no later than the input;
/// it is non-empty when its first character can continue an identifier.
pub proof fn lemma_ident_end_bounds(s: Seq<char>, i: int)
    requires
        0 <= i <= s.len(),
    ensures
        i <= ident_end(s, i) <= s.len(),
        i < s.len() && is_ident_char(s[i]) ==> i + 1 <= ident_end(s, i),
    decreases s.len() - i,
{
    if i < s.len() && is_ident_char(s[i]) {
        lemma_ident_end_bounds(s, i + 1);
    }
}

/// A numeral ends no earlier than it starts and no later than the input; it
/// is non-empty when it starts with a digit.
pub proof fn lemma_num_end_bounds(s: Seq<char>, i: int, seen_dot: bool)
    requires
        0 <= i <= s.len(),
    ensures
        i <= num_end(s, i, seen_dot) <= s.len(),
        i < s.len() && is_digit(s[i]) ==> i + 1 <= num_end(s, i, seen_dot),
    decreases s.len() - i,
{
    if i < s.len() {
        if is_digit(s[i]) {
            lemma_num_end_bounds(s, i + 1, seen_dot);
        } else if s[i] == '.' && !seen_dot {
            lemma_num_end_bounds(s, i + 1, true);
        }
    }
}

/// A text literal ends after its content starts and no later than the input,
/// and consumes at least one newline fewer than it has characters.
pub proof fn lemma_text_end_bounds(s: Seq<char>, i: int)
    requires
        0 <= i <= s.len(),
    ensures
        i <= text_end(s, i) <= s.len(),
        text_closes(s, i) ==> i + 1 <= text_end(s, i),
        text_closes(s, i) ==> text_newlines(s, i) <= text_end(s, i) - i,
        text_newlines(s, i) <= s.len() - i,
    decreases s.len() - i,
{
    if i < s.len() {
        if s[i] == '"' {
        } else if s[i] == '\\' {
            if i + 1 < s.len() {
                lemma_text_end_bounds(s, i + 2);
            }
        } else {
            lemma_text_end_bounds(s, i + 1);
        }
    }
}

// ---------------------------------------------------------------------------
// Executable character classification
// ---------------------------------------------------------------------------

fn digit(c: char) -> (r: bool)
    ensures
        r == is_digit(c),
{
    let u: u32 = c as u32;
    ('0' as u32) <= u && u <= ('9' as u32)
}

fn alpha(c: char) -> (r: bool)
    ensures
        r == is_alpha(c),
{
    let u: u32 = c as u32;
    (('a' as u32) <= u && u <= ('z' as u32)) || (('A' as u32) <= u && u <= ('Z' as u32)) || c
        == '_'
}

fn ident_char(c: char) -> (r: bool)
    ensures
        r == is_ident_char(c),
{
    alpha(c) || digit(c)
}

fn ws(c: char) -> (r: bool)
    ensures
        r == is_ws(c),
{
    c == ' ' || c == '\t' || c == '\r'
}

fn op(c: char) -> (r: bool)
    ensures
        r == is_op(c),
{
    c == '=' || c == '!' || c == '<' || c == '>'
}

fn punct(c: char) -> (r: bool)
    ensures
        r == is_punct(c),
{
    c == '(' || c == ')' || c == '{' || c == '}' || c == '[' || c == ']' || c == ',' || c == ':'
        || c == ';' || c == '+' || c == '-' || c == '*' || c == '/' || c == '.'
}

fn punct_token(c: char) -> (r: TokenKind)
    ensures
        r@ == punct_kind(c),
{
    if c == '(' {
        TokenKind::LeftParen
    } else if c == ')' {
        TokenKind::RightParen
    } else if c == '{' {
        TokenKind::LeftBracket
    } else if c == '}' {
        TokenKind::RightBracket
    } else if c == '[' {
        TokenKind::LeftSBracket
    } else if c == ']' {
        TokenKind::RightSBracket
    } else if c == ',' {
        TokenKind::Comma
    } else if c == ':' {
        TokenKind::Colon
    } else if c == ';' {
        TokenKind::SemiColon
    } else if c == '+' {
        TokenKind::Plus
    } else if c == '-' {
        TokenKind::Minus
    } else if c == '*' {
        TokenKind::Star
    } else if c == '/' {
        TokenKind::Slash
    } else {
        TokenKind::Dot
    }
}

fn op1_token(c: char) -> (r: TokenKind)
    ensures
        r@ == op1_kind(c),
{
    if c == '=' {
        TokenKind::Equal
    } else if c == '!' {
        TokenKind::Bang
    } else if c == '<' {
        TokenKind::Less
    } else {
        TokenKind::Greater
    }
}

fn op2_token(c: char) -> (r: TokenKind)
    ensures
        r@ == op2_kind(c),
{
    if c == '=' {
        TokenKind::EqualEqual
    } else if c == '!' {
        TokenKind::BangEqual
    } else if c == '<' {
        TokenKind::LessEqual
    } else {
        TokenKind::GreaterEqual
    }
}

/// Classifies a completed word as a keyword kind or an identifier.
fn keyword_kind(w: &String) -> (r: TokenKind)
    ensures
        r@ == keyword_or_ident(w@),
{
    if *w == String::from_str("and") {
        TokenKind::And
    } else if *w == String::from_str("or") {
        TokenKind::Or
    } else if *w == String::from_str("if") {
        TokenKind::If
    } else if *w == String::from_str("else") {
        TokenKind::Else
    } else if *w == String::from_str("fun") {
        TokenKind::Fun
    } else if *w == String::from_str("return") {
        TokenKind::Return
    } else if *w == String::from_str("while") {
        TokenKind::While
    } else if *w == String::from_str("for") {
        TokenKind::For
    } else if *w == String::from_str("var") {
        TokenKind::Var
    } else if *w == String::from_str("class") {
        TokenKind::Class
    } else if *w == String::from_str("super") {
        TokenKind::Super
    } else if *w == String::from_str("this") {
        TokenKind::This
    } else if *w == String::from_str("nil") {
        TokenKind::Nil
    } else if *w == String::from_str("true") {
        TokenKind::True
    } else if *w == String::from_str("false") {
        TokenKind::False
    } else if *w == String::from_str("print") {
        TokenKind::Print
    } else if *w == String::from_str("break") {
        TokenKind::Break
    } else if *w == String::from_str("continue") {
        TokenKind::Continue
    } else {
        TokenKind::Identifier(w.clone())
    }
}

// ---------------------------------------------------------------------------
// Scanner state
// ---------------------------------------------------------------------------

impl Token {
    /// Builds a token from its parts.
    pub fn new(id: usize, kind: TokenKind, lexeme: String, line: usize) -> (t: Token)
        ensures
            t == (Token { id, kind, lexeme, line }),
    {
        Token { id, kind, lexeme, line }
    }

    /// Appends a token to the output sequence, giving it the next ordinal.
    pub fn add_token(tokens: &mut Vec<Token>, kind: TokenKind, lexeme: String, line: usize)
        ensures
            final(tokens)@ == old(tokens)@.push(
                Token { id: old(tokens)@.len() as usize, kind, lexeme, line },
            ),
            final(tokens)@.len() == old(tokens)@.len() + 1,
            old(tokens)@.len() <= usize::MAX,
            forall|k: int|
                0 <= k < old(tokens)@.len() ==> final(tokens)@[k] == old(tokens)@[k],
            final(tokens)@[old(tokens)@.len() as int] == (Token {
                id: old(tokens)@.len() as usize,
                kind,
                lexeme,
                line,
            }),
    {
        let id: usize = tokens.len();
        tokens.push(Token::new(id, kind, lexeme, line))
    }
}

/// The scanner's internal state: the source text, a cursor over its
/// characters, the current 1-based line, and the tokens emitted so far.
pub struct Tokens {
    pub tokens: Vec<Token>,
    pub source: String,
    pub pos: usize,
    pub current_line: usize,
}

impl Tokens {
    /// The state is well formed: the cursor is inside the text and the line
    /// counter, which grows by at most one per remaining character, cannot
    /// overflow.
    pub open spec fn wf(self) -> bool {
        &&& self.pos <= self.source@.len()
        &&& 1 <= self.current_line
        &&& self.current_line + (self.source@.len() - self.pos) <= usize::MAX
    }

    /// A fresh scanner over the given source text, with the cursor at the
    /// first character and the line counter at 1.
    pub fn new(source: &str) -> (t: Tokens)
        requires
            source@.len() < usize::MAX,
        ensures
            t.wf(),
            t.source@ == source@,
            t.pos == 0,
            t.current_line == 1,
            t.tokens@ == Seq::<Token>::empty(),
    {
        let t = Tokens { tokens: Vec::new(), source: String::from_str(source), pos: 0, current_line: 1 };
        proof {
            assert(t.tokens@ =~= Seq::<Token>::empty());
        }
        t
    }

    /// Consumes and returns the next character, if any. A consumed newline
    /// increments the line counter; the token list is untouched.
    pub fn advance(&mut self) -> (r: Option<char>)
        requires
            old(self).wf(),
        ensures
            final(self).wf(),
            final(self).source == old(self).source,
            final(self).tokens == old(self).tokens,
            old(self).pos < old(self).source@.len() ==> {
                &&& r == Some(old(self).source@[old(self).pos as int])
                &&& final(self).pos == old(self).pos + 1
                &&& final(self).current_line as int == old(self).current_line as int + (
                if old(self).source@[old(self).pos as int] == '\n' {
                    1int
                } else {
                    0int
                })
            },
            old(self).pos >= old(self).source@.len() ==> {
                &&& r is None
                &&& final(self).pos == old(self).pos
                &&& final(self).current_line == old(self).current_line
            },
    {
        let n: usize = self.source.as_str().unicode_len();
        if self.pos < n {
            let c: char = self.source.as_str().get_char(self.pos);
            self.pos = self.pos + 1;
            if c == '\n' {
                self.current_line = self.current_line + 1;
            }
            Some(c)
        } else {
            None
        }
    }

    /// Returns the next character without consuming it: the one-character
    /// lookahead used to disambiguate operators.
    pub fn peek(&mut self) -> (r: Option<char>)
        requires
            old(self).wf(),
        ensures
            *final(self) == *old(self),
            r == (if old(self).pos < old(self).source@.len() {
                Some(old(self).source@[old(self).pos as int])
            } else {
                None::<char>
            }),
    {
        let n: usize = self.source.as_str().unicode_len();
        if self.pos < n {
            Some(self.source.as_str().get_char(self.pos))
        } else {
            None
        }
    }
}

// ---------------------------------------------------------------------------
// Mode routines
//
// Each literal-consumption routine owns its local accumulation and returns a
// completed result to the single driving loop.
// ---------------------------------------------------------------------------

/// Consumes a maximal run of identifier characters starting at `start` and
/// returns the position just past it.
fn take_identifier(source: &str, start: usize, n: usize) -> (end: usize)
    requires
        n == source@.len(),
        start <= n,
    ensures
        end == ident_end(source@, start as int),
        start <= end <= n,
{
    let mut j: usize = start;
    while j < n && ident_char(source.get_char(j))
        invariant
            start <= j <= n,
            n == source@.len(),
            ident_end(source@, start as int) == ident_end(source@, j as int),
        decreases n - j,
    {
        j = j + 1;
    }
    j
}

/// Consumes a numeral starting at the digit at `start`: a maximal run of
/// digits and at most one decimal point. A second decimal point adjacent to
/// the numeral is a fatal error.
fn take_number(source: &str, start: usize, n: usize, line: usize) -> (r: Result<usize, LexError>)
    requires
        n == source@.len(),
        start < n,
        is_digit(source@[start as int]),
    ensures
        (match r {
            Ok(end) => {
                &&& num_ok(source@, start as int, false)
                &&& end == num_end(source@, start as int, false)
                &&& start < end <= n
            },
            Err(e) => {
                &&& !num_ok(source@, start as int, false)
                &&& e == (LexError::MalformedNumeral { line })
            },
        }),
{
    let mut j: usize = start + 1;
    let mut dot: bool = false;
    loop
        invariant
            start < j <= n,
            n == source@.len(),
            num_end(source@, start as int, false) == num_end(source@, j as int, dot),
            num_ok(source@, start as int, false) == num_ok(source@, j as int, dot),
        decreases n - j,
    {
        if j >= n {
            return Ok(j);
        }
        let c: char = source.get_char(j);
        if digit(c) {
            j = j + 1;
        } else if c == '.' {
            if dot {
                return Err(LexError::MalformedNumeral { line });
            }
            dot = true;
            j = j + 1;
        } else {
            return Ok(j);
        }
    }
}

/// Consumes the content of a text literal whose opening quote has just been
/// consumed, decoding escapes by passthrough: a backslash takes the following
/// character verbatim. Returns the decoded value, the position just past the
/// closing quote, and the line counter after the literal; or the
/// unterminated-literal error if the input ends first.
fn take_text(source: &str, start: usize, n: usize, line: usize) -> (r: Result<
    (String, usize, usize),
    LexError,
>)
    requires
        n == source@.len(),
        start <= n,
        1 <= line,
        line + (n - start) <= usize::MAX,
    ensures
        (match r {
            Ok(t) => {
                &&& text_closes(source@, start as int)
                &&& t.0@ == text_value(source@, start as int)
                &&& t.1 == text_end(source@, start as int)
                &&& start < t.1 <= n
                &&& t.2 == line + text_newlines(source@, start as int)
            },
            Err(e) => {
                &&& !text_closes(source@, start as int)
                &&& e == (LexError::UnterminatedText {
                    line: (line + text_newlines(source@, start as int)) as usize,
                })
            },
        }),
{
    let mut j: usize = start;
    let mut buf: String = String::new();
    let mut ln: usize = line;
    loop
        invariant
            start <= j <= n,
            n == source@.len(),
            line <= ln,
            ln + (n - j) <= usize::MAX,
            ln + text_newlines(source@, j as int) == line + text_newlines(source@, start as int),
            text_closes(source@, start as int) == text_closes(source@, j as int),
            text_closes(source@, j as int) ==> text_end(source@, start as int) == text_end(
                source@,
                j as int,
            ),
            buf@ + text_value(source@, j as int) == text_value(source@, start as int),
        decreases n - j,
    {
        if j >= n {
            return Err(LexError::UnterminatedText { line: ln });
        }
        let c: char = source.get_char(j);
        if c == '"' {
            proof {
                assert(buf@ + text_value(source@, j as int) =~= buf@);
                lemma_text_end_bounds(source@, start as int);
            }
            return Ok((buf, j + 1, ln));
        } else if c == '\\' {
            if j + 1 >= n {
                return Err(LexError::UnterminatedText { line: ln });
            }
            let d: char = source.get_char(j + 1);
            let ghost buf0 = buf@;
            buf.append(source.substring_char(j + 1, j + 2));
            proof {
                assert(source@.subrange(j as int + 1, j as int + 2) =~= seq![
                    source@[j as int + 1],
                ]);
                assert((buf0 + seq![source@[j as int + 1]]) + text_value(source@, j as int + 2)
                    =~= buf0 + (seq![source@[j as int + 1]] + text_value(source@, j as int + 2)));
            }
            if d == '\n' {
                ln = ln + 1;
            }
            j = j + 2;
        } else {
            let ghost buf0 = buf@;
            buf.append(source.substring_char(j, j + 1));
            proof {
                assert(source@.subrange(j as int, j as int + 1) =~= seq![source@[j as int]]);
                assert((buf0 + seq![source@[j as int]]) + text_value(source@, j as int + 1) =~= buf0
                    + (seq![source@[j as int]] + text_value(source@, j as int + 1)));
            }
            if c == '\n' {
                ln = ln + 1;
            }
            j = j + 1;
        }
    }
}

// ---------------------------------------------------------------------------
// The driving loop
// ---------------------------------------------------------------------------

/// The mathematical values of a token sequence, in order.
pub open spec fn token_views(ts: Seq<Token>) -> Seq<SpecToken> {
    ts.map_values(|t: Token| t@)
}

/// The tokens emitted so far, together with what the mathematical scanner
/// says about the rest of the input, account for the whole scan `full`.
pub open spec fn scan_combined(
    prefix: Seq<SpecToken>,
    rest: Result<Seq<SpecToken>, LexError>,
    full: Result<Seq<SpecToken>, LexError>,
) -> bool {
    match rest {
        Ok(ts) => full is Ok && full->Ok_0 == prefix + ts,
        Err(e) => full == Err::<Seq<SpecToken>, LexError>(e),
    }
}

/// Emitting the head token of the remaining scan moves it into the prefix.
proof fn lemma_combine_step(
    prefix: Seq<SpecToken>,
    st: SpecToken,
    rest: Result<Seq<SpecToken>, LexError>,
    full: Result<Seq<SpecToken>, LexError>,
)
    requires
        scan_combined(prefix, cons_token(st, rest), full),
    ensures
        scan_combined(prefix.push(st), rest, full),
{
    match rest {
        Ok(ts) => {
            assert(prefix + (seq![st] + ts) =~= prefix.push(st) + ts);
        },
        Err(e) => {},
    }
}

proof fn lemma_token_views_push(ts: Seq<Token>, t: Token)
    ensures
        token_views(ts.push(t)) == token_views(ts).push(t@),
{
    assert(token_views(ts.push(t)) =~= token_views(ts).push(t@));
}

/// Scans the whole source text in one left-to-right pass: on success the
/// complete token sequence, whose last token is the end-of-input sentinel
/// and whose `id` fields count up from 0 in emission order; on failure the
/// first fatal lexical error. The result is exactly what the mathematical
/// scanner [`spec_scan`] says for this source.
pub fn scan_tokens(source: &str) -> (r: Result<Vec<Token>, LexError>)
    requires
        source@.len() < usize::MAX,
    ensures
        (match r {
            Ok(toks) => {
                &&& spec_scan(source@) is Ok
                &&& token_views(toks@) == spec_scan(source@)->Ok_0
                &&& forall|k: int|
                    0 <= k < toks@.len() ==> (#[trigger] toks@[k]).id == k
            },
            Err(e) => spec_scan(source@) == Err::<Seq<SpecToken>, LexError>(e),
        }),
{
    let n: usize = source.unicode_len();
    let mut t: Tokens = Tokens::new(source);
    proof {
        assert(token_views(t.tokens@) =~= Seq::<SpecToken>::empty());
        if spec_scan(source@) is Ok {
            assert(Seq::<SpecToken>::empty() + spec_scan(source@)->Ok_0 =~= spec_scan(
                source@,
            )->Ok_0);
        }
    }
    loop
        invariant
            t.wf(),
            t.source@ == source@,
            n == source@.len(),
            forall|k: int| 0 <= k < t.tokens@.len() ==> (#[trigger] t.tokens@[k]).id == k,
            scan_combined(
                token_views(t.tokens@),
                scan_from(source@, t.pos as int, t.current_line as nat),
                spec_scan(source@),
            ),
        decreases n - t.pos,
    {
        let ghost i0 = t.pos as int;
        let ghost line0 = t.current_line as nat;
        let ghost pre = token_views(t.tokens@);
        let ghost toks0 = t.tokens@;
        let co: Option<char> = t.advance();
        match co {
            None => {
                let lx: String = String::from_str("EOF");
                Token::add_token(&mut t.tokens, TokenKind::EOF, lx, t.current_line);
                proof {
                    lemma_token_views_push(toks0, t.tokens@.last());
                    assert(token_views(t.tokens@) =~= pre.push(eof_token(line0)));
                    assert(pre + seq![eof_token(line0)] =~= pre.push(eof_token(line0)));
                }
                return Ok(t.tokens);
            },
            Some(c) => {
                if c == '\n' {
                    // the line counter moved inside `advance`; no token
                } else if ws(c) {
                    // whitespace other than newline: skipped
                } else if c == '"' {
                    let tok_line: usize = t.current_line;
                    match take_text(source, t.pos, n, tok_line) {
                        Ok((value, end, new_line)) => {
                            let lx: String = value.clone();
                            let ghost st = SpecToken {
                                kind: SpecKind::Text(value@),
                                lexeme: value@,
                                line: line0,
                            };
                            Token::add_token(&mut t.tokens, TokenKind::Text(value), lx, tok_line);
                            t.pos = end;
                            t.current_line = new_line;
                            proof {
                                lemma_text_end_bounds(source@, i0 + 1);
                                lemma_token_views_push(toks0, t.tokens@.last());
                                assert(t.tokens@.last()@ =~= st);
                                lemma_combine_step(
                                    pre,
                                    st,
                                    scan_from(source@, t.pos as int, t.current_line as nat),
                                    spec_scan(source@),
                                );
                            }
                        },
                        Err(e) => {
                            return Err(e);
                        },
                    }
                } else if digit(c) {
                    let start: usize = t.pos - 1;
                    match take_number(source, start, n, t.current_line) {
                        Ok(end) => {
                            let lx: String = String::from_str(source.substring_char(start, end));
                            let lx2: String = lx.clone();
                            let ghost st = SpecToken {
                                kind: SpecKind::Number(lx@),
                                lexeme: lx@,
                                line: line0,
                            };
                            Token::add_token(&mut t.tokens, TokenKind::Number(lx), lx2, t.current_line);
                            t.pos = end;
                            proof {
                                lemma_token_views_push(toks0, t.tokens@.last());
                                assert(t.tokens@.last()@ =~= st);
                                lemma_combine_step(
                                    pre,
                                    st,
                                    scan_from(source@, t.pos as int, t.current_line as nat),
                                    spec_scan(source@),
                                );
                            }
                        },
                        Err(e) => {
                            return Err(e);
                        },
                    }
                } else if alpha(c) {
                    let start: usize = t.pos - 1;
                    let end: usize = take_identifier(source, start, n);
                    proof {
                        lemma_ident_end_bounds(source@, i0);
                    }
                    let w: String = String::from_str(source.substring_char(start, end));
                    let kind: TokenKind = keyword_kind(&w);
                    let ghost st = SpecToken {
                        kind: keyword_or_ident(w@),
                        lexeme: w@,
                        line: line0,
                    };
                    Token::add_token(&mut t.tokens, kind, w, t.current_line);
                    t.pos = end;
                    proof {
                        lemma_token_views_push(toks0, t.tokens@.last());
                        assert(t.tokens@.last()@ =~= st);
                        lemma_combine_step(
                            pre,
                            st,
                            scan_from(source@, t.pos as int, t.current_line as nat),
                            spec_scan(source@),
                        );
                    }
                } else if op(c) {
                    let p: Option<char> = t.peek();
                    match p {
                        None => {
                            return Err(LexError::DanglingOperator { op: c, line: t.current_line });
                        },
                        Some(d) => {
                            if d == '=' {
                                t.advance();
                                let lx: String = String::from_str(
                                    source.substring_char(t.pos - 2, t.pos),
                                );
                                let ghost st = SpecToken {
                                    kind: op2_kind(c),
                                    lexeme: source@.subrange(i0, i0 + 2),
                                    line: line0,
                                };
                                Token::add_token(&mut t.tokens, op2_token(c), lx, t.current_line);
                                proof {
                                    lemma_token_views_push(toks0, t.tokens@.last());
                                    assert(t.tokens@.last()@ =~= st);
                                    lemma_combine_step(
                                        pre,
                                        st,
                                        scan_from(source@, t.pos as int, t.current_line as nat),
                                        spec_scan(source@),
                                    );
                                }
                            } else {
                                let lx: String = String::from_str(
                                    source.substring_char(t.pos - 1, t.pos),
                                );
                                let ghost st = SpecToken {
                                    kind: op1_kind(c),
                                    lexeme: source@.subrange(i0, i0 + 1),
                                    line: line0,
                                };
                                Token::add_token(&mut t.tokens, op1_token(c), lx, t.current_line);
                                proof {
                                    lemma_token_views_push(toks0, t.tokens@.last());
                                    assert(t.tokens@.last()@ =~= st);
                                    lemma_combine_step(
                                        pre,
                                        st,
                                        scan_from(source@, t.pos as int, t.current_line as nat),
                                        spec_scan(source@),
                                    );
                                }
                            }
                        },
                    }
                } else if punct(c) {
                    let lx: String = String::from_str(source.substring_char(t.pos - 1, t.pos));
                    let ghost st = SpecToken {
                        kind: punct_kind(c),
                        lexeme: source@.subrange(i0, i0 + 1),
                        line: line0,
                    };
                    Token::add_token(&mut t.tokens, punct_token(c), lx, t.current_line);
                    proof {
                        lemma_token_views_push(toks0, t.tokens@.last());
                        assert(t.tokens@.last()@ =~= st);
                        lemma_combine_step(
                            pre,
                            st,
                            scan_from(source@, t.pos as int, t.current_line as nat),
                            spec_scan(source@),
                        );
                    }
                } else {
                    // unrecognized character: silently skipped
                }
            },
        }
    }
}

} // verus!
