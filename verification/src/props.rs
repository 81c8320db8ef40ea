//! Laws of the scanner, proved once and for all over the mathematical model
//! in [`crate::lex`].

use vstd::prelude::*;
use crate::lex::{
    LexError, SpecKind, SpecToken, cons_token, eof_token, ident_end, is_alpha, is_digit,
    is_ident_char, is_op,
    is_punct, is_ws, keyword_or_ident, lemma_ident_end_bounds, lemma_num_end_bounds,
    lemma_text_end_bounds, num_end, num_ok, op1_kind, op2_kind, punct_kind, scan_from, spec_scan,
    text_closes, text_end, text_newlines, text_value,
};

verus! {

/// A head token prepended to a well-shaped tail keeps the shape: the
/// sentinel stays last and nothing but the last token is the sentinel.
proof fn lemma_cons_eof_shape(h: SpecToken, ts: Seq<SpecToken>)
    requires
        ts.len() >= 1,
        ts.last().kind == SpecKind::EOF,
        forall|k: int| 0 <= k < ts.len() - 1 ==> (#[trigger] ts[k]).kind != SpecKind::EOF,
        h.kind != SpecKind::EOF,
    ensures
        (seq![h] + ts).len() >= 1,
        (seq![h] + ts).last().kind == SpecKind::EOF,
        forall|k: int|
            0 <= k < (seq![h] + ts).len() - 1 ==> (#[trigger] (seq![h] + ts)[k]).kind
                != SpecKind::EOF,
{
    let r = seq![h] + ts;
    assert(r.last() == ts.last());
    assert forall|k: int| 0 <= k < r.len() - 1 implies (#[trigger] r[k]).kind != SpecKind::EOF by {
        if k == 0 {
            assert(r[0] == h);
        } else {
            assert(r[k] == ts[k - 1]);
        }
    }
}

/// On success, scanning from any position yields a non-empty sequence whose
/// last token, and only that token, is the end-of-input sentinel.
proof fn lemma_scan_from_eof(s: Seq<char>, i: int, line: nat)
    requires
        0 <= i <= s.len(),
    ensures
        scan_from(s, i, line) is Ok ==> {
            let ts = scan_from(s, i, line)->Ok_0;
            &&& ts.len() >= 1
            &&& ts.last().kind == SpecKind::EOF
            &&& forall|k: int| 0 <= k < ts.len() - 1 ==> (#[trigger] ts[k]).kind != SpecKind::EOF
        },
    decreases s.len() - i,
{
    if !(0 <= i < s.len()) {
        assert(scan_from(s, i, line)->Ok_0 == seq![eof_token(line)]);
    } else {
        let c = s[i];
        if c == '\n' {
            lemma_scan_from_eof(s, i + 1, line + 1);
        } else if is_ws(c) {
            lemma_scan_from_eof(s, i + 1, line);
        } else if c == '"' {
            if text_closes(s, i + 1) {
                lemma_text_end_bounds(s, i + 1);
                let j = text_end(s, i + 1);
                let line2 = line + text_newlines(s, i + 1);
                lemma_scan_from_eof(s, j, line2);
                if scan_from(s, j, line2) is Ok {
                    let v = text_value(s, i + 1);
                    lemma_cons_eof_shape(
                        SpecToken { kind: SpecKind::Text(v), lexeme: v, line },
                        scan_from(s, j, line2)->Ok_0,
                    );
                }
            }
        } else if is_digit(c) {
            if num_ok(s, i, false) {
                lemma_num_end_bounds(s, i, false);
                let j = num_end(s, i, false);
                lemma_scan_from_eof(s, j, line);
                if scan_from(s, j, line) is Ok {
                    let w = s.subrange(i, j);
                    lemma_cons_eof_shape(
                        SpecToken { kind: SpecKind::Number(w), lexeme: w, line },
                        scan_from(s, j, line)->Ok_0,
                    );
                }
            }
        } else if is_alpha(c) {
            lemma_ident_end_bounds(s, i);
            let j = ident_end(s, i);
            lemma_scan_from_eof(s, j, line);
            if scan_from(s, j, line) is Ok {
                let w = s.subrange(i, j);
                lemma_cons_eof_shape(
                    SpecToken { kind: keyword_or_ident(w), lexeme: w, line },
                    scan_from(s, j, line)->Ok_0,
                );
            }
        } else if is_op(c) {
            if i + 1 >= s.len() {
            } else if s[i + 1] == '=' {
                lemma_scan_from_eof(s, i + 2, line);
                if scan_from(s, i + 2, line) is Ok {
                    lemma_cons_eof_shape(
                        SpecToken { kind: op2_kind(c), lexeme: s.subrange(i, i + 2), line },
                        scan_from(s, i + 2, line)->Ok_0,
                    );
                }
            } else {
                lemma_scan_from_eof(s, i + 1, line);
                if scan_from(s, i + 1, line) is Ok {
                    lemma_cons_eof_shape(
                        SpecToken { kind: op1_kind(c), lexeme: s.subrange(i, i + 1), line },
                        scan_from(s, i + 1, line)->Ok_0,
                    );
                }
            }
        } else if is_punct(c) {
            lemma_scan_from_eof(s, i + 1, line);
            if scan_from(s, i + 1, line) is Ok {
                lemma_cons_eof_shape(
                    SpecToken { kind: punct_kind(c), lexeme: s.subrange(i, i + 1), line },
                    scan_from(s, i + 1, line)->Ok_0,
                );
            }
        } else {
            lemma_scan_from_eof(s, i + 1, line);
        }
    }
}

/// Every successfully scanned source produces a non-empty token sequence
/// whose final element is the end-of-input sentinel, with no token after it:
/// no other element of the sequence is the sentinel.
pub proof fn lemma_scan_ends_with_eof(s: Seq<char>)
    requires
        spec_scan(s) is Ok,
    ensures
        ({
            let ts = spec_scan(s)->Ok_0;
            &&& ts.len() >= 1
            &&& ts.last().kind == SpecKind::EOF
            &&& forall|k: int| 0 <= k < ts.len() - 1 ==> (#[trigger] ts[k]).kind != SpecKind::EOF
        }),
{
    lemma_scan_from_eof(s, 0, 1);
}

/// A head token on the starting line, prepended to a tail whose lines are
/// sorted and no earlier than the head's, keeps the lines sorted.
proof fn lemma_cons_lines(h: SpecToken, ts: Seq<SpecToken>, line: nat)
    requires
        h.line == line,
        forall|k: int| 0 <= k < ts.len() ==> line <= (#[trigger] ts[k]).line,
        forall|j: int, k: int|
            0 <= j <= k < ts.len() ==> (#[trigger] ts[j]).line <= (#[trigger] ts[k]).line,
    ensures
        forall|k: int| 0 <= k < (seq![h] + ts).len() ==> line <= (#[trigger] (seq![h] + ts)[k]).line,
        forall|j: int, k: int|
            0 <= j <= k < (seq![h] + ts).len() ==> (#[trigger] (seq![h] + ts)[j]).line
                <= (#[trigger] (seq![h] + ts)[k]).line,
{
    let r = seq![h] + ts;
    assert forall|k: int| 0 <= k < r.len() implies line <= (#[trigger] r[k]).line by {
        if k == 0 {
            assert(r[0] == h);
        } else {
            assert(r[k] == ts[k - 1]);
        }
    }
    assert forall|j: int, k: int| 0 <= j <= k < r.len() implies (#[trigger] r[j]).line
        <= (#[trigger] r[k]).line by {
        if j == 0 {
            assert(r[0] == h);
            if k > 0 {
                assert(r[k] == ts[k - 1]);
            }
        } else {
            assert(r[j] == ts[j - 1]);
            assert(r[k] == ts[k - 1]);
        }
    }
}

/// On success, scanning from any position with the line counter at `line`
/// yields tokens whose lines start no earlier than `line` and never decrease.
proof fn lemma_scan_from_lines(s: Seq<char>, i: int, line: nat)
    requires
        0 <= i <= s.len(),
    ensures
        scan_from(s, i, line) is Ok ==> {
            let ts = scan_from(s, i, line)->Ok_0;
            &&& forall|k: int| 0 <= k < ts.len() ==> line <= (#[trigger] ts[k]).line
            &&& forall|j: int, k: int|
                0 <= j <= k < ts.len() ==> (#[trigger] ts[j]).line <= (#[trigger] ts[k]).line
        },
    decreases s.len() - i,
{
    if !(0 <= i < s.len()) {
    } else {
        let c = s[i];
        if c == '\n' {
            lemma_scan_from_lines(s, i + 1, line + 1);
        } else if is_ws(c) {
            lemma_scan_from_lines(s, i + 1, line);
        } else if c == '"' {
            if text_closes(s, i + 1) {
                lemma_text_end_bounds(s, i + 1);
                let j = text_end(s, i + 1);
                let line2 = line + text_newlines(s, i + 1);
                lemma_scan_from_lines(s, j, line2);
                if scan_from(s, j, line2) is Ok {
                    let v = text_value(s, i + 1);
                    lemma_cons_lines(
                        SpecToken { kind: SpecKind::Text(v), lexeme: v, line },
                        scan_from(s, j, line2)->Ok_0,
                        line,
                    );
                }
            }
        } else if is_digit(c) {
            if num_ok(s, i, false) {
                lemma_num_end_bounds(s, i, false);
                let j = num_end(s, i, false);
                lemma_scan_from_lines(s, j, line);
                if scan_from(s, j, line) is Ok {
                    let w = s.subrange(i, j);
                    lemma_cons_lines(
                        SpecToken { kind: SpecKind::Number(w), lexeme: w, line },
                        scan_from(s, j, line)->Ok_0,
                        line,
                    );
                }
            }
        } else if is_alpha(c) {
            lemma_ident_end_bounds(s, i);
            let j = ident_end(s, i);
            lemma_scan_from_lines(s, j, line);
            if scan_from(s, j, line) is Ok {
                let w = s.subrange(i, j);
                lemma_cons_lines(
                    SpecToken { kind: keyword_or_ident(w), lexeme: w, line },
                    scan_from(s, j, line)->Ok_0,
                    line,
                );
            }
        } else if is_op(c) {
            if i + 1 >= s.len() {
            } else if s[i + 1] == '=' {
                lemma_scan_from_lines(s, i + 2, line);
                if scan_from(s, i + 2, line) is Ok {
                    lemma_cons_lines(
                        SpecToken { kind: op2_kind(c), lexeme: s.subrange(i, i + 2), line },
                        scan_from(s, i + 2, line)->Ok_0,
                        line,
                    );
                }
            } else {
                lemma_scan_from_lines(s, i + 1, line);
                if scan_from(s, i + 1, line) is Ok {
                    lemma_cons_lines(
                        SpecToken { kind: op1_kind(c), lexeme: s.subrange(i, i + 1), line },
                        scan_from(s, i + 1, line)->Ok_0,
                        line,
                    );
                }
            }
        } else if is_punct(c) {
            lemma_scan_from_lines(s, i + 1, line);
            if scan_from(s, i + 1, line) is Ok {
                lemma_cons_lines(
                    SpecToken { kind: punct_kind(c), lexeme: s.subrange(i, i + 1), line },
                    scan_from(s, i + 1, line)->Ok_0,
                    line,
                );
            }
        } else {
            lemma_scan_from_lines(s, i + 1, line);
        }
    }
}

/// Every successfully scanned source produces tokens whose line numbers are
/// 1-based and monotonically non-decreasing in emission order.
pub proof fn lemma_scan_lines_monotone(s: Seq<char>)
    requires
        spec_scan(s) is Ok,
    ensures
        ({
            let ts = spec_scan(s)->Ok_0;
            &&& forall|k: int| 0 <= k < ts.len() ==> 1 <= (#[trigger] ts[k]).line
            &&& forall|j: int, k: int|
                0 <= j <= k < ts.len() ==> (#[trigger] ts[j]).line <= (#[trigger] ts[k]).line
        }),
{
    lemma_scan_from_lines(s, 0, 1);
}

/// Inside a quoted literal whose content holds neither a quote nor a
/// backslash, the literal closes at the final quote and decodes to exactly
/// the remaining content.
proof fn lemma_text_plain(s: Seq<char>, i: int)
    requires
        forall|j: int| 0 <= j < s.len() ==> s[j] != '"' && (#[trigger] s[j]) != '\\',
        1 <= i <= s.len() + 1,
    ensures
        ({
            let src = seq!['"'] + s + seq!['"'];
            &&& text_closes(src, i)
            &&& text_end(src, i) == s.len() + 2
            &&& text_value(src, i) == s.subrange(i - 1, s.len() as int)
        }),
    decreases s.len() + 1 - i,
{
    let src = seq!['"'] + s + seq!['"'];
    assert(src.len() == s.len() + 2);
    if i == s.len() + 1 {
        assert(src[i] == '"');
        assert(text_value(src, i) =~= s.subrange(i - 1, s.len() as int));
    } else {
        assert(src[i] == s[i - 1]);
        assert(src[i] != '"' && src[i] != '\\');
        lemma_text_plain(s, i + 1);
        assert(text_value(src, i) == seq![src[i]] + text_value(src, i + 1));
        assert(seq![s[i - 1]] + s.subrange(i, s.len() as int) =~= s.subrange(
            i - 1,
            s.len() as int,
        ));
    }
}

/// Round trip for plain quoted text: scanning a source that is exactly a
/// quoted literal whose content holds neither a backslash nor a quote yields
/// a single text token, on line 1, whose decoded value equals the unquoted
/// source substring, followed only by the end-of-input sentinel.
pub proof fn lemma_text_round_trip(s: Seq<char>)
    requires
        forall|j: int| 0 <= j < s.len() ==> s[j] != '"' && (#[trigger] s[j]) != '\\',
    ensures
        ({
            let src = seq!['"'] + s + seq!['"'];
            &&& spec_scan(src) is Ok
            &&& spec_scan(src)->Ok_0.len() == 2
            &&& spec_scan(src)->Ok_0[0] == (SpecToken {
                kind: SpecKind::Text(s),
                lexeme: s,
                line: 1,
            })
            &&& spec_scan(src)->Ok_0[1].kind == SpecKind::EOF
        }),
{
    let src = seq!['"'] + s + seq!['"'];
    assert(src.len() == s.len() + 2);
    assert(src[0] == '"');
    lemma_text_plain(s, 1);
    let v = text_value(src, 1);
    assert(v =~= s);
    let line2 = (1 + text_newlines(src, 1)) as nat;
    let tok = SpecToken { kind: SpecKind::Text(v), lexeme: v, line: 1 };
    assert(scan_from(src, text_end(src, 1), line2) == Ok::<Seq<SpecToken>, LexError>(
        seq![eof_token(line2)],
    ));
    assert(spec_scan(src) == cons_token(tok, Ok::<Seq<SpecToken>, LexError>(seq![eof_token(line2)])));
    assert(spec_scan(src)->Ok_0 == seq![tok] + seq![eof_token(line2)]);
    assert((seq![tok] + seq![eof_token(line2)]).len() == 2);
    assert((seq![tok] + seq![eof_token(line2)])[0] == tok);
    assert((seq![tok] + seq![eof_token(line2)])[1] == eof_token(line2));
}

/// Maximal munch: a source that is exactly an operator character followed by
/// `=` scans to a single two-character operator token — never to two
/// one-character tokens — followed only by the end-of-input sentinel.
pub proof fn lemma_maximal_munch(c: char)
    requires
        is_op(c),
    ensures
        spec_scan(seq![c, '=']) == Ok::<Seq<SpecToken>, LexError>(
            seq![
                SpecToken { kind: op2_kind(c), lexeme: seq![c, '='], line: 1 },
                eof_token(1),
            ],
        ),
{
    let src = seq![c, '='];
    assert(src.len() == 2 && src[0] == c && src[1] == '=');
    assert(src.subrange(0, 2) =~= src);
    let tok = SpecToken { kind: op2_kind(c), lexeme: src.subrange(0, 2), line: 1 };
    assert(scan_from(src, 2, 1) == Ok::<Seq<SpecToken>, LexError>(seq![eof_token(1)]));
    assert(spec_scan(src)->Ok_0 == seq![tok] + seq![eof_token(1)]);
    assert(seq![tok] + seq![eof_token(1)] =~= seq![tok, eof_token(1)]);
}

proof fn lemma_ident_runs_to_end(s: Seq<char>, i: int)
    requires
        0 <= i <= s.len(),
        forall|j: int| i <= j < s.len() ==> is_ident_char(#[trigger] s[j]),
    ensures
        ident_end(s, i) == s.len(),
    decreases s.len() - i,
{
    if i < s.len() {
        lemma_ident_runs_to_end(s, i + 1);
    }
}

/// Keyword precedence, exactly: a source that is one whole word of
/// identifier characters scans to a single token — the keyword's token on a
/// full-table match, an identifier token otherwise — followed only by the
/// end-of-input sentinel. A word that merely extends a keyword falls to the
/// identifier case, since [`keyword_or_ident`] asks for an exact match.
pub proof fn lemma_keyword_token(s: Seq<char>)
    requires
        s.len() >= 1,
        is_alpha(s[0]),
        forall|j: int| 0 <= j < s.len() ==> is_ident_char(#[trigger] s[j]),
    ensures
        spec_scan(s) == Ok::<Seq<SpecToken>, LexError>(
            seq![
                SpecToken { kind: keyword_or_ident(s), lexeme: s, line: 1 },
                eof_token(1),
            ],
        ),
{
    lemma_ident_runs_to_end(s, 0);
    assert(s.subrange(0, s.len() as int) =~= s);
    let tok = SpecToken { kind: keyword_or_ident(s), lexeme: s, line: 1 };
    assert(scan_from(s, s.len() as int, 1) == Ok::<Seq<SpecToken>, LexError>(seq![eof_token(1)]));
    assert(seq![tok] + seq![eof_token(1)] =~= seq![tok, eof_token(1)]);
}

proof fn lemma_num_runs_to_end(s: Seq<char>, i: int, seen_dot: bool)
    requires
        0 <= i <= s.len(),
        forall|j: int| i <= j < s.len() ==> is_digit(#[trigger] s[j]) || s[j] == '.',
        forall|j: int, k: int|
            i <= j < k < s.len() ==> !((#[trigger] s[j]) == '.' && (#[trigger] s[k]) == '.'),
        seen_dot ==> forall|j: int| i <= j < s.len() ==> (#[trigger] s[j]) != '.',
    ensures
        num_ok(s, i, seen_dot),
        num_end(s, i, seen_dot) == s.len(),
    decreases s.len() - i,
{
    if i < s.len() {
        if is_digit(s[i]) {
            lemma_num_runs_to_end(s, i + 1, seen_dot);
        } else {
            assert(s[i] == '.');
            lemma_num_runs_to_end(s, i + 1, true);
        }
    }
}

/// Numeric lexing, exactly: a source that is one whole numeral — it opens
/// with a digit, holds only digits and at most one decimal point — scans to
/// a single number token carrying that numeral as its text, followed only by
/// the end-of-input sentinel. (Decoding the text to a machine number is the
/// host's step, outside the scanner.)
pub proof fn lemma_number_token(s: Seq<char>)
    requires
        s.len() >= 1,
        is_digit(s[0]),
        forall|j: int| 0 <= j < s.len() ==> is_digit(#[trigger] s[j]) || s[j] == '.',
        forall|j: int, k: int|
            0 <= j < k < s.len() ==> !((#[trigger] s[j]) == '.' && (#[trigger] s[k]) == '.'),
    ensures
        spec_scan(s) == Ok::<Seq<SpecToken>, LexError>(
            seq![
                SpecToken { kind: SpecKind::Number(s), lexeme: s, line: 1 },
                eof_token(1),
            ],
        ),
{
    lemma_num_runs_to_end(s, 0, false);
    assert(s.subrange(0, s.len() as int) =~= s);
    let tok = SpecToken { kind: SpecKind::Number(s), lexeme: s, line: 1 };
    assert(scan_from(s, s.len() as int, 1) == Ok::<Seq<SpecToken>, LexError>(seq![eof_token(1)]));
    assert(seq![tok] + seq![eof_token(1)] =~= seq![tok, eof_token(1)]);
}

/// A quoted literal that never closes — no matter what else the source held
/// before its opening quote was reached — is an unterminated-literal error,
/// reported at the line where the input ended.
pub proof fn lemma_unterminated_text(s: Seq<char>, i: int, line: nat)
    requires
        0 <= i < s.len(),
        s[i] == '"',
        !text_closes(s, i + 1),
    ensures
        scan_from(s, i, line) == Err::<Seq<SpecToken>, LexError>(
            LexError::UnterminatedText { line: (line + text_newlines(s, i + 1)) as usize },
        ),
{
}

/// A comparison/assignment operator standing as the very last character of
/// the input, reached by the scanner in operator position, is a
/// dangling-operator error at the current line. (Reaching it matters: the
/// same final character inside an unterminated quoted literal is an
/// unterminated-literal error instead.)
pub proof fn lemma_dangling_operator(s: Seq<char>, i: int, line: nat)
    requires
        0 <= i,
        i == s.len() - 1,
        is_op(s[i]),
    ensures
        scan_from(s, i, line) == Err::<Seq<SpecToken>, LexError>(
            LexError::DanglingOperator { op: s[i], line: line as usize },
        ),
{
}

} // verus!
