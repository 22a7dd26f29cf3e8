//! The lexer: turns source text into tokens, and records what it cannot read.

use vstd::prelude::*;
use vstd::string::*;
use vstd::utf8::*;
use crate::state::{InterpreterError, InterpreterState};
use crate::token::{Literal, Token, TokenData};

verus! {

// ---------------------------------------------------------------------------
// Text conversions of std

/// The text `String::from_utf8_lossy` makes of some bytes.
pub uninterp spec fn lossy_utf8(b: Seq<u8>) -> Seq<char>;

/// Calls `String::from_utf8_lossy` and takes the owned text. Claimed: the text
/// is `lossy_utf8` of the bytes, and for valid UTF-8 it is the decoded text.
/// How invalid sequences are replaced is left unsaid.
#[verifier::external_body]
fn text_of(bytes: &[u8]) -> (s: String)
    ensures
        s@ == lossy_utf8(bytes@),
        valid_utf8(bytes@) ==> s@ == decode_utf8(bytes@),
{
    String::from_utf8_lossy(bytes).into_owned()
}

/// Calls `String::push`. Claimed: the character is appended to the text.
#[verifier::external_body]
pub(crate) fn push_char(s: &mut String, c: char)
    ensures
        final(s)@ == old(s)@.push(c),
{
    s.push(c)
}

// ---------------------------------------------------------------------------
// What the lexer reads, as mathematics

/// A literal value found by the lexer: a string's characters or a number's text.
pub enum SpecLit {
    Str(Seq<char>),
    Num(Seq<u8>),
}

/// A token found by the lexer, with the source bytes it was read from.
pub struct SpecToken {
    pub token: Token,
    pub lexeme: Seq<u8>,
    pub literal: Option<SpecLit>,
    pub line: int,
}

/// The errors the lexer reports.
pub enum LexError {
    LoneBang,
    IllegalChar,
    UnclosedString,
}

/// An error with its line and the byte position of the token it was found in.
pub struct SpecError {
    pub kind: LexError,
    pub line: int,
    pub pos: int,
}

/// One token's worth of reading: where reading goes on, the line there, what was found.
/// `stuck` marks the input on which reading cannot go on (a number with a
/// fractional part at the very end of the source).
pub struct LexStep {
    pub next: int,
    pub line: int,
    pub token: Option<SpecToken>,
    pub error: Option<SpecError>,
    pub stuck: bool,
}

/// The tokens and errors read from a position to the end, and the last line.
pub struct LexRun {
    pub tokens: Seq<SpecToken>,
    pub errors: Seq<SpecError>,
    pub line: int,
    pub stuck: bool,
}

pub open spec fn is_digit_byte(c: u8) -> bool {
    48 <= c <= 57
}

pub open spec fn is_alpha_byte(c: u8) -> bool {
    (97 <= c <= 122) || (65 <= c <= 90) || c == 95
}

/// The tokens of one character.
pub open spec fn single_token(c: u8) -> Option<Token> {
    if c == 91 { Some(Token::LeftBrace) }
    else if c == 93 { Some(Token::RightBrace) }
    else if c == 123 { Some(Token::LeftCurlyBrace) }
    else if c == 125 { Some(Token::RightCurlyBrace) }
    else if c == 40 { Some(Token::LeftParen) }
    else if c == 41 { Some(Token::RightParen) }
    else if c == 44 { Some(Token::Comma) }
    else if c == 46 { Some(Token::Dot) }
    else if c == 45 { Some(Token::Minus) }
    else if c == 43 { Some(Token::Plus) }
    else if c == 47 { Some(Token::Slash) }
    else if c == 37 { Some(Token::Mod) }
    else if c == 42 { Some(Token::Star) }
    else if c == 94 { Some(Token::Power) }
    else if c == 58 { Some(Token::Colon) }
    else if c == 59 { Some(Token::Semicolon) }
    else { None }
}

/// `=`, `<`, `>` alone, or followed by `=`.
pub open spec fn compare_token(c: u8, with_equal: bool) -> Token {
    if c == 61 {
        if with_equal { Token::EqualEqual } else { Token::Equal }
    } else if c == 60 {
        if with_equal { Token::LessEqual } else { Token::Less }
    } else {
        if with_equal { Token::GreaterEqual } else { Token::Greater }
    }
}

/// The character an escape sequence `\c` stands for.
pub open spec fn unescape_byte(c: u8) -> Option<char> {
    if c == 110 { Some('\n') }
    else if c == 114 { Some('\r') }
    else if c == 116 { Some('\t') }
    else if c == 92 { Some('\\') }
    else if c == 34 { Some('"') }
    else { None }
}

/// The keywords, with their tokens.
pub open spec fn spec_keywords() -> Seq<(Seq<u8>, Token)> {
    seq![
        (seq![97u8, 110, 100], Token::And),
        (seq![99u8, 108, 97, 115, 115], Token::Class),
        (seq![101u8, 108, 115, 101], Token::Else),
        (seq![102u8, 97, 108, 115, 101], Token::False),
        (seq![102u8, 110], Token::Fn),
        (seq![102u8, 111, 114], Token::For),
        (seq![105u8, 102], Token::If),
        (seq![101u8, 108, 105, 102], Token::Elif),
        (seq![110u8, 105, 108], Token::Nil),
        (seq![111u8, 114], Token::Or),
        (seq![114u8, 101, 116, 117, 114, 110], Token::Return),
        (seq![98u8, 114, 101, 97, 107], Token::Break),
        (seq![99u8, 111, 110, 116, 105, 110, 117, 101], Token::Continue),
        (seq![115u8, 117, 112, 101, 114], Token::Super),
        (seq![116u8, 104, 105, 115], Token::This),
        (seq![116u8, 114, 117, 101], Token::True),
        (seq![108u8, 101, 116], Token::Let),
        (seq![119u8, 104, 105, 108, 101], Token::While),
        (seq![110u8, 111, 116], Token::Not),
        (seq![105u8, 110], Token::In),
        (seq![116u8, 114, 121], Token::Try),
        (seq![99u8, 97, 116, 99, 104], Token::Catch)
    ]
}

/// The token of a word, from the keywords at `i` onwards.
pub open spec fn keyword_from(w: Seq<u8>, i: int) -> Token
    decreases spec_keywords().len() - i,
{
    if i < 0 || i >= spec_keywords().len() {
        Token::Identifier
    } else if spec_keywords()[i].0 == w {
        spec_keywords()[i].1
    } else {
        keyword_from(w, i + 1)
    }
}

/// The token of a word: its keyword, or `Identifier`.
pub open spec fn keyword_of(w: Seq<u8>) -> Token {
    keyword_from(w, 0)
}

/// First position from `i` that ends a comment: a newline or the end.
pub open spec fn comment_end(src: Seq<u8>, i: int) -> int
    decreases src.len() - i,
{
    if i >= src.len() || src[i] == 10 { i } else { comment_end(src, i + 1) }
}

/// First position from `i` that holds no letter (or is the end).
pub open spec fn ident_end(src: Seq<u8>, i: int) -> int
    decreases src.len() - i,
{
    if i >= src.len() || !is_alpha_byte(src[i]) { i } else { ident_end(src, i + 1) }
}

/// First position from `i` that holds no digit (or is the end).
pub open spec fn digits_end(src: Seq<u8>, i: int) -> int
    decreases src.len() - i,
{
    if i >= src.len() || !is_digit_byte(src[i]) { i } else { digits_end(src, i + 1) }
}

/// Reading a string from `cur` (after the opening quote): the position of the
/// closing quote, the line there and the characters read; or, when the string
/// does not close or holds a bad escape, where reading stopped and no text.
/// Each byte that is not an escape stands for the character of the same number.
pub open spec fn scan_string(src: Seq<u8>, cur: int, line: int, lit: Seq<char>) -> (int, int, Option<Seq<char>>)
    decreases src.len() - cur,
{
    if cur < 0 || cur >= src.len() {
        (cur, line, None)
    } else if src[cur] == 34 {
        (cur, line, Some(lit))
    } else {
        let line2 = if src[cur] == 10 { line + 1 } else { line };
        if src[cur] == 92 {
            if cur + 1 >= src.len() {
                (cur + 1, line2, None)
            } else {
                match unescape_byte(src[cur + 1]) {
                    Some(ch) => scan_string(src, cur + 2, line2, lit.push(ch)),
                    None => (cur + 2, line2, None),
                }
            }
        } else {
            scan_string(src, cur + 1, line2, lit.push(src[cur] as char))
        }
    }
}

pub open spec fn tok_at(src: Seq<u8>, s: int, e: int, t: Token, lit: Option<SpecLit>, line: int) -> SpecToken {
    SpecToken { token: t, lexeme: src.subrange(s, e), literal: lit, line }
}

pub open spec fn step_tok(next: int, line: int, tk: SpecToken) -> LexStep {
    LexStep { next, line, token: Some(tk), error: None, stuck: false }
}

pub open spec fn step_skip(next: int, line: int) -> LexStep {
    LexStep { next, line, token: None, error: None, stuck: false }
}

pub open spec fn step_err(next: int, line: int, kind: LexError, pos: int) -> LexStep {
    LexStep { next, line, token: None, error: Some(SpecError { kind, line, pos }), stuck: false }
}

/// Reading a number that starts at `s`.
pub open spec fn number_step(src: Seq<u8>, s: int, line: int) -> LexStep {
    let e0 = digits_end(src, s + 1);
    if e0 < src.len() && src[e0] == 46 {
        let k = digits_end(src, e0 + 1);
        if k >= src.len() {
            LexStep { next: k, line, token: None, error: None, stuck: true }
        } else {
            step_tok(k, line, tok_at(src, s, k, Token::Number, Some(SpecLit::Num(src.subrange(s, k))), line))
        }
    } else {
        step_tok(e0, line, tok_at(src, s, e0, Token::Number, Some(SpecLit::Num(src.subrange(s, e0))), line))
    }
}

/// Reading a string whose opening quote is at `s`.
pub open spec fn string_step(src: Seq<u8>, s: int, line: int) -> LexStep {
    let r = scan_string(src, s + 1, line, Seq::empty());
    match r.2 {
        None => step_err(r.0, r.1, LexError::UnclosedString, s),
        Some(lit) => step_tok(r.0 + 1, r.1, tok_at(src, s, r.0 + 1, Token::String, Some(SpecLit::Str(lit)), r.1)),
    }
}

/// Reading the token that starts at `s` (where `0 <= s < src.len()`).
pub open spec fn lex_step(src: Seq<u8>, s: int, line: int) -> LexStep {
    let c = src[s];
    let n = s + 1;
    if single_token(c) is Some {
        step_tok(n, line, tok_at(src, s, n, single_token(c)->0, None, line))
    } else if c == 35 {
        step_skip(comment_end(src, n), line)
    } else if c == 33 {
        if n < src.len() && src[n] == 61 {
            step_tok(n + 1, line, tok_at(src, s, n + 1, Token::BangEqual, None, line))
        } else {
            step_err(n, line, LexError::LoneBang, s)
        }
    } else if c == 61 || c == 60 || c == 62 {
        if n < src.len() && src[n] == 61 {
            step_tok(n + 1, line, tok_at(src, s, n + 1, compare_token(c, true), None, line))
        } else {
            step_tok(n, line, tok_at(src, s, n, compare_token(c, false), None, line))
        }
    } else if c == 32 || c == 13 || c == 9 {
        step_skip(n, line)
    } else if c == 10 {
        step_tok(n, line + 1, tok_at(src, s, n, Token::Newline, None, line + 1))
    } else if c == 34 {
        string_step(src, s, line)
    } else if is_digit_byte(c) {
        number_step(src, s, line)
    } else if is_alpha_byte(c) {
        let e = ident_end(src, n);
        step_tok(e, line, tok_at(src, s, e, keyword_of(src.subrange(s, e)), None, line))
    } else {
        step_err(n, line, LexError::IllegalChar, s)
    }
}

pub open spec fn opt_seq<T>(o: Option<T>) -> Seq<T> {
    match o {
        Some(x) => seq![x],
        None => Seq::empty(),
    }
}

/// Everything read from position `pos` (at line `line`) to the end of `src`.
pub open spec fn lex_from(src: Seq<u8>, pos: int, line: int) -> LexRun
    decreases src.len() - pos,
{
    if pos < 0 || pos >= src.len() {
        LexRun { tokens: Seq::empty(), errors: Seq::empty(), line, stuck: false }
    } else {
        let st = lex_step(src, pos, line);
        if st.stuck || st.next <= pos || st.next > src.len() {
            LexRun { tokens: Seq::empty(), errors: Seq::empty(), line, stuck: true }
        } else {
            let rest = lex_from(src, st.next, st.line);
            LexRun {
                tokens: opt_seq(st.token) + rest.tokens,
                errors: opt_seq(st.error) + rest.errors,
                line: rest.line,
                stuck: rest.stuck,
            }
        }
    }
}

/// The message of each error.
pub open spec fn error_message(k: LexError) -> Seq<char> {
    match k {
        LexError::LoneBang => "'!' cannot be used here"@,
        LexError::IllegalChar => "Illegal character"@,
        LexError::UnclosedString => "Closing \" was expected"@,
    }
}

pub open spec fn literal_matches(l: Option<Literal>, s: Option<SpecLit>) -> bool {
    match (l, s) {
        (None, None) => true,
        (Some(Literal::String(t)), Some(SpecLit::Str(c))) => t@ == c,
        (Some(Literal::Number(t)), Some(SpecLit::Num(b))) => t@ == lossy_utf8(b),
        _ => false,
    }
}

/// A token holds what the lexer found: kind, text, literal and line.
pub open spec fn token_matches(t: TokenData, s: SpecToken) -> bool {
    &&& t.token == s.token
    &&& t.lexeme@ == lossy_utf8(s.lexeme)
    &&& literal_matches(t.literal, s.literal)
    &&& t.line == s.line
}

pub open spec fn error_matches(e: InterpreterError, s: SpecError) -> bool {
    &&& e.message@ == error_message(s.kind)
    &&& e.line == s.line
    &&& e.pos == s.pos
}

/// `new` is `old` after one step of reading: position, line, the token and the
/// error the step found, and nothing else changed.
pub open spec fn did_step(old: Lexer, new: Lexer, st: LexStep) -> bool {
    &&& new.state.source == old.state.source
    &&& new.state.stmts == old.state.stmts
    &&& new.start == old.start
    &&& new.current == st.next
    &&& new.line == st.line
    &&& match st.token {
        Some(t) => {
            &&& new.state.tokens@.len() == old.state.tokens@.len() + 1
            &&& new.state.tokens@.drop_last() == old.state.tokens@
            &&& token_matches(new.state.tokens@.last(), t)
        },
        None => new.state.tokens@ == old.state.tokens@,
    }
    &&& match st.error {
        Some(e) => {
            &&& new.state.errors@.len() == old.state.errors@.len() + 1
            &&& new.state.errors@.drop_last() == old.state.errors@
            &&& error_matches(new.state.errors@.last(), e)
        },
        None => new.state.errors@ == old.state.errors@,
    }
}

/// A token the lexer adds at the end: no text, no literal.
pub open spec fn end_token(t: Token, line: int) -> SpecToken {
    SpecToken { token: t, lexeme: Seq::empty(), literal: None, line }
}


/// Whether the lexer adds a newline before the end of input: there are tokens
/// and the last one is not a newline.
pub open spec fn needs_final_newline(before: Seq<TokenData>, run: Seq<SpecToken>) -> bool {
    if run.len() > 0 {
        run.last().token != Token::Newline
    } else {
        before.len() > 0 && before.last().token != Token::Newline
    }
}

// ---------------------------------------------------------------------------
// Facts about the reading

proof fn lemma_comment_end(src: Seq<u8>, i: int)
    requires 0 <= i <= src.len(),
    ensures i <= comment_end(src, i) <= src.len(),
    decreases src.len() - i,
{
    if i < src.len() && src[i] != 10 {
        lemma_comment_end(src, i + 1);
    }
}

proof fn lemma_ident_end(src: Seq<u8>, i: int)
    requires 0 <= i <= src.len(),
    ensures i <= ident_end(src, i) <= src.len(),
    decreases src.len() - i,
{
    if i < src.len() && is_alpha_byte(src[i]) {
        lemma_ident_end(src, i + 1);
    }
}

proof fn lemma_digits_end(src: Seq<u8>, i: int)
    requires 0 <= i <= src.len(),
    ensures
        i <= digits_end(src, i) <= src.len(),
        forall|j: int| i <= j < digits_end(src, i) ==> is_digit_byte(#[trigger] src[j]),
        digits_end(src, i) < src.len() ==> !is_digit_byte(src[digits_end(src, i)]),
    decreases src.len() - i,
{
    if i < src.len() && is_digit_byte(src[i]) {
        lemma_digits_end(src, i + 1);
    }
}

proof fn lemma_scan_string(src: Seq<u8>, cur: int, line: int, lit: Seq<char>)
    requires 0 <= cur <= src.len(),
    ensures
        ({
            let r = scan_string(src, cur, line, lit);
            &&& cur <= r.0 <= src.len()
            &&& line <= r.1 <= line + (r.0 - cur)
            &&& r.2 is Some ==> r.0 < src.len() && src[r.0] == 34
        }),
    decreases src.len() - cur,
{
    if cur < src.len() && src[cur] != 34 {
        let line2 = if src[cur] == 10 { line + 1 } else { line };
        if src[cur] == 92 {
            if cur + 1 < src.len() {
                match unescape_byte(src[cur + 1]) {
                    Some(ch) => lemma_scan_string(src, cur + 2, line2, lit.push(ch)),
                    None => {},
                }
            }
        } else {
            lemma_scan_string(src, cur + 1, line2, lit.push(src[cur] as char));
        }
    }
}

/// Inside a string literal, a backslash followed by `n`, `r`, `t`, a backslash or
/// a quote stands for a newline, a carriage return, a tab, a backslash or a
/// quote: reading goes on after the two bytes with that one character added to
/// the text. A backslash followed by any other byte ends the literal in an error.
pub proof fn lemma_string_escapes(src: Seq<u8>, cur: int, line: int, lit: Seq<char>)
    requires
        0 <= cur,
        cur + 1 < src.len(),
        src[cur] == 92,
    ensures
        src[cur + 1] == 110 ==> scan_string(src, cur, line, lit) == scan_string(src, cur + 2, line, lit.push('\n')),
        src[cur + 1] == 114 ==> scan_string(src, cur, line, lit) == scan_string(src, cur + 2, line, lit.push('\r')),
        src[cur + 1] == 116 ==> scan_string(src, cur, line, lit) == scan_string(src, cur + 2, line, lit.push('\t')),
        src[cur + 1] == 92 ==> scan_string(src, cur, line, lit) == scan_string(src, cur + 2, line, lit.push('\\')),
        src[cur + 1] == 34 ==> scan_string(src, cur, line, lit) == scan_string(src, cur + 2, line, lit.push('"')),
        src[cur + 1] != 110 && src[cur + 1] != 114 && src[cur + 1] != 116 && src[cur + 1] != 92
            && src[cur + 1] != 34 ==> scan_string(src, cur, line, lit) == (cur + 2, line, None::<Seq<char>>),
{
}

/// A string literal made of one escape sequence, `"\n"`, `"\r"`, `"\t"`, `"\\"`
/// or `"\""`, lexes to a String token whose text is the one character it
/// stands for: newline, carriage return, tab, backslash or quote.
pub proof fn lemma_escape_literal(src: Seq<u8>, s: int, line: int)
    requires
        0 <= s,
        s + 3 < src.len(),
        src[s] == 34,
        src[s + 1] == 92,
        src[s + 3] == 34,
    ensures
        src[s + 2] == 110 ==> lex_step(src, s, line).token == Some(tok_at(src, s, s + 4, Token::String, Some(SpecLit::Str(seq!['\n'])), line)),
        src[s + 2] == 114 ==> lex_step(src, s, line).token == Some(tok_at(src, s, s + 4, Token::String, Some(SpecLit::Str(seq!['\r'])), line)),
        src[s + 2] == 116 ==> lex_step(src, s, line).token == Some(tok_at(src, s, s + 4, Token::String, Some(SpecLit::Str(seq!['\t'])), line)),
        src[s + 2] == 92 ==> lex_step(src, s, line).token == Some(tok_at(src, s, s + 4, Token::String, Some(SpecLit::Str(seq!['\\'])), line)),
        src[s + 2] == 34 ==> lex_step(src, s, line).token == Some(tok_at(src, s, s + 4, Token::String, Some(SpecLit::Str(seq!['"'])), line)),
{
    reveal_with_fuel(scan_string, 3);
    lemma_string_escapes(src, s + 1, line, Seq::empty());
}

/// Reading a token moves forward, stays within the source and goes down at
/// most one line per byte read.
proof fn lemma_lex_step(src: Seq<u8>, s: int, line: int)
    requires 0 <= s < src.len(),
    ensures
        ({
            let st = lex_step(src, s, line);
            &&& !st.stuck ==> s < st.next <= src.len()
            &&& line <= st.line <= line + (st.next - s)
        }),
{
    let n = s + 1;
    lemma_comment_end(src, n);
    lemma_ident_end(src, n);
    lemma_digits_end(src, n);
    let e0 = digits_end(src, n);
    if e0 < src.len() {
        lemma_digits_end(src, e0 + 1);
    }
    lemma_scan_string(src, n, line, Seq::empty());
}

// ---------------------------------------------------------------------------
// The keywords

/// The keywords of the language, each with its token.
pub fn keywords() -> (r: Vec<(Vec<u8>, Token)>)
    ensures
        r@.len() == spec_keywords().len(),
        forall|i: int| 0 <= i < r@.len() ==> (#[trigger] r@[i]).0@ == spec_keywords()[i].0
            && r@[i].1 == spec_keywords()[i].1,
{
    let r: Vec<(Vec<u8>, Token)> = vec![
        (vec![97u8, 110, 100], Token::And),
        (vec![99u8, 108, 97, 115, 115], Token::Class),
        (vec![101u8, 108, 115, 101], Token::Else),
        (vec![102u8, 97, 108, 115, 101], Token::False),
        (vec![102u8, 110], Token::Fn),
        (vec![102u8, 111, 114], Token::For),
        (vec![105u8, 102], Token::If),
        (vec![101u8, 108, 105, 102], Token::Elif),
        (vec![110u8, 105, 108], Token::Nil),
        (vec![111u8, 114], Token::Or),
        (vec![114u8, 101, 116, 117, 114, 110], Token::Return),
        (vec![98u8, 114, 101, 97, 107], Token::Break),
        (vec![99u8, 111, 110, 116, 105, 110, 117, 101], Token::Continue),
        (vec![115u8, 117, 112, 101, 114], Token::Super),
        (vec![116u8, 104, 105, 115], Token::This),
        (vec![116u8, 114, 117, 101], Token::True),
        (vec![108u8, 101, 116], Token::Let),
        (vec![119u8, 104, 105, 108, 101], Token::While),
        (vec![110u8, 111, 116], Token::Not),
        (vec![105u8, 110], Token::In),
        (vec![116u8, 114, 121], Token::Try),
        (vec![99u8, 97, 116, 99, 104], Token::Catch)
    ];
    assert(r@.len() == spec_keywords().len());
    r
}

/// Whether `word` holds the same bytes as `kw`.
fn same_bytes(word: &[u8], kw: &Vec<u8>) -> (r: bool)
    ensures
        r == (word@ == kw@),
{
    if word.len() != kw.len() {
        return false;
    }
    let mut i: usize = 0;
    while i < word.len()
        invariant
            word@.len() == kw@.len(),
            i <= word@.len(),
            forall|j: int| 0 <= j < i ==> word@[j] == kw@[j],
        decreases word@.len() - i,
    {
        if word[i] != kw[i] {
            return false;
        }
        i = i + 1;
    }
    assert(word@ =~= kw@);
    true
}

/// The token of a word: its keyword, or `Identifier`.
fn keyword_token(word: &[u8]) -> (t: Token)
    ensures
        t == keyword_of(word@),
{
    let kwds = keywords();
    let mut i: usize = 0;
    while i < kwds.len()
        invariant
            i <= kwds@.len(),
            kwds@.len() == spec_keywords().len(),
            forall|j: int| 0 <= j < kwds@.len() ==> (#[trigger] kwds@[j]).0@ == spec_keywords()[j].0
                && kwds@[j].1 == spec_keywords()[j].1,
            keyword_from(word@, i as int) == keyword_of(word@),
        decreases kwds@.len() - i,
    {
        assert(kwds@[i as int].0@ == spec_keywords()[i as int].0);
        if same_bytes(word, &kwds[i].0) {
            return kwds[i].1;
        }
        i = i + 1;
    }
    Token::Identifier
}

// ---------------------------------------------------------------------------
// The lexer

/// Reads tokens from the source of a state into the state.
pub struct Lexer {
    pub start: usize,
    pub current: usize,
    pub line: i32,
    pub state: InterpreterState,
}

impl Lexer {
    /// The bytes of the source.
    pub open spec fn src(&self) -> Seq<u8> {
        encode_utf8(self.state.source@)
    }

    /// The lexer is at a position of its source, with a line that cannot overflow
    /// before the end.
    pub open spec fn wf(&self) -> bool {
        &&& self.start <= self.current <= self.src().len()
        &&& 0 <= self.line
        &&& self.line + (self.src().len() - self.current) < i32::MAX
    }

    /// Only the tokens of the state changed between `self` and `other`.
    pub open spec fn same_but_tokens(&self, other: &Lexer) -> bool {
        &&& other.state.source == self.state.source
        &&& other.state.errors == self.state.errors
        &&& other.state.stmts == self.state.stmts
        &&& other.start == self.start
        &&& other.current == self.current
        &&& other.line == self.line
    }

    /// A lexer at the start of `state`'s source.
    pub fn new(state: InterpreterState) -> (r: Lexer)
        ensures
            r.start == 0,
            r.current == 0,
            r.line == 0,
            r.state == state,
    {
        Lexer { start: 0, current: 0, line: 0, state: state }
    }

    fn source_len(&self) -> (n: usize)
        ensures
            n == self.src().len(),
    {
        self.state.source.as_str().as_bytes().len()
    }

    fn is_at_end(&self) -> (r: bool)
        ensures
            r == (self.current >= self.src().len()),
    {
        self.current >= self.source_len()
    }

    fn next(&self) -> (b: u8)
        requires
            self.current < self.src().len(),
        ensures
            b == self.src()[self.current as int],
    {
        self.state.source.as_str().as_bytes()[self.current]
    }

    fn advance(&mut self) -> (b: u8)
        requires
            old(self).current < old(self).src().len(),
        ensures
            b == old(self).src()[old(self).current as int],
            final(self).current == old(self).current + 1,
            final(self).start == old(self).start,
            final(self).line == old(self).line,
            final(self).state == old(self).state,
    {
        let c = self.next();
        let n = self.source_len();
        assert(self.current < n);
        self.current = self.current + 1;
        c
    }

    fn matches(&self, c: u8) -> (r: bool)
        ensures
            r == (self.current < self.src().len() && self.src()[self.current as int] == c),
    {
        if self.is_at_end() {
            return false;
        }
        self.next() == c
    }

    fn is_digit(&self, c: u8) -> (r: bool)
        ensures
            r == is_digit_byte(c),
    {
        let zero: u8 = 48;
        let nine: u8 = 57;
        c >= zero && c <= nine
    }

    fn is_alpha(&self, c: u8) -> (r: bool)
        ensures
            r == is_alpha_byte(c),
    {
        let a: u8 = 97;
        let z: u8 = 122;
        let big_a: u8 = 65;
        let big_z: u8 = 90;
        let underscore: u8 = 95;
        (c >= a && c <= z) || (c >= big_a && c <= big_z) || c == underscore
    }

    /// The text of the source bytes from `a` to `b`.
    fn text_between(&self, a: usize, b: usize) -> (s: String)
        requires
            a <= b <= self.src().len(),
        ensures
            s@ == lossy_utf8(self.src().subrange(a as int, b as int)),
    {
        text_of(&self.state.source.as_str().as_bytes()[a..b])
    }

    fn emit(&mut self, token: Token, l: Option<Literal>)
        requires
            old(self).start <= old(self).current <= old(self).src().len(),
        ensures
            old(self).same_but_tokens(final(self)),
            final(self).state.tokens@.len() == old(self).state.tokens@.len() + 1,
            final(self).state.tokens@.drop_last() == old(self).state.tokens@,
            final(self).state.tokens@.last().token == token,
            final(self).state.tokens@.last().lexeme@
                == lossy_utf8(old(self).src().subrange(old(self).start as int, old(self).current as int)),
            final(self).state.tokens@.last().literal == l,
            final(self).state.tokens@.last().line == old(self).line,
    {
        let lexeme = self.text_between(self.start, self.current);
        self.state.tokens.push(TokenData { token: token, lexeme: lexeme, literal: l, line: self.line });
        assert(self.state.tokens@.drop_last() =~= old(self).state.tokens@);
    }


    /// Reads the character after a backslash.
    fn unescape_sequence(&mut self) -> (r: Option<char>)
        ensures
            old(self).current < old(self).src().len() ==> {
                &&& final(self).current == old(self).current + 1
                &&& r == unescape_byte(old(self).src()[old(self).current as int])
            },
            old(self).current < old(self).src().len() && old(self).src()[old(self).current as int] == 110 ==> r == Some('\n'),
            old(self).current < old(self).src().len() && old(self).src()[old(self).current as int] == 114 ==> r == Some('\r'),
            old(self).current < old(self).src().len() && old(self).src()[old(self).current as int] == 116 ==> r == Some('\t'),
            old(self).current < old(self).src().len() && old(self).src()[old(self).current as int] == 92 ==> r == Some('\\'),
            old(self).current < old(self).src().len() && old(self).src()[old(self).current as int] == 34 ==> r == Some('"'),
            old(self).current >= old(self).src().len() ==> {
                &&& final(self).current == old(self).current
                &&& r is None
            },
            final(self).start == old(self).start,
            final(self).line == old(self).line,
            final(self).state == old(self).state,
    {
        if self.is_at_end() {
            return None;
        }
        let c = self.advance();
        match c {
            110 => Some('\n'),
            114 => Some('\r'),
            116 => Some('\t'),
            92 => Some('\\'),
            34 => Some('"'),
            _ => None,
        }
    }

    /// Reads a string whose opening quote was just read.
    fn string(&mut self)
        requires
            old(self).wf(),
            old(self).current == old(self).start + 1,
            old(self).src()[old(self).start as int] == 34,
        ensures
            did_step(*old(self), *final(self), string_step(old(self).src(), old(self).start as int, old(self).line as int)),
            final(self).wf(),
    {
        let ghost src = self.src();
        let ghost s = self.start as int;
        let ghost line0 = self.line as int;
        let ghost start_state = *self;
        proof {
            lemma_scan_string(src, s + 1, line0, Seq::empty());
        }
        let mut lit = String::new();
        while !self.is_at_end() && !self.matches(34)
            invariant
                self.src() == src,
                self.state == start_state.state,
                start_state == *old(self),
                start_state.start == s,
                self.start == s,
                s + 1 <= self.current <= src.len(),
                0 <= self.line,
                self.line + (src.len() - self.current) < i32::MAX,
                line0 == start_state.line,
                src == start_state.src(),
                scan_string(src, self.current as int, self.line as int, lit@)
                    == scan_string(src, s + 1, line0, Seq::empty()),
            decreases src.len() - self.current,
        {
            let ghost cur = self.current as int;
            let ghost ln = self.line as int;
            let ghost lit0 = lit@;
            if self.matches(10) {
                self.line = self.line + 1;
            }
            if self.matches(92) {
                self.advance();
                let unescaped = self.unescape_sequence();
                match unescaped {
                    None => {
                        assert(scan_string(src, cur, ln, lit0) == (self.current as int, self.line as int, None::<Seq<char>>));
                        let msg = String::from_str("Closing \" was expected");
                        self.error(msg);
                        assert(self.state.errors@.drop_last() =~= start_state.state.errors@);
                        return;
                    },
                    Some(ch) => {
                        push_char(&mut lit, ch);
                        continue;
                    },
                }
            }
            let b = self.next();
            push_char(&mut lit, b as char);
            self.advance();
        }
        if self.is_at_end() {
            let msg = String::from_str("Closing \" was expected");
            self.error(msg);
            assert(self.state.errors@.drop_last() =~= start_state.state.errors@);
            return;
        }
        self.advance();
        self.emit(Token::String, Some(Literal::String(lit)));
    }

    /// Reads a number whose first digit was just read. Returns false, and
    /// reads no further, when a fractional part runs to the end of the source.
    fn number(&mut self) -> (ok: bool)
        requires
            old(self).wf(),
            old(self).current == old(self).start + 1,
            is_digit_byte(old(self).src()[old(self).start as int]),
        ensures
            ok == !number_step(old(self).src(), old(self).start as int, old(self).line as int).stuck,
            ok ==> did_step(*old(self), *final(self), number_step(old(self).src(), old(self).start as int, old(self).line as int)),
            ok ==> final(self).wf(),
    {
        let ghost src = self.src();
        let ghost s = self.start as int;
        let ghost start_state = *self;
        proof {
            lemma_digits_end(src, s + 1);
        }
        while !self.is_at_end() && self.is_digit(self.next())
            invariant
                self.src() == src,
                self.state == start_state.state,
                start_state == *old(self),
                start_state.start == s,
                self.start == s,
                self.line == start_state.line,
                s + 1 <= self.current <= src.len(),
                digits_end(src, self.current as int) == digits_end(src, s + 1),
            decreases src.len() - self.current,
        {
            self.advance();
        }
        if self.matches(46) {
            self.advance();
            let ghost k = digits_end(src, self.current as int);
            proof {
                lemma_digits_end(src, self.current as int);
            }
            while !self.is_at_end() && self.is_digit(self.next())
                invariant
                    self.src() == src,
                    self.state == start_state.state,
                    start_state == *old(self),
                    start_state.start == s,
                    self.start == s,
                    self.line == start_state.line,
                    self.current <= k,
                    k <= src.len(),
                    digits_end(src, self.current as int) == k,
                decreases src.len() - self.current,
            {
                self.advance();
                proof {
                    lemma_digits_end(src, self.current as int);
                }
            }
            if self.is_at_end() {
                return false;
            }
        }
        let text = self.text_between(self.start, self.current);
        self.emit(Token::Number, Some(Literal::Number(text)));
        true
    }

    /// Reads a word whose first letter was just read: a keyword or an identifier.
    fn identifier(&mut self)
        requires
            old(self).wf(),
            old(self).current == old(self).start + 1,
            is_alpha_byte(old(self).src()[old(self).start as int]),
        ensures
            ({
                let src = old(self).src();
                let s = old(self).start as int;
                let e = ident_end(src, s + 1);
                did_step(*old(self), *final(self),
                    step_tok(e, old(self).line as int, tok_at(src, s, e, keyword_of(src.subrange(s, e)), None, old(self).line as int)))
            }),
            final(self).wf(),
    {
        let ghost src = self.src();
        let ghost s = self.start as int;
        let ghost start_state = *self;
        proof {
            lemma_ident_end(src, s + 1);
        }
        while !self.is_at_end() && self.is_alpha(self.next())
            invariant
                self.src() == src,
                self.state == start_state.state,
                start_state == *old(self),
                start_state.start == s,
                self.start == s,
                self.line == start_state.line,
                s + 1 <= self.current <= src.len(),
                ident_end(src, self.current as int) == ident_end(src, s + 1),
            decreases src.len() - self.current,
        {
            self.advance();
        }
        let token = keyword_token(&self.state.source.as_str().as_bytes()[self.start..self.current]);
        self.emit(token, None);
    }

    /// Reads the token that starts at the current position. Returns false
    /// when reading cannot go on (see `number`).
    fn scan_token(&mut self) -> (ok: bool)
        requires
            old(self).wf(),
            old(self).start == old(self).current,
            old(self).current < old(self).src().len(),
        ensures
            ok == !lex_step(old(self).src(), old(self).current as int, old(self).line as int).stuck,
            ok ==> did_step(*old(self), *final(self), lex_step(old(self).src(), old(self).current as int, old(self).line as int)),
            ok ==> final(self).wf(),
    {
        let ghost src = self.src();
        let ghost s = self.start as int;
        let ghost start_state = *self;
        proof {
            lemma_lex_step(src, s, self.line as int);
            lemma_comment_end(src, s + 1);
        }
        let c = self.advance();
        match c {
            91 => self.emit(Token::LeftBrace, None),
            93 => self.emit(Token::RightBrace, None),
            123 => self.emit(Token::LeftCurlyBrace, None),
            125 => self.emit(Token::RightCurlyBrace, None),
            40 => self.emit(Token::LeftParen, None),
            41 => self.emit(Token::RightParen, None),
            44 => self.emit(Token::Comma, None),
            46 => self.emit(Token::Dot, None),
            45 => self.emit(Token::Minus, None),
            43 => self.emit(Token::Plus, None),
            47 => self.emit(Token::Slash, None),
            37 => self.emit(Token::Mod, None),
            42 => self.emit(Token::Star, None),
            94 => self.emit(Token::Power, None),
            58 => self.emit(Token::Colon, None),
            59 => self.emit(Token::Semicolon, None),
            35 => {
                while !self.matches(10) && !self.is_at_end()
                    invariant
                        self.src() == src,
                        self.state == start_state.state,
                        start_state == *old(self),
                        start_state.start == s,
                        self.start == s,
                        self.line == start_state.line,
                        s + 1 <= self.current <= src.len(),
                        comment_end(src, self.current as int) == comment_end(src, s + 1),
                    decreases src.len() - self.current,
                {
                    self.advance();
                }
            },
            33 => {
                if self.matches(61) {
                    self.advance();
                    self.emit(Token::BangEqual, None);
                } else {
                    let msg = String::from_str("'!' cannot be used here");
                    self.error(msg);
                    assert(self.state.errors@.drop_last() =~= start_state.state.errors@);
                }
            },
            61 => {
                if self.matches(61) {
                    self.advance();
                    self.emit(Token::EqualEqual, None);
                } else {
                    self.emit(Token::Equal, None);
                }
            },
            60 => {
                if self.matches(61) {
                    self.advance();
                    self.emit(Token::LessEqual, None);
                } else {
                    self.emit(Token::Less, None);
                }
            },
            62 => {
                if self.matches(61) {
                    self.advance();
                    self.emit(Token::GreaterEqual, None);
                } else {
                    self.emit(Token::Greater, None);
                }
            },
            32 => {},
            13 => {},
            9 => {},
            10 => {
                self.line = self.line + 1;
                self.emit(Token::Newline, None);
            },
            34 => self.string(),
            _ => {
                if self.is_digit(c) {
                    return self.number();
                } else if self.is_alpha(c) {
                    self.identifier();
                } else {
                    let msg = String::from_str("Illegal character");
                    self.error(msg);
                    assert(self.state.errors@.drop_last() =~= start_state.state.errors@);
                }
            },
        }
        true
    }


    /// Reads every token from the current position to the end of the source,
    /// then closes the token list with a newline (when the last token is not
    /// one) and an end-of-input token. Returns false, with the reading left
    /// unfinished, on a source where reading cannot go on: one that ends in a
    /// number with a fractional part.
    pub fn scan(&mut self) -> (ok: bool)
        requires
            old(self).wf(),
        ensures
            ok == !lex_from(old(self).src(), old(self).current as int, old(self).line as int).stuck,
            ok ==> final(self).state.source == old(self).state.source,
            ok ==> final(self).state.stmts == old(self).state.stmts,
            ok ==> final(self).current == old(self).src().len(),
            ok ==> ({
                let run = lex_from(old(self).src(), old(self).current as int, old(self).line as int);
                let before = old(self).state.tokens@;
                let n0 = before.len();
                let k = run.tokens.len();
                let toks = final(self).state.tokens@;
                let nl = needs_final_newline(before, run.tokens);
                &&& final(self).line == run.line
                &&& toks.len() == n0 + k + (if nl { 2int } else { 1int })
                &&& toks.subrange(0, n0 as int) == before
                &&& forall|i: int| 0 <= i < k ==> token_matches(#[trigger] toks[n0 + i], run.tokens[i])
                &&& nl ==> token_matches(toks[(n0 + k) as int], end_token(Token::Newline, run.line))
                &&& token_matches(toks.last(), end_token(Token::EOF, run.line))
                &&& final(self).state.errors@.len() == old(self).state.errors@.len() + run.errors.len()
                &&& final(self).state.errors@.subrange(0, old(self).state.errors@.len() as int)
                    == old(self).state.errors@
                &&& forall|i: int| 0 <= i < run.errors.len() ==> error_matches(
                    #[trigger] final(self).state.errors@[old(self).state.errors@.len() + i],
                    run.errors[i],
                )
            }),
    {
        let ghost src = self.src();
        let ghost total = lex_from(src, self.current as int, self.line as int);
        let ghost before = self.state.tokens@;
        let ghost errs0 = self.state.errors@;
        let ghost n0 = before.len();
        let ghost m0 = errs0.len();
        let ghost mut done_t: Seq<SpecToken> = Seq::empty();
        let ghost mut done_e: Seq<SpecError> = Seq::empty();
        let ghost source0 = self.state.source;
        let ghost stmts0 = self.state.stmts;
        assert(done_t + total.tokens =~= total.tokens);
        assert(done_e + total.errors =~= total.errors);
        while !self.is_at_end()
            invariant
                self.wf(),
                self.src() == src,
                src == old(self).src(),
                total == lex_from(old(self).src(), old(self).current as int, old(self).line as int),
                self.state.source == source0,
                self.state.stmts == stmts0,
                ({
                    let rest = lex_from(src, self.current as int, self.line as int);
                    &&& done_t + rest.tokens == total.tokens
                    &&& done_e + rest.errors == total.errors
                    &&& rest.line == total.line
                    &&& rest.stuck == total.stuck
                }),
                self.state.tokens@.len() == n0 + done_t.len(),
                self.state.tokens@.subrange(0, n0 as int) == before,
                forall|i: int| 0 <= i < done_t.len() ==> token_matches(#[trigger] self.state.tokens@[n0 + i], done_t[i]),
                self.state.errors@.len() == m0 + done_e.len(),
                self.state.errors@.subrange(0, m0 as int) == errs0,
                forall|i: int| 0 <= i < done_e.len() ==> error_matches(#[trigger] self.state.errors@[m0 + i], done_e[i]),
            decreases src.len() - self.current,
        {
            self.start = self.current;
            let ghost pos = self.current as int;
            let ghost ln = self.line as int;
            let ghost st = lex_step(src, pos, ln);
            let ghost toks_before = self.state.tokens@;
            let ghost errs_before = self.state.errors@;
            proof {
                lemma_lex_step(src, pos, ln);
                let rest = lex_from(src, pos, ln);
                let rest2 = lex_from(src, st.next, st.line);
                if !st.stuck {
                    assert(rest.tokens == opt_seq(st.token) + rest2.tokens);
                    assert(rest.errors == opt_seq(st.error) + rest2.errors);
                } else {
                    assert(rest.stuck);
                    assert(total.stuck);
                }
            }
            if !self.scan_token() {
                assert(total.stuck);
                return false;
            }
            proof {
                let rest2 = lex_from(src, st.next, st.line);
                assert(done_t + (opt_seq(st.token) + rest2.tokens) =~= (done_t + opt_seq(st.token)) + rest2.tokens);
                assert(done_e + (opt_seq(st.error) + rest2.errors) =~= (done_e + opt_seq(st.error)) + rest2.errors);
                done_t = done_t + opt_seq(st.token);
                done_e = done_e + opt_seq(st.error);
                assert(self.state.tokens@.subrange(0, n0 as int) =~= before) by {
                    if st.token is Some {
                        assert(self.state.tokens@.subrange(0, n0 as int) =~= toks_before.subrange(0, n0 as int));
                    }
                }
                assert(self.state.errors@.subrange(0, m0 as int) =~= errs0) by {
                    if st.error is Some {
                        assert(self.state.errors@.subrange(0, m0 as int) =~= errs_before.subrange(0, m0 as int));
                    }
                }
                assert forall|i: int| 0 <= i < done_t.len() implies token_matches(#[trigger] self.state.tokens@[n0 + i], done_t[i]) by {
                    if st.token is Some && i == done_t.len() - 1 {
                    } else {
                        assert(self.state.tokens@[n0 + i] == toks_before[n0 + i]);
                    }
                }
                assert forall|i: int| 0 <= i < done_e.len() implies error_matches(#[trigger] self.state.errors@[m0 + i], done_e[i]) by {
                    if st.error is Some && i == done_e.len() - 1 {
                    } else {
                        assert(self.state.errors@[m0 + i] == errs_before[m0 + i]);
                    }
                }
            }
        }
        proof {
            assert(done_t =~= total.tokens);
            assert(done_e =~= total.errors);
        }
        let ghost mid = self.state.tokens@;
        let token_count = self.state.tokens.len();
        if token_count > 0 && self.state.tokens[token_count - 1].token != Token::Newline {
            let lexeme = self.text_between(self.current, self.current);
            proof {
                assert(src.subrange(self.current as int, self.current as int) =~= Seq::<u8>::empty());
            }
            self.state.tokens.push(TokenData { token: Token::Newline, lexeme: lexeme, literal: None, line: self.line });
        }
        let ghost mid2 = self.state.tokens@;
        let lexeme = self.text_between(self.current, self.current);
        proof {
            assert(src.subrange(self.current as int, self.current as int) =~= Seq::<u8>::empty());
        }
        self.state.tokens.push(TokenData { token: Token::EOF, lexeme: lexeme, literal: None, line: self.line });
        proof {
            let toks = self.state.tokens@;
            assert(toks.subrange(0, n0 as int) =~= before) by {
                assert(toks.subrange(0, n0 as int) =~= mid.subrange(0, n0 as int));
            }
            assert forall|i: int| 0 <= i < total.tokens.len() implies token_matches(#[trigger] toks[n0 + i], total.tokens[i]) by {
                assert(toks[n0 + i] == mid[n0 + i]);
            }
            let k = total.tokens.len();
            if k > 0 {
                let j = k - 1;
                assert(token_matches(mid[n0 + j], total.tokens[j]));
                assert(mid.last() == mid[n0 + j]);
            } else {
                assert(mid =~= before) by {
                    assert(mid =~= mid.subrange(0, n0 as int));
                }
            }
            let nl = needs_final_newline(before, total.tokens);
            assert(mid.len() > 0 && mid.last().token != Token::Newline <==> nl);
            if nl {
                assert(mid2.len() == mid.len() + 1);
                assert(toks[(n0 + k) as int] == mid2[(n0 + k) as int]);
            } else {
                assert(mid2 == mid);
            }
        }
        true
    }

    fn error(&mut self, message: String)
        ensures
            final(self).state.errors@ == old(self).state.errors@.push(
                InterpreterError { message: message, line: old(self).line, pos: old(self).start },
            ),
            final(self).state.source == old(self).state.source,
            final(self).state.tokens == old(self).state.tokens,
            final(self).state.stmts == old(self).state.stmts,
            final(self).start == old(self).start,
            final(self).current == old(self).current,
            final(self).line == old(self).line,
    {
        let err = InterpreterError { message: message, line: self.line, pos: self.start };
        self.state.set_error(err);
    }
}

} // verus!
