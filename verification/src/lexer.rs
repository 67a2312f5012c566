//! The lexer: turns source text into tokens, one call at a time.
use vstd::prelude::*;
use crate::text::{string_of_str, chars_of, byte_slice_ok, byte_slice, first_bad_offset, slice_by_bytes,
    decimal, push_decimal, lemma_ascii_byte_slice};
use vstd::utf8::is_ascii_chars;
use crate::token::{Token, TokenType, TokenView, Position};

verus! {

/// Why the lexer refused the text at hand.
#[derive(Debug, PartialEq, Eq, Clone, Copy, Structural)]
pub enum LexError {
    /// A second `.` inside a number.
    UnexpectedDot,
    /// A backslash in a string followed by a character other than `n`, `t` or `"`.
    UnrecognizedEscape,
    /// A backslash at the very end of the input.
    UnterminatedEscape,
    /// A character that starts no token.
    UnexpectedCharacter(char),
    /// A token whose text cannot be taken from the input: the lexer counts
    /// characters and takes a token's text between those counts used as byte
    /// offsets into the input, and here one of them (the one given) falls
    /// inside a character. The lexer has no answer here and stops the program.
    NotCharBoundary(usize),
}

impl LexError {
    /// Whether the lexer stops the program on this error rather than
    /// reporting it.
    pub open spec fn halts(self) -> bool {
        self is NotCharBoundary
    }

    /// Whether the lexer stops the program on this error rather than
    /// reporting it.
    pub fn is_halt(&self) -> (r: bool)
        ensures
            r == self.halts(),
    {
        match self {
            LexError::NotCharBoundary(_) => true,
            _ => false,
        }
    }
}

/// The message that the lexer reports for an error.
pub open spec fn lex_error_message(e: LexError) -> Seq<char> {
    match e {
        LexError::UnexpectedDot => "Unexpected '.'"@,
        LexError::UnrecognizedEscape => "unrecognized escape sequence"@,
        LexError::UnterminatedEscape => "unterminated escape sequence"@,
        LexError::UnexpectedCharacter(c) => "Unexpected character '"@ + seq![c] + "'"@,
        LexError::NotCharBoundary(i) => "byte index "@ + decimal(i as nat) + " is not a char boundary"@,
    }
}

impl LexError {
    /// The message of this error.
    pub fn message(&self) -> (r: String)
        ensures
            r@ == lex_error_message(*self),
    {
        match self {
            LexError::UnexpectedDot => string_of_str("Unexpected '.'"),
            LexError::UnrecognizedEscape => string_of_str("unrecognized escape sequence"),
            LexError::UnterminatedEscape => string_of_str("unterminated escape sequence"),
            LexError::UnexpectedCharacter(c) => {
                let mut s = string_of_str("Unexpected character '");
                s.push(*c);
                s.append("'");
                s
            },
            LexError::NotCharBoundary(i) => {
                let mut s = string_of_str("byte index ");
                push_decimal(&mut s, *i as u64);
                s.append(" is not a char boundary");
                s
            },
        }
    }
}

// ---------------------------------------------------------------------------
// Character classes

pub open spec fn is_digit(c: char) -> bool {
    '0' <= c && c <= '9'
}

pub open spec fn is_ident_start(c: char) -> bool {
    ('a' <= c && c <= 'z') || ('A' <= c && c <= 'Z') || c == '_'
}

pub open spec fn is_ident_char(c: char) -> bool {
    is_ident_start(c) || is_digit(c)
}

pub open spec fn is_blank(c: char) -> bool {
    c == '\r' || c == ' ' || c == '\t'
}

/// The kind of a token made of the single character `c`, where there is one.
pub open spec fn single_char_token(c: char) -> Option<TokenType> {
    if c == '+' { Some(TokenType::Plus) }
    else if c == '-' { Some(TokenType::Minus) }
    else if c == '/' { Some(TokenType::Slash) }
    else if c == '^' { Some(TokenType::Caret) }
    else if c == '[' { Some(TokenType::LeftBracket) }
    else if c == ']' { Some(TokenType::RightBracket) }
    else if c == '{' { Some(TokenType::LeftBrace) }
    else if c == '}' { Some(TokenType::RightBrace) }
    else if c == '(' { Some(TokenType::LeftParen) }
    else if c == ')' { Some(TokenType::RightParen) }
    else if c == '%' { Some(TokenType::Percent) }
    else if c == ';' { Some(TokenType::Semicolon) }
    else if c == ',' { Some(TokenType::Comma) }
    else { None }
}

/// For a character `c` that starts a one- or two-character operator: the
/// second character of the long form, the kind of the short form and the
/// kind of the long form.
pub open spec fn pair_token(c: char) -> Option<(char, TokenType, TokenType)> {
    if c == '*' { Some(('*', TokenType::Star, TokenType::StarStar)) }
    else if c == '&' { Some(('&', TokenType::And, TokenType::AndAnd)) }
    else if c == '|' { Some(('|', TokenType::Pipe, TokenType::PipePipe)) }
    else if c == '=' { Some(('=', TokenType::Equal, TokenType::EqualEqual)) }
    else if c == '<' { Some(('=', TokenType::LessThan, TokenType::LessThanEqual)) }
    else if c == '>' { Some(('=', TokenType::GreaterThan, TokenType::GreaterThanEqual)) }
    else if c == '!' { Some(('=', TokenType::Bang, TokenType::BangEqual)) }
    else { None }
}

/// The kind of a word: a keyword's own kind, or `Identifier`.
pub open spec fn word_type(w: Seq<char>) -> TokenType {
    if w == "return"@ { TokenType::Return }
    else if w == "for"@ { TokenType::For }
    else if w == "while"@ { TokenType::While }
    else if w == "function"@ { TokenType::Function }
    else if w == "let"@ { TokenType::Let }
    else if w == "if"@ { TokenType::If }
    else if w == "else"@ { TokenType::Else }
    else if w == "break"@ { TokenType::Break }
    else if w == "continue"@ { TokenType::Continue }
    else { TokenType::Identifier }
}

// ---------------------------------------------------------------------------
// Scanning, stated over the input characters

/// The end of the identifier characters of `s` that start at `i`.
pub open spec fn ident_end(s: Seq<char>, i: int) -> int
    decreases s.len() - i,
{
    if i < 0 || i >= s.len() || !is_ident_char(s[i]) {
        i
    } else {
        ident_end(s, i + 1)
    }
}

/// Reads the rest of a number from `i`: digits, and at most one `.`.
/// Returns where it stopped, whether a `.` was seen, and whether a second
/// `.` was met (the error, after which the scan stops past that `.`).
pub open spec fn number_end(s: Seq<char>, i: int, dot: bool) -> (int, bool, bool)
    decreases s.len() - i,
{
    if i < 0 || i >= s.len() {
        (i, dot, false)
    } else if is_digit(s[i]) {
        number_end(s, i + 1, dot)
    } else if s[i] == '.' {
        if dot {
            (i + 1, dot, true)
        } else {
            number_end(s, i + 1, true)
        }
    } else {
        (i, dot, false)
    }
}

/// Reads the rest of a string literal from `i` (the opening quote is
/// behind): up to and past the closing quote, or to the end of the input.
/// Returns where it stopped and the error met on the way, if any.
pub open spec fn string_end(s: Seq<char>, i: int) -> (int, Option<LexError>)
    decreases s.len() - i,
{
    if i < 0 || i >= s.len() {
        (i, None)
    } else if s[i] == '\\' {
        if i + 1 >= s.len() {
            (i + 1, Some(LexError::UnterminatedEscape))
        } else if s[i + 1] == 'n' || s[i + 1] == 't' || s[i + 1] == '"' {
            string_end(s, i + 2)
        } else {
            (i + 2, Some(LexError::UnrecognizedEscape))
        }
    } else if s[i] == '"' {
        (i + 1, None)
    } else {
        string_end(s, i + 1)
    }
}

/// The state of a lexer: the input, the index of the next character, and
/// the line and column the lexer counts.
pub struct LexState {
    pub input: Seq<char>,
    pub pos: int,
    pub line: int,
    pub column: int,
}

/// What one call of the lexer gives.
pub enum Lexed {
    End,
    Token(TokenView),
    Error(LexError),
}

/// One call of the lexer: what it gives and where it leaves the lexer.
pub struct LexStep {
    pub outcome: Lexed,
    pub pos: int,
    pub line: int,
    pub column: int,
}

/// Reads one token (or error) at `p`, where `s[p]` is neither blank, nor a
/// line break, nor a `#`. `start` and `start_column` are the index and the
/// column the token is reported from. A token's text lies between `start` and
/// the index where the token ends, both taken as byte offsets into the UTF-8
/// encoding of the input (on ASCII input, the characters between them).
pub open spec fn token_at(s: Seq<char>, p: int, line: int, column: int, start: int, start_column: int) -> LexStep
    recommends
        0 <= p < s.len(),
{
    let c = s[p];
    let tok = |typ: TokenType, end: int| LexStep {
        outcome: if byte_slice_ok(s, start, end) {
            Lexed::Token(TokenView {
                typ,
                line: line as usize,
                column: start_column as usize,
                text: byte_slice(s, start, end),
            })
        } else {
            Lexed::Error(LexError::NotCharBoundary(first_bad_offset(s, start, end) as usize))
        },
        pos: end,
        line,
        column: column + (end - p),
    };
    let err = |e: LexError, end: int| LexStep {
        outcome: Lexed::Error(e),
        pos: end,
        line,
        column: column + (end - p),
    };
    if single_char_token(c) is Some {
        tok(single_char_token(c)->0, p + 1)
    } else if pair_token(c) is Some {
        let (second, short, long) = pair_token(c)->0;
        if p + 1 < s.len() && s[p + 1] == second {
            tok(long, p + 2)
        } else {
            tok(short, p + 1)
        }
    } else if is_digit(c) {
        let (end, dot, bad) = number_end(s, p + 1, false);
        if bad {
            err(LexError::UnexpectedDot, end)
        } else if dot {
            tok(TokenType::Double, end)
        } else {
            tok(TokenType::Integer, end)
        }
    } else if is_ident_start(c) {
        let end = ident_end(s, p + 1);
        tok(word_type(byte_slice(s, start, end)), end)
    } else if c == '"' {
        let (end, e) = string_end(s, p + 1);
        match e {
            Some(e) => err(e, end),
            None => tok(TokenType::String, end),
        }
    } else {
        err(LexError::UnexpectedCharacter(c), p + 1)
    }
}

/// The lexer at `p`, with the token to be reported from `start` and
/// `start_column`: skips blanks, line breaks and comments, then reads one
/// token. A line break moves to the next line and column 1. A comment runs
/// from `#` past the next line break (or to the end of the input); it moves
/// the column along and leaves the line as it is, and of its characters only
/// one is dropped from the text of the token that follows it.
pub open spec fn scan(s: Seq<char>, p: int, line: int, column: int, start: int, start_column: int) -> LexStep
    decreases s.len() - p, 1int,
{
    if p < 0 || p >= s.len() {
        LexStep { outcome: Lexed::End, pos: p, line, column }
    } else if s[p] == '\n' {
        scan(s, p + 1, line + 1, 1, start + 1, 1)
    } else if is_blank(s[p]) {
        scan(s, p + 1, line, column + 1, start + 1, start_column + 1)
    } else if s[p] == '#' {
        scan_comment(s, p + 1, line, column + 1, start + 1, start_column)
    } else {
        token_at(s, p, line, column, start, start_column)
    }
}

/// The lexer inside a comment at `p`.
pub open spec fn scan_comment(s: Seq<char>, p: int, line: int, column: int, start: int, start_column: int) -> LexStep
    decreases s.len() - p, 0int,
{
    if p < 0 || p >= s.len() {
        LexStep { outcome: Lexed::End, pos: p, line, column }
    } else if s[p] == '\n' {
        scan(s, p + 1, line, column + 1, start, start_column)
    } else {
        scan_comment(s, p + 1, line, column + 1, start, start_column)
    }
}

/// One call of the lexer from state `st`.
pub open spec fn lex_step(st: LexState) -> LexStep {
    scan(st.input, st.pos, st.line, st.column, st.pos, st.column)
}

/// The state after a step.
pub open spec fn after(st: LexState, step: LexStep) -> LexState {
    LexState { input: st.input, pos: step.pos, line: step.line, column: step.column }
}

/// A lexer state that can occur: the counters fit in `usize` and the line
/// and column are no larger than one past the index.
pub open spec fn state_ok(st: LexState) -> bool {
    &&& st.input.len() < usize::MAX
    &&& 0 <= st.pos <= st.input.len()
    &&& 1 <= st.line <= st.pos + 1
    &&& 1 <= st.column <= st.pos + 1
}

/// What the lexer gives from `st` on, call after call, until it gives nothing.
pub open spec fn token_stream(st: LexState) -> Seq<Result<TokenView, LexError>>
    decreases st.input.len() - st.pos,
{
    let step = lex_step(st);
    if st.pos < step.pos <= st.input.len() {
        match step.outcome {
            Lexed::End => Seq::empty(),
            Lexed::Token(t) => seq![Ok(t)] + token_stream(after(st, step)),
            Lexed::Error(e) => seq![Err(e)] + token_stream(after(st, step)),
        }
    } else {
        Seq::empty()
    }
}

// ---------------------------------------------------------------------------
// Bounds of the scans

proof fn lemma_ident_end_bounds(s: Seq<char>, i: int)
    requires
        0 <= i <= s.len(),
    ensures
        i <= ident_end(s, i) <= s.len(),
    decreases s.len() - i,
{
    if i < s.len() && is_ident_char(s[i]) {
        lemma_ident_end_bounds(s, i + 1);
    }
}

proof fn lemma_number_end_bounds(s: Seq<char>, i: int, dot: bool)
    requires
        0 <= i <= s.len(),
    ensures
        i <= number_end(s, i, dot).0 <= s.len(),
    decreases s.len() - i,
{
    if i < s.len() {
        if is_digit(s[i]) {
            lemma_number_end_bounds(s, i + 1, dot);
        } else if s[i] == '.' && !dot {
            lemma_number_end_bounds(s, i + 1, true);
        }
    }
}

/// Reading a string literal stops at or after where it starts, and within the input.
pub proof fn lemma_string_end_bounds(s: Seq<char>, i: int)
    requires
        0 <= i <= s.len(),
    ensures
        i <= string_end(s, i).0 <= s.len(),
    decreases s.len() - i,
{
    if i < s.len() {
        if s[i] == '\\' {
            if i + 1 < s.len() && (s[i + 1] == 'n' || s[i + 1] == 't' || s[i + 1] == '"') {
                lemma_string_end_bounds(s, i + 2);
            }
        } else if s[i] != '"' {
            lemma_string_end_bounds(s, i + 1);
        }
    }
}

proof fn lemma_scan_progress(s: Seq<char>, p: int, line: int, column: int, start: int, start_column: int)
    requires
        0 <= p <= s.len(),
    ensures
        ({
            let step = scan(s, p, line, column, start, start_column);
            &&& step.outcome is End ==> step.pos == s.len()
            &&& !(step.outcome is End) ==> p < step.pos <= s.len()
        }),
    decreases s.len() - p, 1int,
{
    if p < s.len() {
        if s[p] == '\n' {
            lemma_scan_progress(s, p + 1, line + 1, 1, start + 1, 1);
        } else if is_blank(s[p]) {
            lemma_scan_progress(s, p + 1, line, column + 1, start + 1, start_column + 1);
        } else if s[p] == '#' {
            lemma_scan_comment_progress(s, p + 1, line, column + 1, start + 1, start_column);
        } else {
            lemma_ident_end_bounds(s, p + 1);
            lemma_number_end_bounds(s, p + 1, false);
            lemma_string_end_bounds(s, p + 1);
        }
    }
}

proof fn lemma_scan_comment_progress(s: Seq<char>, p: int, line: int, column: int, start: int, start_column: int)
    requires
        0 <= p <= s.len(),
    ensures
        ({
            let step = scan_comment(s, p, line, column, start, start_column);
            &&& step.outcome is End ==> step.pos == s.len()
            &&& !(step.outcome is End) ==> p < step.pos <= s.len()
        }),
    decreases s.len() - p, 0int,
{
    if p < s.len() {
        if s[p] == '\n' {
            lemma_scan_progress(s, p + 1, line, column + 1, start, start_column);
        } else {
            lemma_scan_comment_progress(s, p + 1, line, column + 1, start, start_column);
        }
    }
}

/// Every call of the lexer that gives a token or an error reads at least one
/// character, and a call that gives nothing leaves the lexer at the end of
/// its input.
pub proof fn lemma_lex_step_progress(st: LexState)
    requires
        state_ok(st),
    ensures
        lex_step(st).outcome is End ==> lex_step(st).pos == st.input.len(),
        !(lex_step(st).outcome is End) ==> st.pos < lex_step(st).pos <= st.input.len(),
{
    lemma_scan_progress(st.input, st.pos, st.line, st.column, st.pos, st.column);
}

/// What the lexer gives from `st` on: the first call's outcome, then the
/// rest from the state that call leaves.
pub proof fn lemma_token_stream_unfold(st: LexState)
    requires
        state_ok(st),
    ensures
        ({
            let step = lex_step(st);
            match step.outcome {
                Lexed::End => token_stream(st) == Seq::<Result<TokenView, LexError>>::empty(),
                Lexed::Token(t) => token_stream(st) == seq![Ok::<TokenView, LexError>(t)] + token_stream(after(st, step)),
                Lexed::Error(e) => token_stream(st) == seq![Err::<TokenView, LexError>(e)] + token_stream(after(st, step)),
            }
        }),
{
    lemma_lex_step_progress(st);
}

/// Once the lexer gives nothing, it stays where it is and gives nothing
/// again.
pub proof fn lemma_end_is_final(st: LexState)
    requires
        state_ok(st),
        lex_step(st).outcome is End,
    ensures
        lex_step(after(st, lex_step(st))) == lex_step(st),
        token_stream(after(st, lex_step(st))) == Seq::<Result<TokenView, LexError>>::empty(),
{
    lemma_lex_step_progress(st);
}

/// From `p` on, `s` holds only blanks, line breaks and comments (a comment
/// runs from `#` past the next line break, or to the end).
pub open spec fn only_blanks_and_comments(s: Seq<char>, p: int) -> bool
    decreases s.len() - p, 1int,
{
    if p < 0 || p >= s.len() {
        true
    } else if is_space(s[p]) {
        only_blanks_and_comments(s, p + 1)
    } else if s[p] == '#' {
        comment_then_blanks(s, p + 1)
    } else {
        false
    }
}

/// From `p` on, `s` holds the rest of a comment, then only blanks, line
/// breaks and comments.
pub open spec fn comment_then_blanks(s: Seq<char>, p: int) -> bool
    decreases s.len() - p, 0int,
{
    if p < 0 || p >= s.len() {
        true
    } else if s[p] == '\n' {
        only_blanks_and_comments(s, p + 1)
    } else {
        comment_then_blanks(s, p + 1)
    }
}

proof fn lemma_scan_end(s: Seq<char>, p: int, line: int, column: int, start: int, start_column: int)
    requires
        0 <= p <= s.len(),
    ensures
        scan(s, p, line, column, start, start_column).outcome is End <==> only_blanks_and_comments(s, p),
    decreases s.len() - p, 1int,
{
    if p < s.len() {
        if s[p] == '\n' {
            lemma_scan_end(s, p + 1, line + 1, 1, start + 1, 1);
        } else if is_blank(s[p]) {
            lemma_scan_end(s, p + 1, line, column + 1, start + 1, start_column + 1);
        } else if s[p] == '#' {
            lemma_scan_comment_end(s, p + 1, line, column + 1, start + 1, start_column);
        }
    }
}

proof fn lemma_scan_comment_end(s: Seq<char>, p: int, line: int, column: int, start: int, start_column: int)
    requires
        0 <= p <= s.len(),
    ensures
        scan_comment(s, p, line, column, start, start_column).outcome is End <==> comment_then_blanks(s, p),
    decreases s.len() - p, 0int,
{
    if p < s.len() {
        if s[p] == '\n' {
            lemma_scan_end(s, p + 1, line, column + 1, start, start_column);
        } else {
            lemma_scan_comment_end(s, p + 1, line, column + 1, start, start_column);
        }
    }
}

/// The lexer gives nothing exactly when only blanks, line breaks and
/// comments remain; so it gives at most as many items as characters remain
/// before it gives nothing.
pub proof fn lemma_end_iff_only_blanks(st: LexState)
    requires
        state_ok(st),
    ensures
        lex_step(st).outcome is End <==> only_blanks_and_comments(st.input, st.pos),
        token_stream(st).len() <= st.input.len() - st.pos,
{
    lemma_scan_end(st.input, st.pos, st.line, st.column, st.pos, st.column);
    lemma_token_stream_len(st);
}

proof fn lemma_token_stream_len(st: LexState)
    requires
        0 <= st.pos <= st.input.len(),
    ensures
        token_stream(st).len() <= st.input.len() - st.pos,
    decreases st.input.len() - st.pos,
{
    lemma_scan_progress(st.input, st.pos, st.line, st.column, st.pos, st.column);
    let step = lex_step(st);
    if !(step.outcome is End) {
        lemma_token_stream_len(after(st, step));
    }
}

/// No `#` in `s` from `from` on.
pub open spec fn no_comment(s: Seq<char>, from: int) -> bool {
    forall|i: int| from <= i < s.len() ==> s[i] != '#'
}

/// A blank or a line break.
pub open spec fn is_space(c: char) -> bool {
    c == '\n' || is_blank(c)
}

proof fn lemma_scan_text(s: Seq<char>, p: int, line: int, column: int, start_column: int)
    requires
        0 <= p <= s.len(),
        is_ascii_chars(s),
        no_comment(s, p),
    ensures
        scan(s, p, line, column, p, start_column).outcome matches Lexed::Token(t) ==> exists|k: int| {
            &&& p <= k < scan(s, p, line, column, p, start_column).pos
            &&& t.text == s.subrange(k, scan(s, p, line, column, p, start_column).pos)
            &&& forall|i: int| p <= i < k ==> is_space(#[trigger] s[i])
        },
    decreases s.len() - p,
{
    let step = scan(s, p, line, column, p, start_column);
    if p < s.len() {
        if s[p] == '\n' {
            lemma_scan_text(s, p + 1, line + 1, 1, 1);
        } else if is_blank(s[p]) {
            lemma_scan_text(s, p + 1, line, column + 1, start_column + 1);
        } else {
            assert(s[p] != '#');
            lemma_ident_end_bounds(s, p + 1);
            lemma_number_end_bounds(s, p + 1, false);
            lemma_string_end_bounds(s, p + 1);
            lemma_scan_progress(s, p, line, column, p, start_column);
            if let Lexed::Token(t) = step.outcome {
                lemma_ascii_byte_slice(s, p, step.pos);
                assert(p <= p < step.pos);
            }
        }
    }
}

/// On ASCII input without comments, the text of a token is the input from its first
/// character to where the lexer stops, and what the lexer skipped before it
/// is blanks and line breaks.
pub proof fn lemma_token_text(st: LexState)
    requires
        state_ok(st),
        is_ascii_chars(st.input),
        no_comment(st.input, st.pos),
    ensures
        lex_step(st).outcome matches Lexed::Token(t) ==> exists|k: int| {
            &&& st.pos <= k < lex_step(st).pos
            &&& t.text == st.input.subrange(k, lex_step(st).pos)
            &&& forall|i: int| st.pos <= i < k ==> is_space(#[trigger] st.input[i])
        },
{
    lemma_scan_text(st.input, st.pos, st.line, st.column, st.column);
}

/// The line of the character at index `k`: one more than the line breaks
/// before it.
pub open spec fn line_at(s: Seq<char>, k: int) -> int
    decreases k,
{
    if k <= 0 {
        1
    } else {
        line_at(s, k - 1) + if s[k - 1] == '\n' { 1int } else { 0int }
    }
}

/// The column of the character at index `k`: one more than the characters
/// between it and the line break before it.
pub open spec fn column_at(s: Seq<char>, k: int) -> int
    decreases k,
{
    if k <= 0 {
        1
    } else if s[k - 1] == '\n' {
        1
    } else {
        column_at(s, k - 1) + 1
    }
}

proof fn lemma_position_bounds(s: Seq<char>, k: int)
    requires
        0 <= k,
    ensures
        1 <= line_at(s, k) <= k + 1,
        1 <= column_at(s, k) <= k + 1,
    decreases k,
{
    if k > 0 {
        lemma_position_bounds(s, k - 1);
    }
}

proof fn lemma_position_no_break(s: Seq<char>, p: int, end: int)
    requires
        0 <= p <= end <= s.len(),
        forall|i: int| p <= i < end ==> s[i] != '\n',
    ensures
        line_at(s, end) == line_at(s, p),
        column_at(s, end) == column_at(s, p) + (end - p),
    decreases end - p,
{
    if end > p {
        lemma_position_no_break(s, p, end - 1);
    }
}

proof fn lemma_scan_positions(s: Seq<char>, p: int, start_column: int)
    requires
        0 <= p <= s.len(),
        is_ascii_chars(s),
        no_comment(s, p),
        start_column == column_at(s, p),
    ensures
        ({
            let step = scan(s, p, line_at(s, p), column_at(s, p), p, start_column);
            step.outcome matches Lexed::Token(t) ==> exists|k: int| {
                &&& p <= k < step.pos
                &&& t.text == s.subrange(k, step.pos)
                &&& (!t.text.contains('\n') ==> {
                    &&& t.line as int == line_at(s, k) as usize as int
                    &&& t.column as int == column_at(s, k) as usize as int
                    &&& step.line == line_at(s, step.pos)
                    &&& step.column == column_at(s, step.pos)
                })
            }
        }),
    decreases s.len() - p,
{
    let line = line_at(s, p);
    let column = column_at(s, p);
    let step = scan(s, p, line, column, p, start_column);
    if p < s.len() {
        assert(line_at(s, p + 1) == line + if s[p] == '\n' { 1int } else { 0int });
        if s[p] == '\n' {
            assert(column_at(s, p + 1) == 1);
            lemma_scan_positions(s, p + 1, 1);
        } else if is_blank(s[p]) {
            assert(column_at(s, p + 1) == column + 1);
            lemma_scan_positions(s, p + 1, start_column + 1);
        } else {
            assert(s[p] != '#');
            lemma_ident_end_bounds(s, p + 1);
            lemma_number_end_bounds(s, p + 1, false);
            lemma_string_end_bounds(s, p + 1);
            lemma_scan_progress(s, p, line, column, p, start_column);
            if let Lexed::Token(t) = step.outcome {
                lemma_ascii_byte_slice(s, p, step.pos);
                assert(t.text == s.subrange(p, step.pos));
                if !t.text.contains('\n') {
                    assert forall|i: int| p <= i < step.pos implies s[i] != '\n' by {
                        assert(t.text[i - p] == s[i]);
                    }
                    lemma_position_no_break(s, p, step.pos);
                }
            }
        }
    }
}

/// On ASCII input without comments, where the counters of the lexer are right (the line
/// and column of its next character), a token with no line break in its
/// text is reported at the line and column of its first character, and the
/// counters are right again after it.
pub proof fn lemma_token_position(st: LexState)
    requires
        state_ok(st),
        is_ascii_chars(st.input),
        no_comment(st.input, st.pos),
        st.line == line_at(st.input, st.pos),
        st.column == column_at(st.input, st.pos),
    ensures
        lex_step(st).outcome matches Lexed::Token(t) ==> exists|k: int| {
            &&& st.pos <= k < lex_step(st).pos
            &&& t.text == st.input.subrange(k, lex_step(st).pos)
            &&& (!t.text.contains('\n') ==> {
                &&& t.line == line_at(st.input, k)
                &&& t.column == column_at(st.input, k)
                &&& lex_step(st).line == line_at(st.input, lex_step(st).pos)
                &&& lex_step(st).column == column_at(st.input, lex_step(st).pos)
            })
        },
{
    lemma_scan_positions(st.input, st.pos, st.column);
    lemma_lex_step_progress(st);
    let step = lex_step(st);
    if let Lexed::Token(t) = step.outcome {
        let k = choose|k: int| {
            &&& st.pos <= k < step.pos
            &&& t.text == st.input.subrange(k, step.pos)
            &&& (!t.text.contains('\n') ==> {
                &&& t.line as int == line_at(st.input, k) as usize as int
                &&& t.column as int == column_at(st.input, k) as usize as int
                &&& step.line == line_at(st.input, step.pos)
                &&& step.column == column_at(st.input, step.pos)
            })
        };
        lemma_position_bounds(st.input, k);
        assert(line_at(st.input, k) as usize as int == line_at(st.input, k));
        assert(column_at(st.input, k) as usize as int == column_at(st.input, k));
        if !t.text.contains('\n') {
            assert(t.line == line_at(st.input, k));
            assert(t.column == column_at(st.input, k));
        }
        assert(st.pos <= k < step.pos);
    }
}

// ---------------------------------------------------------------------------
// Laws over the whole run of a lexer

/// No `"` in `s` from `from` on.
pub open spec fn no_quote(s: Seq<char>, from: int) -> bool {
    forall|i: int| from <= i < s.len() ==> s[i] != '"'
}

/// From `p` on, every string literal that the lexer would read closes (or
/// stops) on the line it opens on. Outside string literals no token holds a
/// `"`, so reading `s` character by character and jumping over each literal
/// meets the quotes just where the lexer does (when `s` holds no comment).
pub open spec fn strings_on_one_line(s: Seq<char>, p: int) -> bool
    decreases s.len() - p,
{
    if p < 0 || p >= s.len() {
        true
    } else if s[p] == '"' {
        let end = string_end(s, p + 1).0;
        proof {
            lemma_string_end_bounds(s, p + 1);
        }
        &&& forall|i: int| p <= i < end ==> s[i] != '\n'
        &&& strings_on_one_line(s, end)
    } else {
        strings_on_one_line(s, p + 1)
    }
}

/// Input on which the laws on positions speak: ASCII, with no comment, and
/// no string literal that runs over a line break.
pub open spec fn positions_input(s: Seq<char>) -> bool {
    &&& s.len() < usize::MAX
    &&& is_ascii_chars(s)
    &&& no_comment(s, 0)
    &&& strings_on_one_line(s, 0)
}

/// Input on which the law on texts speaks: ASCII, with no comment and no
/// string literal.
pub open spec fn plain_input(s: Seq<char>) -> bool {
    &&& s.len() < usize::MAX
    &&& is_ascii_chars(s)
    &&& no_comment(s, 0)
    &&& no_quote(s, 0)
}

proof fn lemma_no_quote_one_line(s: Seq<char>, p: int)
    requires
        0 <= p,
        no_quote(s, p),
    ensures
        strings_on_one_line(s, p),
    decreases s.len() - p,
{
    if p < s.len() {
        lemma_no_quote_one_line(s, p + 1);
    }
}

proof fn lemma_one_line_skip(s: Seq<char>, p: int, q: int)
    requires
        0 <= p <= q,
        forall|i: int| p <= i < q ==> s[i] != '"',
        strings_on_one_line(s, p),
    ensures
        strings_on_one_line(s, q),
    decreases q - p,
{
    if p < q && p < s.len() {
        lemma_one_line_skip(s, p + 1, q);
    }
}

/// The lexer just made for `input`.
pub open spec fn initial_state(input: Seq<char>) -> LexState {
    LexState { input, pos: 0, line: 1, column: 1 }
}

/// Whether `c` may start a word: an ASCII letter of either case, or `_`.
pub open spec fn word_start_char(c: char) -> bool {
    ('a' <= c && c <= 'z') || ('A' <= c && c <= 'Z') || c == '_'
}

/// Whether `c` may continue a word: a word's first character or a digit.
pub open spec fn word_char(c: char) -> bool {
    word_start_char(c) || ('0' <= c && c <= '9')
}

/// The keywords of the language.
pub open spec fn is_keyword(w: Seq<char>) -> bool {
    ||| w == "return"@
    ||| w == "for"@
    ||| w == "while"@
    ||| w == "function"@
    ||| w == "let"@
    ||| w == "if"@
    ||| w == "else"@
    ||| w == "break"@
    ||| w == "continue"@
}

proof fn lemma_word_runs_to_end(w: Seq<char>, i: int)
    requires
        0 <= i <= w.len(),
        forall|j: int| 0 <= j < w.len() ==> word_char(#[trigger] w[j]),
    ensures
        ident_end(w, i) == w.len(),
    decreases w.len() - i,
{
    if i < w.len() {
        assert(word_char(w[i]));
        lemma_word_runs_to_end(w, i + 1);
    }
}

/// The lexer's answers on a single word: a word of ASCII letters (either
/// case), digits and `_` that starts with a letter or `_` gives exactly one
/// token, at line 1 and column 1, whose text is the whole word; its kind is
/// the keyword's own where the word is a keyword, and `Identifier` for
/// every other word.
pub proof fn lemma_single_word(w: Seq<char>)
    requires
        0 < w.len() < usize::MAX,
        word_start_char(w[0]),
        forall|j: int| 0 <= j < w.len() ==> word_char(#[trigger] w[j]),
    ensures
        token_stream(initial_state(w)).len() == 1,
        token_stream(initial_state(w))[0] matches Ok(t) && t.text == w && t.line == 1 && t.column == 1,
        !is_keyword(w) ==> token_stream(initial_state(w))
            == seq![Ok::<TokenView, LexError>(TokenView { typ: TokenType::Identifier, line: 1, column: 1, text: w })],
        w == "return"@ ==> (token_stream(initial_state(w))[0] matches Ok(t) && t.typ == TokenType::Return),
        w == "for"@ ==> (token_stream(initial_state(w))[0] matches Ok(t) && t.typ == TokenType::For),
        w == "while"@ ==> (token_stream(initial_state(w))[0] matches Ok(t) && t.typ == TokenType::While),
        w == "function"@ ==> (token_stream(initial_state(w))[0] matches Ok(t) && t.typ == TokenType::Function),
        w == "let"@ ==> (token_stream(initial_state(w))[0] matches Ok(t) && t.typ == TokenType::Let),
        w == "if"@ ==> (token_stream(initial_state(w))[0] matches Ok(t) && t.typ == TokenType::If),
        w == "else"@ ==> (token_stream(initial_state(w))[0] matches Ok(t) && t.typ == TokenType::Else),
        w == "break"@ ==> (token_stream(initial_state(w))[0] matches Ok(t) && t.typ == TokenType::Break),
        w == "continue"@ ==> (token_stream(initial_state(w))[0] matches Ok(t) && t.typ == TokenType::Continue),
{
    let st = initial_state(w);
    reveal_strlit("return");
    reveal_strlit("for");
    reveal_strlit("while");
    reveal_strlit("function");
    reveal_strlit("let");
    reveal_strlit("if");
    reveal_strlit("else");
    reveal_strlit("break");
    reveal_strlit("continue");
    assert(is_ascii_chars(w)) by {
        assert forall|i: int| 0 <= i < w.len() implies '\0' <= #[trigger] w[i] <= '\u{7f}' by {
            assert(word_char(w[i]));
        }
    }
    lemma_word_runs_to_end(w, 1);
    lemma_ascii_byte_slice(w, 0, w.len() as int);
    assert(w.subrange(0, w.len() as int) =~= w);
    let step = lex_step(st);
    let t = TokenView { typ: word_type(w), line: 1, column: 1, text: w };
    assert(step.outcome == Lexed::Token(t));
    assert(step.pos == w.len());
    let next = after(st, step);
    assert(lex_step(next).outcome is End);
    assert(token_stream(next) == Seq::<Result<TokenView, LexError>>::empty());
    assert(token_stream(st) =~= seq![Ok::<TokenView, LexError>(t)]);
}

/// The next call from `st` gives a token of kind `typ` made of the next `n`
/// characters, reported at the lexer's line and column, and moves past them.
pub open spec fn gives_token(st: LexState, typ: TokenType, n: int) -> bool {
    lex_step(st) == LexStep {
        outcome: Lexed::Token(TokenView {
            typ,
            line: st.line as usize,
            column: st.column as usize,
            text: st.input.subrange(st.pos, st.pos + n),
        }),
        pos: st.pos + n,
        line: st.line,
        column: st.column + n,
    }
}

/// Whether the character `c` is one the language gives a meaning: a blank,
/// a line break, `#`, a quote, a letter, `_`, a digit or an operator's.
pub open spec fn starts_something(c: char) -> bool {
    ||| c == ' ' || c == '\t' || c == '\r' || c == '\n' || c == '#' || c == '"'
    ||| ('a' <= c && c <= 'z') || ('A' <= c && c <= 'Z') || c == '_' || ('0' <= c && c <= '9')
    ||| c == '+' || c == '-' || c == '/' || c == '^' || c == '[' || c == ']' || c == '{' || c == '}'
    ||| c == '(' || c == ')' || c == '%' || c == ';' || c == ','
    ||| c == '*' || c == '&' || c == '|' || c == '=' || c == '<' || c == '>' || c == '!'
}

/// The next character at `st` is followed by `c`.
pub open spec fn next_is(st: LexState, c: char) -> bool {
    st.pos + 1 < st.input.len() && st.input[st.pos + 1] == c
}

/// The operators: on ASCII input, where the next character is an
/// operator's, the next call gives that operator's token. A character that
/// may start a two-character operator gives the long one where its second
/// character follows, and the short one otherwise.
pub proof fn lemma_operator_tokens(st: LexState)
    requires
        state_ok(st),
        is_ascii_chars(st.input),
        st.pos < st.input.len(),
    ensures
        ({
            let c = st.input[st.pos];
            &&& c == '+' ==> gives_token(st, TokenType::Plus, 1)
            &&& c == '-' ==> gives_token(st, TokenType::Minus, 1)
            &&& c == '/' ==> gives_token(st, TokenType::Slash, 1)
            &&& c == '^' ==> gives_token(st, TokenType::Caret, 1)
            &&& c == '[' ==> gives_token(st, TokenType::LeftBracket, 1)
            &&& c == ']' ==> gives_token(st, TokenType::RightBracket, 1)
            &&& c == '{' ==> gives_token(st, TokenType::LeftBrace, 1)
            &&& c == '}' ==> gives_token(st, TokenType::RightBrace, 1)
            &&& c == '(' ==> gives_token(st, TokenType::LeftParen, 1)
            &&& c == ')' ==> gives_token(st, TokenType::RightParen, 1)
            &&& c == '%' ==> gives_token(st, TokenType::Percent, 1)
            &&& c == ';' ==> gives_token(st, TokenType::Semicolon, 1)
            &&& c == ',' ==> gives_token(st, TokenType::Comma, 1)
            &&& c == '*' ==> if next_is(st, '*') { gives_token(st, TokenType::StarStar, 2) } else { gives_token(st, TokenType::Star, 1) }
            &&& c == '&' ==> if next_is(st, '&') { gives_token(st, TokenType::AndAnd, 2) } else { gives_token(st, TokenType::And, 1) }
            &&& c == '|' ==> if next_is(st, '|') { gives_token(st, TokenType::PipePipe, 2) } else { gives_token(st, TokenType::Pipe, 1) }
            &&& c == '=' ==> if next_is(st, '=') { gives_token(st, TokenType::EqualEqual, 2) } else { gives_token(st, TokenType::Equal, 1) }
            &&& c == '<' ==> if next_is(st, '=') { gives_token(st, TokenType::LessThanEqual, 2) } else { gives_token(st, TokenType::LessThan, 1) }
            &&& c == '>' ==> if next_is(st, '=') { gives_token(st, TokenType::GreaterThanEqual, 2) } else { gives_token(st, TokenType::GreaterThan, 1) }
            &&& c == '!' ==> if next_is(st, '=') { gives_token(st, TokenType::BangEqual, 2) } else { gives_token(st, TokenType::Bang, 1) }
            &&& !starts_something(c) ==> lex_step(st) == LexStep {
                outcome: Lexed::Error(LexError::UnexpectedCharacter(c)),
                pos: st.pos + 1,
                line: st.line,
                column: st.column + 1,
            }
        }),
{
    let s = st.input;
    let p = st.pos;
    lemma_ascii_byte_slice(s, p, p + 1);
    if p + 2 <= s.len() {
        lemma_ascii_byte_slice(s, p, p + 2);
    }
}

proof fn lemma_string_plain(s: Seq<char>, i: int, q: int)
    requires
        0 <= i <= q <= s.len(),
        forall|j: int| i <= j < q ==> #[trigger] s[j] != '"' && s[j] != '\\',
    ensures
        string_end(s, i) == string_end(s, q),
    decreases q - i,
{
    if i < q {
        lemma_string_plain(s, i + 1, q);
    }
}

/// String literals: on ASCII input, where the next character is `"` and the
/// characters up to `q` hold no `"` and no `\`, a `"` at `q` closes the
/// literal and the token's text runs from the opening to the closing quote;
/// with no closing quote the literal runs to the end of the input. A `\` at
/// `q` followed by `n`, `t` or `"` is read over, and the literal goes on to
/// a closing `"` at `r` after plain characters; followed by another
/// character it is the error for an unknown escape, and at the end of the
/// input the error for an unfinished one.
pub proof fn lemma_string_tokens(st: LexState, q: int, r: int)
    requires
        state_ok(st),
        is_ascii_chars(st.input),
        st.pos < q <= st.input.len(),
        st.input[st.pos] == '"',
        forall|j: int| st.pos < j < q ==> #[trigger] st.input[j] != '"' && st.input[j] != '\\',
    ensures
        ({
            let s = st.input;
            let p = st.pos;
            &&& q < s.len() && s[q] == '"' ==> gives_token(st, TokenType::String, q + 1 - p)
            &&& q == s.len() ==> gives_token(st, TokenType::String, q - p)
            &&& (q + 1 < s.len() && s[q] == '\\' && !(s[q + 1] == 'n' || s[q + 1] == 't' || s[q + 1] == '"'))
                ==> lex_step(st) == LexStep {
                    outcome: Lexed::Error(LexError::UnrecognizedEscape),
                    pos: q + 2,
                    line: st.line,
                    column: st.column + (q + 2 - p),
                }
            &&& (q + 1 == s.len() && s[q] == '\\') ==> lex_step(st) == LexStep {
                    outcome: Lexed::Error(LexError::UnterminatedEscape),
                    pos: q + 1,
                    line: st.line,
                    column: st.column + (q + 1 - p),
                }
            &&& (q + 1 < r < s.len() && s[q] == '\\' && (s[q + 1] == 'n' || s[q + 1] == 't' || s[q + 1] == '"')
                && s[r] == '"' && forall|j: int| q + 1 < j < r ==> #[trigger] s[j] != '"' && s[j] != '\\')
                ==> gives_token(st, TokenType::String, r + 1 - p)
        }),
{
    let s = st.input;
    let p = st.pos;
    lemma_string_plain(s, p + 1, q);
    if q < s.len() {
        lemma_ascii_byte_slice(s, p, q + 1);
    } else {
        lemma_ascii_byte_slice(s, p, q);
    }
    if q + 1 < r < s.len() && s[q] == '\\' && (s[q + 1] == 'n' || s[q + 1] == 't' || s[q + 1] == '"')
        && s[r] == '"' && forall|j: int| q + 1 < j < r ==> #[trigger] s[j] != '"' && s[j] != '\\' {
        lemma_string_plain(s, q + 2, r);
        lemma_ascii_byte_slice(s, p, r + 1);
    }
}

proof fn lemma_number_digits(s: Seq<char>, i: int, q: int, dot: bool)
    requires
        0 <= i <= q <= s.len(),
        forall|j: int| i <= j < q ==> is_digit(#[trigger] s[j]),
    ensures
        number_end(s, i, dot) == number_end(s, q, dot),
    decreases q - i,
{
    if i < q {
        lemma_number_digits(s, i + 1, q, dot);
    }
}

/// Numbers: on ASCII input, a run of digits from the next character up to
/// `q`, where neither a digit nor a `.` follows, gives an integer token of
/// those characters; with one `.` at `d` inside the run (a digit before it,
/// any number of digits after it) the token is a floating-point one; and a
/// second `.` at `q` instead gives the error for it and moves past that `.`.
pub proof fn lemma_number_tokens(st: LexState, d: int, q: int)
    requires
        state_ok(st),
        is_ascii_chars(st.input),
        st.pos < d < q <= st.input.len(),
        forall|j: int| st.pos <= j < q && j != d ==> '0' <= #[trigger] st.input[j] <= '9',
    ensures
        ({
            let s = st.input;
            let ends = q == s.len() || !('0' <= s[q] <= '9' || s[q] == '.');
            &&& ends && '0' <= s[d] <= '9' ==> gives_token(st, TokenType::Integer, q - st.pos)
            &&& ends && s[d] == '.' ==> gives_token(st, TokenType::Double, q - st.pos)
            &&& q < s.len() && s[q] == '.' && s[d] == '.' ==> lex_step(st) == LexStep {
                outcome: Lexed::Error(LexError::UnexpectedDot),
                pos: q + 1,
                line: st.line,
                column: st.column + (q + 1 - st.pos),
            }
        }),
{
    let s = st.input;
    let p = st.pos;
    lemma_ascii_byte_slice(s, p, q);
    assert(is_digit(s[p]));
    if '0' <= s[d] <= '9' {
        lemma_number_digits(s, p + 1, q, false);
    } else if s[d] == '.' {
        lemma_number_digits(s, p + 1, d, false);
        lemma_number_digits(s, d + 1, q, true);
    }
}

/// The lexer for `input` after `n` calls.
pub open spec fn state_after_calls(input: Seq<char>, n: nat) -> LexState
    decreases n,
{
    if n == 0 {
        initial_state(input)
    } else {
        let st = state_after_calls(input, (n - 1) as nat);
        after(st, lex_step(st))
    }
}

/// `s` without its blanks and line breaks.
pub open spec fn remove_spaces(s: Seq<char>) -> Seq<char>
    decreases s.len(),
{
    if s.len() == 0 {
        s
    } else if is_space(s[0]) {
        remove_spaces(s.drop_first())
    } else {
        seq![s[0]] + remove_spaces(s.drop_first())
    }
}

/// The texts of the tokens among `items`, one after the other.
pub open spec fn token_texts(items: Seq<Result<TokenView, LexError>>) -> Seq<char>
    decreases items.len(),
{
    if items.len() == 0 {
        Seq::empty()
    } else {
        (match items[0] {
            Ok(t) => t.text,
            Err(_) => Seq::empty(),
        }) + token_texts(items.drop_first())
    }
}

proof fn lemma_remove_spaces_add(a: Seq<char>, b: Seq<char>)
    ensures
        remove_spaces(a + b) == remove_spaces(a) + remove_spaces(b),
    decreases a.len(),
{
    if a.len() == 0 {
        assert(a + b =~= b);
        assert(remove_spaces(a) + remove_spaces(b) =~= remove_spaces(b));
    } else {
        assert((a + b).drop_first() =~= a.drop_first() + b);
        lemma_remove_spaces_add(a.drop_first(), b);
        if !is_space(a[0]) {
            assert(seq![a[0]] + (remove_spaces(a.drop_first()) + remove_spaces(b))
                =~= (seq![a[0]] + remove_spaces(a.drop_first())) + remove_spaces(b));
        }
    }
}

proof fn lemma_remove_spaces_all(a: Seq<char>)
    requires
        forall|i: int| 0 <= i < a.len() ==> is_space(a[i]),
    ensures
        remove_spaces(a) == Seq::<char>::empty(),
    decreases a.len(),
{
    if a.len() > 0 {
        assert(is_space(a[0]));
        lemma_remove_spaces_all(a.drop_first());
    }
}

proof fn lemma_remove_spaces_none(a: Seq<char>)
    requires
        forall|i: int| 0 <= i < a.len() ==> !is_space(a[i]),
    ensures
        remove_spaces(a) == a,
    decreases a.len(),
{
    if a.len() > 0 {
        assert(!is_space(a[0]));
        lemma_remove_spaces_none(a.drop_first());
        assert(seq![a[0]] + a.drop_first() =~= a);
    }
}

proof fn lemma_only_blanks_no_comment(s: Seq<char>, p: int)
    requires
        0 <= p <= s.len(),
        no_comment(s, p),
        only_blanks_and_comments(s, p),
    ensures
        forall|i: int| p <= i < s.len() ==> is_space(s[i]),
    decreases s.len() - p,
{
    if p < s.len() {
        assert(s[p] != '#');
        lemma_only_blanks_no_comment(s, p + 1);
    }
}

proof fn lemma_ident_span(s: Seq<char>, i: int)
    requires
        0 <= i <= s.len(),
    ensures
        forall|j: int| i <= j < ident_end(s, i) ==> is_ident_char(s[j]),
    decreases s.len() - i,
{
    if i < s.len() && is_ident_char(s[i]) {
        lemma_ident_span(s, i + 1);
    }
}

proof fn lemma_number_span(s: Seq<char>, i: int, dot: bool)
    requires
        0 <= i <= s.len(),
    ensures
        forall|j: int| i <= j < number_end(s, i, dot).0 ==> is_digit(s[j]) || s[j] == '.',
    decreases s.len() - i,
{
    if i < s.len() {
        if is_digit(s[i]) {
            lemma_number_span(s, i + 1, dot);
        } else if s[i] == '.' && !dot {
            lemma_number_span(s, i + 1, true);
        }
    }
}

/// One call of the lexer on input with no comment and no string literal over
/// a line break, with its counters right.
proof fn lemma_scan_plain(s: Seq<char>, p: int, start_column: int)
    requires
        0 <= p <= s.len(),
        is_ascii_chars(s),
        no_comment(s, p),
        strings_on_one_line(s, p),
        start_column == column_at(s, p),
    ensures
        ({
            let step = scan(s, p, line_at(s, p), column_at(s, p), p, start_column);
            &&& step.line == line_at(s, step.pos)
            &&& step.column == column_at(s, step.pos)
            &&& strings_on_one_line(s, step.pos)
            &&& step.outcome is End ==> forall|i: int| p <= i < s.len() ==> is_space(s[i])
            &&& step.outcome matches Lexed::Token(t) ==> exists|k: int| {
                &&& p <= k < step.pos
                &&& t.text == s.subrange(k, step.pos)
                &&& (forall|i: int| p <= i < k ==> is_space(#[trigger] s[i]))
                &&& (no_quote(s, p) ==> forall|i: int| k <= i < step.pos ==> !is_space(#[trigger] s[i]))
                &&& t.line as int == line_at(s, k) as usize as int
                &&& t.column as int == column_at(s, k) as usize as int
            }
        }),
    decreases s.len() - p,
{
    let line = line_at(s, p);
    let column = column_at(s, p);
    let step = scan(s, p, line, column, p, start_column);
    if p < s.len() {
        assert(line_at(s, p + 1) == line + if s[p] == '\n' { 1int } else { 0int });
        if s[p] == '\n' {
            assert(column_at(s, p + 1) == 1);
            lemma_scan_plain(s, p + 1, 1);
        } else if is_blank(s[p]) {
            assert(column_at(s, p + 1) == column + 1);
            lemma_scan_plain(s, p + 1, start_column + 1);
        } else {
            assert(s[p] != '#');
            lemma_scan_progress(s, p, line, column, p, start_column);
            if s[p] == '"' {
                lemma_string_end_bounds(s, p + 1);
                assert(step.pos == string_end(s, p + 1).0);
            } else {
                lemma_ident_end_bounds(s, p + 1);
                lemma_number_end_bounds(s, p + 1, false);
                lemma_ident_span(s, p + 1);
                lemma_number_span(s, p + 1, false);
                assert forall|i: int| p <= i < step.pos implies !is_space(#[trigger] s[i]) && s[i] != '"' by {
                    if i > p {
                        if pair_token(s[p]) is Some {
                            assert(i == p + 1);
                        }
                    }
                }
                lemma_one_line_skip(s, p, step.pos);
            }
            lemma_position_no_break(s, p, step.pos);
            if let Lexed::Token(t) = step.outcome {
                lemma_ascii_byte_slice(s, p, step.pos);
                assert(t.text == s.subrange(p, step.pos));
            }
        }
    } else {
    }
}

/// On ASCII input with no comment and no string literal over a line break,
/// after any number of calls (those that gave an error included) the lexer's
/// line and column are those of its next character; and where the next call
/// gives a token, its text is the input from its first character to where
/// the lexer stops, what comes before it from where the lexer was is blanks
/// and line breaks, and the token is reported at the line and column of its
/// first character.
pub proof fn lemma_positions_after_calls(input: Seq<char>, n: nat)
    requires
        positions_input(input),
    ensures
        ({
            let st = state_after_calls(input, n);
            let step = lex_step(st);
            &&& st.input == input
            &&& state_ok(st)
            &&& strings_on_one_line(input, st.pos)
            &&& st.line == line_at(input, st.pos)
            &&& st.column == column_at(input, st.pos)
            &&& step.outcome matches Lexed::Token(t) ==> exists|k: int| {
                &&& st.pos <= k < step.pos
                &&& t.text == input.subrange(k, step.pos)
                &&& (forall|i: int| st.pos <= i < k ==> is_space(#[trigger] input[i]))
                &&& t.line == line_at(input, k)
                &&& t.column == column_at(input, k)
            }
        }),
    decreases n,
{
    let st = state_after_calls(input, n);
    if n > 0 {
        lemma_positions_after_calls(input, (n - 1) as nat);
        let prev = state_after_calls(input, (n - 1) as nat);
        lemma_lex_step_progress(prev);
        lemma_scan_plain(input, prev.pos, prev.column);
        if lex_step(prev).outcome is End {
            lemma_end_is_final(prev);
        }
    }
    lemma_position_bounds(input, st.pos);
    lemma_lex_step_progress(st);
    lemma_scan_plain(input, st.pos, st.column);
    let step = lex_step(st);
    if let Lexed::Token(t) = step.outcome {
        let k = choose|k: int| {
            &&& st.pos <= k < step.pos
            &&& t.text == input.subrange(k, step.pos)
            &&& (forall|i: int| st.pos <= i < k ==> is_space(#[trigger] input[i]))
            &&& (no_quote(input, st.pos) ==> forall|i: int| k <= i < step.pos ==> !is_space(#[trigger] input[i]))
            &&& t.line as int == line_at(input, k) as usize as int
            &&& t.column as int == column_at(input, k) as usize as int
        };
        lemma_position_bounds(input, k);
        assert(t.line == line_at(input, k));
        assert(t.column == column_at(input, k));
    }
}

proof fn lemma_texts_from(input: Seq<char>, n: nat)
    requires
        plain_input(input),
        forall|i: int| 0 <= i < token_stream(state_after_calls(input, n)).len()
            ==> #[trigger] token_stream(state_after_calls(input, n))[i] is Ok,
    ensures
        ({
            let st = state_after_calls(input, n);
            token_texts(token_stream(st)) == remove_spaces(input.subrange(st.pos, input.len() as int))
        }),
    decreases input.len() - state_after_calls(input, n).pos,
{
    let st = state_after_calls(input, n);
    lemma_no_quote_one_line(input, 0);
    lemma_positions_after_calls(input, n);
    lemma_token_stream_unfold(st);
    lemma_lex_step_progress(st);
    lemma_scan_plain(input, st.pos, st.column);
    let step = lex_step(st);
    let rest = input.subrange(st.pos, input.len() as int);
    match step.outcome {
        Lexed::End => {
            assert forall|i: int| 0 <= i < rest.len() implies is_space(rest[i]) by {
                assert(rest[i] == input[st.pos + i]);
            }
            lemma_remove_spaces_all(rest);
        },
        Lexed::Error(e) => {
            assert(token_stream(st)[0] is Ok);
        },
        Lexed::Token(t) => {
            let k = choose|k: int| {
                &&& st.pos <= k < step.pos
                &&& t.text == input.subrange(k, step.pos)
                &&& (forall|i: int| st.pos <= i < k ==> is_space(#[trigger] input[i]))
                &&& (no_quote(input, st.pos) ==> forall|i: int| k <= i < step.pos ==> !is_space(#[trigger] input[i]))
                &&& t.line as int == line_at(input, k) as usize as int
                &&& t.column as int == column_at(input, k) as usize as int
            };
            let next = after(st, step);
            assert(next == state_after_calls(input, n + 1));
            let tail = token_stream(next);
            assert(token_stream(st) == seq![Ok::<TokenView, LexError>(t)] + tail);
            assert forall|i: int| 0 <= i < tail.len() implies #[trigger] tail[i] is Ok by {
                assert(tail[i] == token_stream(st)[i + 1]);
            }
            lemma_texts_from(input, n + 1);
            assert(token_stream(st).drop_first() =~= tail);
            let a = input.subrange(st.pos, k);
            let b = input.subrange(k, step.pos);
            let c = input.subrange(step.pos, input.len() as int);
            assert(rest =~= a + b + c);
            lemma_remove_spaces_add(a + b, c);
            lemma_remove_spaces_add(a, b);
            assert forall|i: int| 0 <= i < a.len() implies is_space(a[i]) by {
                assert(a[i] == input[st.pos + i]);
            }
            assert forall|i: int| 0 <= i < b.len() implies !is_space(b[i]) by {
                assert(b[i] == input[k + i]);
            }
            lemma_remove_spaces_all(a);
            lemma_remove_spaces_none(b);
            assert(Seq::<char>::empty() + b =~= b);
        },
    }
}

/// On ASCII input with no comment and no string literal, on which the
/// lexer meets no error, the texts of all the
/// tokens it gives, one after the other, are the input without its blanks
/// and line breaks; no token's text is empty or holds a blank or a line
/// break.
pub proof fn lemma_texts_are_input_without_spaces(input: Seq<char>)
    requires
        plain_input(input),
        forall|i: int| 0 <= i < token_stream(initial_state(input)).len()
            ==> #[trigger] token_stream(initial_state(input))[i] is Ok,
    ensures
        token_texts(token_stream(initial_state(input))) == remove_spaces(input),
        forall|i: int| 0 <= i < token_stream(initial_state(input)).len()
            ==> (#[trigger] token_stream(initial_state(input))[i] matches Ok(t)
                && t.text.len() > 0 && forall|j: int| 0 <= j < t.text.len() ==> !is_space(t.text[j])),
{
    assert(state_after_calls(input, 0) == initial_state(input));
    lemma_texts_from(input, 0);
    assert(input.subrange(0, input.len() as int) =~= input);
    lemma_tokens_nonempty_from(input, 0);
}

proof fn lemma_tokens_nonempty_from(input: Seq<char>, n: nat)
    requires
        plain_input(input),
        forall|i: int| 0 <= i < token_stream(state_after_calls(input, n)).len()
            ==> #[trigger] token_stream(state_after_calls(input, n))[i] is Ok,
    ensures
        forall|i: int| 0 <= i < token_stream(state_after_calls(input, n)).len()
            ==> (#[trigger] token_stream(state_after_calls(input, n))[i] matches Ok(t)
                && t.text.len() > 0 && forall|j: int| 0 <= j < t.text.len() ==> !is_space(t.text[j])),
    decreases input.len() - state_after_calls(input, n).pos,
{
    let st = state_after_calls(input, n);
    lemma_no_quote_one_line(input, 0);
    lemma_positions_after_calls(input, n);
    lemma_token_stream_unfold(st);
    lemma_lex_step_progress(st);
    lemma_scan_plain(input, st.pos, st.column);
    let step = lex_step(st);
    let ts = token_stream(st);
    if let Lexed::Token(t) = step.outcome {
        let k = choose|k: int| {
            &&& st.pos <= k < step.pos
            &&& t.text == input.subrange(k, step.pos)
            &&& (forall|i: int| st.pos <= i < k ==> is_space(#[trigger] input[i]))
            &&& (no_quote(input, st.pos) ==> forall|i: int| k <= i < step.pos ==> !is_space(#[trigger] input[i]))
            &&& t.line as int == line_at(input, k) as usize as int
            &&& t.column as int == column_at(input, k) as usize as int
        };
        let next = after(st, step);
        assert(next == state_after_calls(input, n + 1));
        let tail = token_stream(next);
        assert forall|i: int| 0 <= i < tail.len() implies #[trigger] tail[i] is Ok by {
            assert(tail[i] == ts[i + 1]);
        }
        lemma_tokens_nonempty_from(input, n + 1);
        assert forall|i: int| 0 <= i < ts.len() implies (#[trigger] ts[i] matches Ok(u)
            && u.text.len() > 0 && forall|j: int| 0 <= j < u.text.len() ==> !is_space(u.text[j])) by {
            if i == 0 {
                assert(ts[0] == Ok::<TokenView, LexError>(t));
                assert forall|j: int| 0 <= j < t.text.len() implies !is_space(t.text[j]) by {
                    assert(t.text[j] == input[k + j]);
                }
            } else {
                assert(ts[i] == tail[i - 1]);
            }
        }
    } else if let Lexed::Error(e) = step.outcome {
        assert(ts[0] is Ok);
    }
}

// ---------------------------------------------------------------------------
// The lexer

/// Turns source text into tokens.
pub struct Lexer<'a> {
    position: usize,
    line: usize,
    column: usize,
    input: &'a str,
    chars: Vec<char>,
}

impl<'a> View for Lexer<'a> {
    type V = LexState;

    closed spec fn view(&self) -> LexState {
        LexState {
            input: self.chars@,
            pos: self.position as int,
            line: self.line as int,
            column: self.column as int,
        }
    }
}

impl<'a> Lexer<'a> {
    /// The lexer's invariant.
    pub closed spec fn wf(&self) -> bool {
        &&& state_ok(self@)
        &&& self.chars@ == self.input@
    }

    /// A lexer that keeps its invariant is in a state that can occur.
    pub proof fn lemma_state_ok(&self)
        requires
            self.wf(),
        ensures
            state_ok(self@),
    {
    }

    /// The text the lexer reads.
    pub closed spec fn source(&self) -> &'a str {
        self.input
    }

    /// A lexer at the start of `input`: line 1, column 1.
    pub fn new(input: &'a str) -> (l: Lexer<'a>)
        requires
            input@.len() < usize::MAX,
        ensures
            l.wf(),
            l@ == (LexState { input: input@, pos: 0, line: 1, column: 1 }),
            l.source() == input,
    {
        let chars = chars_of(input);
        Lexer { position: 0, line: 1, column: 1, input, chars }
    }
}


/// Whether a call of the lexer gave what `o` says.
pub open spec fn lexed_as(r: Option<Result<Token, LexError>>, o: Lexed) -> bool {
    match (r, o) {
        (None, Lexed::End) => true,
        (Some(Ok(t)), Lexed::Token(v)) => t@ == v,
        (Some(Err(e)), Lexed::Error(f)) => e == f,
        _ => false,
    }
}

fn char_is_digit(c: char) -> (r: bool)
    ensures
        r == is_digit(c),
{
    '0' <= c && c <= '9'
}

fn char_is_ident_start(c: char) -> (r: bool)
    ensures
        r == is_ident_start(c),
{
    ('a' <= c && c <= 'z') || ('A' <= c && c <= 'Z') || c == '_'
}

fn char_is_ident_char(c: char) -> (r: bool)
    ensures
        r == is_ident_char(c),
{
    char_is_ident_start(c) || char_is_digit(c)
}

fn single_char_token_of(c: char) -> (r: Option<TokenType>)
    ensures
        r == single_char_token(c),
{
    if c == '+' { Some(TokenType::Plus) }
    else if c == '-' { Some(TokenType::Minus) }
    else if c == '/' { Some(TokenType::Slash) }
    else if c == '^' { Some(TokenType::Caret) }
    else if c == '[' { Some(TokenType::LeftBracket) }
    else if c == ']' { Some(TokenType::RightBracket) }
    else if c == '{' { Some(TokenType::LeftBrace) }
    else if c == '}' { Some(TokenType::RightBrace) }
    else if c == '(' { Some(TokenType::LeftParen) }
    else if c == ')' { Some(TokenType::RightParen) }
    else if c == '%' { Some(TokenType::Percent) }
    else if c == ';' { Some(TokenType::Semicolon) }
    else if c == ',' { Some(TokenType::Comma) }
    else { None }
}

fn pair_token_of(c: char) -> (r: Option<(char, TokenType, TokenType)>)
    ensures
        r == pair_token(c),
{
    if c == '*' { Some(('*', TokenType::Star, TokenType::StarStar)) }
    else if c == '&' { Some(('&', TokenType::And, TokenType::AndAnd)) }
    else if c == '|' { Some(('|', TokenType::Pipe, TokenType::PipePipe)) }
    else if c == '=' { Some(('=', TokenType::Equal, TokenType::EqualEqual)) }
    else if c == '<' { Some(('=', TokenType::LessThan, TokenType::LessThanEqual)) }
    else if c == '>' { Some(('=', TokenType::GreaterThan, TokenType::GreaterThanEqual)) }
    else if c == '!' { Some(('=', TokenType::Bang, TokenType::BangEqual)) }
    else { None }
}

/// The kind of the word `w`.
fn word_type_of(w: &String) -> (r: TokenType)
    ensures
        r == word_type(w@),
{
    if *w == string_of_str("return") { TokenType::Return }
    else if *w == string_of_str("for") { TokenType::For }
    else if *w == string_of_str("while") { TokenType::While }
    else if *w == string_of_str("function") { TokenType::Function }
    else if *w == string_of_str("let") { TokenType::Let }
    else if *w == string_of_str("if") { TokenType::If }
    else if *w == string_of_str("else") { TokenType::Else }
    else if *w == string_of_str("break") { TokenType::Break }
    else if *w == string_of_str("continue") { TokenType::Continue }
    else { TokenType::Identifier }
}

fn find_ident_end(chars: &Vec<char>, i: usize) -> (e: usize)
    requires
        i <= chars@.len(),
    ensures
        e as int == ident_end(chars@, i as int),
        i <= e <= chars@.len(),
{
    let mut j = i;
    while j < chars.len() && char_is_ident_char(chars[j])
        invariant
            i <= j <= chars@.len(),
            ident_end(chars@, i as int) == ident_end(chars@, j as int),
        decreases chars@.len() - j,
    {
        j += 1;
    }
    j
}

fn find_number_end(chars: &Vec<char>, i: usize) -> (r: (usize, bool, bool))
    requires
        i <= chars@.len(),
    ensures
        (r.0 as int, r.1, r.2) == number_end(chars@, i as int, false),
        i <= r.0 <= chars@.len(),
{
    let mut j = i;
    let mut dot = false;
    while j < chars.len()
        invariant
            i <= j <= chars@.len(),
            number_end(chars@, i as int, false) == number_end(chars@, j as int, dot),
        decreases chars@.len() - j,
    {
        let c = chars[j];
        if char_is_digit(c) {
            j += 1;
        } else if c == '.' {
            if dot {
                return (j + 1, dot, true);
            }
            dot = true;
            j += 1;
        } else {
            return (j, dot, false);
        }
    }
    (j, dot, false)
}

fn find_string_end(chars: &Vec<char>, i: usize) -> (r: (usize, Option<LexError>))
    requires
        i <= chars@.len(),
    ensures
        (r.0 as int, r.1) == string_end(chars@, i as int),
        i <= r.0 <= chars@.len(),
{
    let mut j = i;
    while j < chars.len()
        invariant
            i <= j <= chars@.len(),
            string_end(chars@, i as int) == string_end(chars@, j as int),
        decreases chars@.len() - j,
    {
        let c = chars[j];
        if c == '\\' {
            if j + 1 >= chars.len() {
                return (j + 1, Some(LexError::UnterminatedEscape));
            }
            let d = chars[j + 1];
            if d == 'n' || d == 't' || d == '"' {
                j += 2;
            } else {
                return (j + 2, Some(LexError::UnrecognizedEscape));
            }
        } else if c == '"' {
            return (j + 1, None);
        } else {
            j += 1;
        }
    }
    (j, None)
}

impl<'a> Lexer<'a> {
    /// Ends a token at `end`: moves the lexer there and builds the token,
    /// of kind `typ`, or for `None` of the kind of its text as a word.
    fn emit(&mut self, typ: Option<TokenType>, start: usize, start_column: usize, end: usize) -> (r: Result<Token, LexError>)
        requires
            old(self).wf(),
            start <= old(self).position < end <= old(self).chars@.len(),
        ensures
            final(self).wf(),
            final(self).input == old(self).input,
            final(self)@ == (LexState {
                input: old(self)@.input,
                pos: end as int,
                line: old(self)@.line,
                column: old(self)@.column + (end - old(self)@.pos),
            }),
            ({
                let s = old(self)@.input;
                match r {
                    Ok(t) => byte_slice_ok(s, start as int, end as int) && t@ == (TokenView {
                        typ: match typ {
                            Some(k) => k,
                            None => word_type(byte_slice(s, start as int, end as int)),
                        },
                        line: old(self).line,
                        column: start_column,
                        text: byte_slice(s, start as int, end as int),
                    }),
                    Err(e) => !byte_slice_ok(s, start as int, end as int)
                        && e == LexError::NotCharBoundary(first_bad_offset(s, start as int, end as int) as usize),
                }
            }),
    {
        let sliced = slice_by_bytes(self.input, start, end);
        self.column = self.column + (end - self.position);
        self.position = end;
        match sliced {
            Err(i) => Err(LexError::NotCharBoundary(i)),
            Ok(text) => {
                let kind = match typ {
                    Some(k) => k,
                    None => word_type_of(&text),
                };
                Ok(Token { position: Position { line: self.line, column: start_column }, typ: kind, text })
            },
        }
    }

    /// Moves the lexer to `end` after an error.
    fn skip_to(&mut self, end: usize)
        requires
            old(self).wf(),
            old(self).position < end <= old(self).chars@.len(),
        ensures
            final(self).wf(),
            final(self).input == old(self).input,
            final(self)@ == (LexState {
                input: old(self)@.input,
                pos: end as int,
                line: old(self)@.line,
                column: old(self)@.column + (end - old(self)@.pos),
            }),
    {
        self.column = self.column + (end - self.position);
        self.position = end;
    }

    /// Reads the token that starts at the current character.
    fn lex_token(&mut self, start: usize, start_column: usize) -> (r: Option<Result<Token, LexError>>)
        requires
            old(self).wf(),
            start <= old(self).position < old(self).chars@.len(),
        ensures
            ({
                let st = old(self)@;
                let step = token_at(st.input, st.pos, st.line, st.column, start as int, start_column as int);
                &&& final(self).wf()
                &&& final(self).input == old(self).input
                &&& lexed_as(r, step.outcome)
                &&& final(self)@ == after(st, step)
            }),
    {
        let p = self.position;
        let c = self.chars[p];
        if let Some(t) = single_char_token_of(c) {
            return Some(self.emit(Some(t), start, start_column, p + 1));
        }
        if let Some((second, short, long)) = pair_token_of(c) {
            if p + 1 < self.chars.len() && self.chars[p + 1] == second {
                return Some(self.emit(Some(long), start, start_column, p + 2));
            } else {
                return Some(self.emit(Some(short), start, start_column, p + 1));
            }
        }
        if char_is_digit(c) {
            let (end, dot, bad) = find_number_end(&self.chars, p + 1);
            if bad {
                self.skip_to(end);
                return Some(Err(LexError::UnexpectedDot));
            } else if dot {
                return Some(self.emit(Some(TokenType::Double), start, start_column, end));
            } else {
                return Some(self.emit(Some(TokenType::Integer), start, start_column, end));
            }
        }
        if char_is_ident_start(c) {
            let end = find_ident_end(&self.chars, p + 1);
            return Some(self.emit(None, start, start_column, end));
        }
        if c == '"' {
            let (end, e) = find_string_end(&self.chars, p + 1);
            match e {
                Some(e) => {
                    self.skip_to(end);
                    return Some(Err(e));
                },
                None => {
                    return Some(self.emit(Some(TokenType::String), start, start_column, end));
                },
            }
        }
        self.skip_to(p + 1);
        Some(Err(LexError::UnexpectedCharacter(c)))
    }

    /// Reads the next token: skips blanks, line breaks and comments, then
    /// reads one token or meets an error; `None` at the end of the input.
    pub fn lex(&mut self) -> (r: Option<Result<Token, LexError>>)
        requires
            old(self).wf(),
        ensures
            final(self).wf(),
            final(self).source() == old(self).source(),
            lexed_as(r, lex_step(old(self)@).outcome),
            final(self)@ == after(old(self)@, lex_step(old(self)@)),
    {
        let ghost st0 = self@;
        let mut start = self.position;
        let mut start_column = self.column;
        loop
            invariant
                self.wf(),
                self.input == old(self).input,
                self.chars@ == st0.input,
                st0 == old(self)@,
                start <= self.position,
                1 <= start_column <= self.column,
                lex_step(st0) == scan(st0.input, self.position as int, self.line as int,
                    self.column as int, start as int, start_column as int),
            decreases self.chars@.len() - self.position,
        {
            if self.position >= self.chars.len() {
                return None;
            }
            let c = self.chars[self.position];
            if c == '\n' {
                self.position += 1;
                self.line += 1;
                self.column = 1;
                start += 1;
                start_column = 1;
            } else if c == '\r' || c == ' ' || c == '\t' {
                self.position += 1;
                self.column += 1;
                start += 1;
                start_column += 1;
            } else if c == '#' {
                self.position += 1;
                self.column += 1;
                start += 1;
                let ghost after_hash = self.position;
                loop
                    invariant_except_break
                        lex_step(st0) == scan_comment(st0.input, self.position as int,
                            self.line as int, self.column as int, start as int, start_column as int),
                    invariant
                        self.wf(),
                        self.input == old(self).input,
                        self.chars@ == st0.input,
                        st0 == old(self)@,
                        after_hash <= self.position,
                        start <= self.position,
                        1 <= start_column <= self.column,
                    ensures
                        lex_step(st0) == scan(st0.input, self.position as int, self.line as int,
                            self.column as int, start as int, start_column as int),
                    decreases self.chars@.len() - self.position,
                {
                    if self.position >= self.chars.len() {
                        return None;
                    }
                    let d = self.chars[self.position];
                    self.position += 1;
                    self.column += 1;
                    if d == '\n' {
                        break;
                    }
                }
            } else {
                return self.lex_token(start, start_column);
            }
        }
    }

    /// Reads the next token, as `lex` does, with an error given by its
    /// message. Not where the lexer has no answer (see `LexError::halts`).
    pub fn next_token(&mut self) -> (r: Option<Result<Token, String>>)
        requires
            old(self).wf(),
            !(lex_step(old(self)@).outcome matches Lexed::Error(e) && e.halts()),
        ensures
            final(self).wf(),
            final(self).source() == old(self).source(),
            final(self)@ == after(old(self)@, lex_step(old(self)@)),
            match (r, lex_step(old(self)@).outcome) {
                (None, Lexed::End) => true,
                (Some(Ok(t)), Lexed::Token(v)) => t@ == v,
                (Some(Err(m)), Lexed::Error(e)) => m@ == lex_error_message(e),
                _ => false,
            },
    {
        match self.lex() {
            None => None,
            Some(Ok(t)) => Some(Ok(t)),
            Some(Err(e)) => Some(Err(e.message())),
        }
    }
}

} // verus!
