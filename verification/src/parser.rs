//! The parser: reads statements from the lexer's tokens, interning every
//! identifier with the agent.
use vstd::prelude::*;
use crate::agent::{Agent, intern_table, intern_id, extends};
use crate::ast::{Statement, StatementKind, Expression, ExpressionKind, StatementV, StatementKindV,
    ExpressionV, ExpressionKindV, statements_view, expressions_view};
use crate::lexer::{Lexer, LexError, lex_error_message, token_stream,
    lemma_token_stream_unfold};
use crate::text::{parse_i64, parses_as_f64, decimal, push_decimal, string_of_str, chars_of, parse_i64_of,
    parses_as_f64_of};
use crate::token::{Token, TokenType, TokenView, Position, token_type_name};

verus! {

/// Why the parser refused its input.
#[derive(Debug, PartialEq, Eq, Clone, Copy, Structural)]
pub enum ParseError {
    /// The lexer met an error. Where that error is one on which the lexer
    /// has no answer, the parser stops the program.
    Lex(LexError),
    /// A token of another kind than the one the grammar wants.
    Unexpected { expected: TokenType, found: TokenType, line: usize, column: usize },
    /// The input ended where the grammar wants a token.
    EndOfInput { expected: TokenType },
    /// A function's name or parameter that is not an identifier.
    NotIdentifier { line: usize, column: usize },
    /// The input ended where a statement or an expression must start.
    /// The parser has no answer here and stops the program.
    UnexpectedEnd,
    /// An expression that starts with a token other than an identifier or
    /// a number. The parser has no answer here and stops the program.
    Unsupported { found: TokenType, line: usize, column: usize },
    /// An integer literal whose text is not an `i64`. The parser has no
    /// answer here and stops the program.
    BadInteger { line: usize, column: usize },
    /// A floating-point literal whose text `str::parse::<f64>` refuses: the
    /// lexer's text runs from where the token starts as a byte offset, so
    /// after a comment or a character of more than one byte it may hold
    /// other characters than the literal's. The parser has no answer here
    /// and stops the program.
    BadDouble { line: usize, column: usize },
}

impl ParseError {
    /// Whether the parser stops the program on this error rather than
    /// reporting it.
    pub open spec fn halts(self) -> bool {
        match self {
            ParseError::Lex(e) => e.halts(),
            ParseError::UnexpectedEnd => true,
            ParseError::Unsupported { .. } => true,
            ParseError::BadInteger { .. } => true,
            ParseError::BadDouble { .. } => true,
            _ => false,
        }
    }

    /// The message of this error: the report for an error that the parser
    /// reports, the reason it stops for one on which it stops.
    pub fn message(&self) -> (r: String)
        ensures
            r@ == parse_error_message(*self),
    {
        match self {
            ParseError::Lex(e) => e.message(),
            ParseError::Unexpected { expected, found, line, column } => {
                let mut s = string_of_str("Expected ");
                s.append(expected.name());
                s.append(", got ");
                s.append(found.name());
                s.append(" at ");
                push_decimal(&mut s, *line as u64);
                s.append(":");
                push_decimal(&mut s, *column as u64);
                s
            },
            ParseError::EndOfInput { expected } => {
                let mut s = string_of_str("Expected ");
                s.append(expected.name());
                s.append(", found end of input");
                s
            },
            ParseError::NotIdentifier { line, column } => {
                let mut s = string_of_str("Expected identifier at ");
                push_decimal(&mut s, *line as u64);
                s.append(":");
                push_decimal(&mut s, *column as u64);
                s
            },
            ParseError::UnexpectedEnd => string_of_str("internal error: entered unreachable code"),
            ParseError::Unsupported { .. } => string_of_str("not implemented"),
            ParseError::BadInteger { .. } => string_of_str("Failed to parse lexed integer literal"),
            ParseError::BadDouble { .. } => string_of_str("Failed to parse lexed integer literal"),
        }
    }

    /// Whether the parser stops the program on this error rather than
    /// reporting it.
    pub fn is_halt(&self) -> (r: bool)
        ensures
            r == self.halts(),
    {
        match self {
            ParseError::Lex(e) => e.is_halt(),
            ParseError::UnexpectedEnd => true,
            ParseError::Unsupported { .. } => true,
            ParseError::BadInteger { .. } => true,
            ParseError::BadDouble { .. } => true,
            _ => false,
        }
    }
}

/// The message that the parser reports for an error it reports.
pub open spec fn parse_error_message(e: ParseError) -> Seq<char> {
    match e {
        ParseError::Lex(l) => lex_error_message(l),
        ParseError::Unexpected { expected, found, line, column } =>
            "Expected "@ + token_type_name(expected) + ", got "@ + token_type_name(found) + " at "@
                + decimal(line as nat) + ":"@ + decimal(column as nat),
        ParseError::EndOfInput { expected } =>
            "Expected "@ + token_type_name(expected) + ", found end of input"@,
        ParseError::NotIdentifier { line, column } =>
            "Expected identifier at "@ + decimal(line as nat) + ":"@ + decimal(column as nat),
        ParseError::UnexpectedEnd => "internal error: entered unreachable code"@,
        ParseError::Unsupported { .. } => "not implemented"@,
        ParseError::BadInteger { .. } => "Failed to parse lexed integer literal"@,
        ParseError::BadDouble { .. } => "Failed to parse lexed integer literal"@,
    }
}

// ---------------------------------------------------------------------------
// The grammar, stated over the tokens still to come and the agent's table.
// Each function gives its result and the state after it. Before a recursive
// call the definitions check that tokens were read; the parser's functions
// prove that this check always holds, so the `arbitrary()` branches are never
// taken.

/// What the parser has still to read, and the strings the agent holds.
pub struct PState {
    pub toks: Seq<Result<TokenView, LexError>>,
    pub table: Seq<Seq<char>>,
}

/// The state with the first token read.
pub open spec fn advance(ps: PState) -> PState {
    if ps.toks.len() == 0 { ps } else { PState { toks: ps.toks.drop_first(), table: ps.table } }
}

/// The next token, without reading it.
pub open spec fn peek_spec(ps: PState) -> Result<Option<TokenView>, ParseError> {
    if ps.toks.len() == 0 {
        Ok(None)
    } else {
        match ps.toks[0] {
            Ok(t) => Ok(Some(t)),
            Err(e) => Err(ParseError::Lex(e)),
        }
    }
}

pub open spec fn position_of(t: TokenView) -> Position {
    Position { line: t.line, column: t.column }
}

/// Reads a token of kind `ty`.
pub open spec fn expect_spec(ps: PState, ty: TokenType) -> (Result<TokenView, ParseError>, PState) {
    let ps1 = advance(ps);
    match peek_spec(ps) {
        Err(e) => (Err(e), ps1),
        Ok(Some(t)) => if t.typ == ty {
            (Ok(t), ps1)
        } else {
            (Err(ParseError::Unexpected { expected: ty, found: t.typ, line: t.line, column: t.column }), ps1)
        },
        Ok(None) => (Err(ParseError::EndOfInput { expected: ty }), ps1),
    }
}

/// Reads a token of kind `ty` if the next token is one.
pub open spec fn matches_spec(ps: PState, ty: TokenType) -> (Result<bool, ParseError>, PState) {
    match peek_spec(ps) {
        Err(e) => (Err(e), ps),
        Ok(Some(t)) => if t.typ == ty { (Ok(true), advance(ps)) } else { (Ok(false), ps) },
        Ok(None) => (Ok(false), ps),
    }
}

pub open spec fn identifier_spec(ps: PState) -> (Result<ExpressionV, ParseError>, PState) {
    let (r, ps1) = expect_spec(ps, TokenType::Identifier);
    match r {
        Err(e) => (Err(e), ps1),
        Ok(t) => (
            Ok(ExpressionV { position: position_of(t), value: ExpressionKindV::Identifier(intern_id(ps1.table, t.text)) }),
            PState { toks: ps1.toks, table: intern_table(ps1.table, t.text) },
        ),
    }
}

pub open spec fn integer_spec(ps: PState) -> (Result<ExpressionV, ParseError>, PState) {
    let (r, ps1) = expect_spec(ps, TokenType::Integer);
    match r {
        Err(e) => (Err(e), ps1),
        Ok(t) => match parse_i64(t.text) {
            Some(v) => (Ok(ExpressionV { position: position_of(t), value: ExpressionKindV::Integer(v) }), ps1),
            None => (Err(ParseError::BadInteger { line: t.line, column: t.column }), ps1),
        },
    }
}

pub open spec fn double_spec(ps: PState) -> (Result<ExpressionV, ParseError>, PState) {
    let (r, ps1) = expect_spec(ps, TokenType::Double);
    match r {
        Err(e) => (Err(e), ps1),
        Ok(t) => if parses_as_f64(t.text) {
            (Ok(ExpressionV { position: position_of(t), value: ExpressionKindV::Double(t.text) }), ps1)
        } else {
            (Err(ParseError::BadDouble { line: t.line, column: t.column }), ps1)
        },
    }
}

/// An expression: an identifier, an integer or a floating-point literal.
pub open spec fn expression_spec(ps: PState) -> (Result<ExpressionV, ParseError>, PState) {
    match peek_spec(ps) {
        Err(e) => (Err(e), ps),
        Ok(None) => (Err(ParseError::UnexpectedEnd), ps),
        Ok(Some(t)) => if t.typ == TokenType::Identifier {
            identifier_spec(ps)
        } else if t.typ == TokenType::Integer {
            integer_spec(ps)
        } else if t.typ == TokenType::Double {
            double_spec(ps)
        } else {
            (Err(ParseError::Unsupported { found: t.typ, line: t.line, column: t.column }), ps)
        },
    }
}

/// `None` if a token of kind `stop` comes next (and is read); else an
/// expression followed by a token of kind `close`.
pub open spec fn optional_expression_spec(ps: PState, stop: TokenType, close: TokenType)
    -> (Result<Option<ExpressionV>, ParseError>, PState)
{
    let (m, ps1) = matches_spec(ps, stop);
    match m {
        Err(e) => (Err(e), ps1),
        Ok(true) => (Ok(None), ps1),
        Ok(false) => {
            let (r, ps2) = expression_spec(ps1);
            match r {
                Err(e) => (Err(e), ps2),
                Ok(x) => {
                    let (c, ps3) = expect_spec(ps2, close);
                    match c {
                        Err(e) => (Err(e), ps3),
                        Ok(_) => (Ok(Some(x)), ps3),
                    }
                },
            }
        },
    }
}

pub open spec fn let_spec(ps: PState) -> (Result<StatementV, ParseError>, PState) {
    let (r0, ps0) = expect_spec(ps, TokenType::Let);
    match r0 {
        Err(e) => (Err(e), ps0),
        Ok(kw) => {
            let (r1, ps1) = identifier_spec(ps0);
            match r1 {
                Err(e) => (Err(e), ps1),
                Ok(name) => {
                    let (m, ps2) = matches_spec(ps1, TokenType::Equal);
                    match m {
                        Err(e) => (Err(e), ps2),
                        Ok(has_value) => {
                            let (rv, ps3) = if has_value {
                                let (r, p) = expression_spec(ps2);
                                (match r { Ok(x) => Ok(Some(x)), Err(e) => Err(e) }, p)
                            } else {
                                (Ok(None), ps2)
                            };
                            match rv {
                                Err(e) => (Err(e), ps3),
                                Ok(value) => {
                                    let (r4, ps4) = expect_spec(ps3, TokenType::Semicolon);
                                    match r4 {
                                        Err(e) => (Err(e), ps4),
                                        Ok(_) => (Ok(StatementV {
                                            position: position_of(kw),
                                            value: StatementKindV::LetDeclaration { name, value },
                                        }), ps4),
                                    }
                                },
                            }
                        },
                    }
                },
            }
        },
    }
}

pub open spec fn keyword_statement_spec(ps: PState, kw: TokenType, value: StatementKindV) -> (Result<StatementV, ParseError>, PState) {
    let (r0, ps0) = expect_spec(ps, kw);
    match r0 {
        Err(e) => (Err(e), ps0),
        Ok(k) => {
            let (r1, ps1) = expect_spec(ps0, TokenType::Semicolon);
            match r1 {
                Err(e) => (Err(e), ps1),
                Ok(_) => (Ok(StatementV { position: position_of(k), value }), ps1),
            }
        },
    }
}

pub open spec fn return_spec(ps: PState) -> (Result<StatementV, ParseError>, PState) {
    let (r0, ps0) = expect_spec(ps, TokenType::Return);
    match r0 {
        Err(e) => (Err(e), ps0),
        Ok(k) => {
            let (r1, ps1) = optional_expression_spec(ps0, TokenType::Semicolon, TokenType::Semicolon);
            match r1 {
                Err(e) => (Err(e), ps1),
                Ok(x) => (Ok(StatementV { position: position_of(k), value: StatementKindV::ReturnStatement(x) }), ps1),
            }
        },
    }
}

pub open spec fn expression_statement_spec(ps: PState) -> (Result<StatementV, ParseError>, PState) {
    let (r0, ps0) = expression_spec(ps);
    match r0 {
        Err(e) => (Err(e), ps0),
        Ok(x) => {
            let (r1, ps1) = expect_spec(ps0, TokenType::Semicolon);
            match r1 {
                Err(e) => (Err(e), ps1),
                Ok(_) => (Ok(StatementV { position: x.position, value: StatementKindV::ExpressionStatement(x) }), ps1),
            }
        },
    }
}

/// The parameters of a function, after its `(`: identifiers separated by
/// commas (a trailing comma allowed), up to and with the `)`.
pub open spec fn parameters_spec(ps: PState) -> (Result<Seq<ExpressionV>, ParseError>, PState)
    decreases ps.toks.len(),
{
    let (m, ps1) = matches_spec(ps, TokenType::RightParen);
    match m {
        Err(e) => (Err(e), ps1),
        Ok(true) => (Ok(Seq::empty()), ps1),
        Ok(false) => {
            let (r, ps2) = expression_spec(ps1);
            match r {
                Err(e) => (Err(e), ps2),
                Ok(p) => if !(p.value is Identifier) {
                    (Err(ParseError::NotIdentifier { line: p.position.line, column: p.position.column }), ps2)
                } else {
                    let (c, ps3) = matches_spec(ps2, TokenType::Comma);
                    match c {
                        Err(e) => (Err(e), ps3),
                        Ok(false) => {
                            let (r4, ps4) = expect_spec(ps3, TokenType::RightParen);
                            match r4 {
                                Err(e) => (Err(e), ps4),
                                Ok(_) => (Ok(seq![p]), ps4),
                            }
                        },
                        Ok(true) => if ps3.toks.len() < ps.toks.len() {
                            let (rest, ps4) = parameters_spec(ps3);
                            match rest {
                                Err(e) => (Err(e), ps4),
                                Ok(v) => (Ok(seq![p] + v), ps4),
                            }
                        } else {
                            arbitrary()
                        },
                    }
                },
            }
        },
    }
}

/// Statements up to and with the `}` that closes a block.
pub open spec fn block_spec(ps: PState) -> (Result<Seq<StatementV>, ParseError>, PState)
    decreases ps.toks.len(), 5int,
{
    let (m, ps1) = matches_spec(ps, TokenType::RightBrace);
    match m {
        Err(e) => (Err(e), ps1),
        Ok(true) => (Ok(Seq::empty()), ps1),
        Ok(false) => {
            let (r, ps2) = statement_spec(ps1);
            match r {
                Err(e) => (Err(e), ps2),
                Ok(s) => if ps2.toks.len() < ps.toks.len() {
                    let (rest, ps3) = block_spec(ps2);
                    match rest {
                        Err(e) => (Err(e), ps3),
                        Ok(v) => (Ok(seq![s] + v), ps3),
                    }
                } else {
                    arbitrary()
                },
            }
        },
    }
}

/// One statement, chosen by its first token.
pub open spec fn statement_spec(ps: PState) -> (Result<StatementV, ParseError>, PState)
    decreases ps.toks.len(), 4int,
{
    match peek_spec(ps) {
        Err(e) => (Err(e), ps),
        Ok(None) => (Err(ParseError::UnexpectedEnd), ps),
        Ok(Some(t)) => match t.typ {
            TokenType::Let => let_spec(ps),
            TokenType::Function => function_spec(ps),
            TokenType::If => if_spec(ps),
            TokenType::While => while_spec(ps),
            TokenType::For => for_spec(ps),
            TokenType::Continue => keyword_statement_spec(ps, TokenType::Continue, StatementKindV::ContinueStatement),
            TokenType::Break => keyword_statement_spec(ps, TokenType::Break, StatementKindV::BreakStatement),
            TokenType::Return => return_spec(ps),
            _ => expression_statement_spec(ps),
        },
    }
}

pub open spec fn function_spec(ps: PState) -> (Result<StatementV, ParseError>, PState)
    decreases ps.toks.len(), 3int,
{
    let (r0, ps0) = expect_spec(ps, TokenType::Function);
    match r0 {
        Err(e) => (Err(e), ps0),
        Ok(kw) => {
            let (r1, ps1) = expression_spec(ps0);
            match r1 {
                Err(e) => (Err(e), ps1),
                Ok(name) => if !(name.value is Identifier) {
                    (Err(ParseError::NotIdentifier { line: name.position.line, column: name.position.column }), ps1)
                } else {
                    let (r2, ps2) = expect_spec(ps1, TokenType::LeftParen);
                    match r2 {
                        Err(e) => (Err(e), ps2),
                        Ok(_) => {
                            let (r3, ps3) = parameters_spec(ps2);
                            match r3 {
                                Err(e) => (Err(e), ps3),
                                Ok(parameters) => {
                                    let (r4, ps4) = expect_spec(ps3, TokenType::LeftBrace);
                                    match r4 {
                                        Err(e) => (Err(e), ps4),
                                        Ok(_) => if ps4.toks.len() < ps.toks.len() {
                                            let (r5, ps5) = block_spec(ps4);
                                            match r5 {
                                                Err(e) => (Err(e), ps5),
                                                Ok(body) => (Ok(StatementV {
                                                    position: position_of(kw),
                                                    value: StatementKindV::FunctionDeclaration { name, parameters, body },
                                                }), ps5),
                                            }
                                        } else {
                                            arbitrary()
                                        },
                                    }
                                },
                            }
                        },
                    }
                },
            }
        },
    }
}

/// The `else` part of an `if`, after the `else`: another `if`, or a block.
pub open spec fn else_spec(ps: PState, outer: PState) -> (Result<Seq<StatementV>, ParseError>, PState)
    decreases outer.toks.len(), 2int,
{
    match peek_spec(ps) {
        Err(e) => (Err(e), ps),
        Ok(Some(t)) => if t.typ == TokenType::If && ps.toks.len() < outer.toks.len() {
            let (r, ps1) = if_spec(ps);
            match r {
                Err(e) => (Err(e), ps1),
                Ok(s) => (Ok(seq![s]), ps1),
            }
        } else {
            else_block_spec(ps, outer)
        },
        Ok(None) => else_block_spec(ps, outer),
    }
}

pub open spec fn else_block_spec(ps: PState, outer: PState) -> (Result<Seq<StatementV>, ParseError>, PState)
    decreases outer.toks.len(), 1int,
{
    let (r, ps1) = expect_spec(ps, TokenType::LeftBrace);
    match r {
        Err(e) => (Err(e), ps1),
        Ok(_) => if ps1.toks.len() < outer.toks.len() { block_spec(ps1) } else { arbitrary() },
    }
}

pub open spec fn if_spec(ps: PState) -> (Result<StatementV, ParseError>, PState)
    decreases ps.toks.len(), 3int,
{
    let (r0, ps0) = expect_spec(ps, TokenType::If);
    match r0 {
        Err(e) => (Err(e), ps0),
        Ok(kw) => {
            let (r1, ps1) = expression_spec(ps0);
            match r1 {
                Err(e) => (Err(e), ps1),
                Ok(predicate) => {
                    let (r2, ps2) = expect_spec(ps1, TokenType::LeftBrace);
                    match r2 {
                        Err(e) => (Err(e), ps2),
                        Ok(_) => if ps2.toks.len() < ps.toks.len() {
                            let (r3, ps3) = block_spec(ps2);
                            match r3 {
                                Err(e) => (Err(e), ps3),
                                Ok(then_body) => {
                                    let (m, ps4) = matches_spec(ps3, TokenType::Else);
                                    match m {
                                        Err(e) => (Err(e), ps4),
                                        Ok(false) => (Ok(StatementV {
                                            position: position_of(kw),
                                            value: StatementKindV::IfStatement { predicate, then_body, else_body: None },
                                        }), ps4),
                                        Ok(true) => if ps4.toks.len() < ps.toks.len() {
                                            let (r5, ps5) = else_spec(ps4, ps);
                                            match r5 {
                                                Err(e) => (Err(e), ps5),
                                                Ok(else_body) => (Ok(StatementV {
                                                    position: position_of(kw),
                                                    value: StatementKindV::IfStatement { predicate, then_body, else_body: Some(else_body) },
                                                }), ps5),
                                            }
                                        } else {
                                            arbitrary()
                                        },
                                    }
                                },
                            }
                        } else {
                            arbitrary()
                        },
                    }
                },
            }
        },
    }
}

pub open spec fn while_spec(ps: PState) -> (Result<StatementV, ParseError>, PState)
    decreases ps.toks.len(), 3int,
{
    let (r0, ps0) = expect_spec(ps, TokenType::While);
    match r0 {
        Err(e) => (Err(e), ps0),
        Ok(kw) => {
            let (r1, ps1) = expression_spec(ps0);
            match r1 {
                Err(e) => (Err(e), ps1),
                Ok(predicate) => {
                    let (r2, ps2) = expect_spec(ps1, TokenType::LeftBrace);
                    match r2 {
                        Err(e) => (Err(e), ps2),
                        Ok(_) => if ps2.toks.len() < ps.toks.len() {
                            let (r3, ps3) = block_spec(ps2);
                            match r3 {
                                Err(e) => (Err(e), ps3),
                                Ok(body) => (Ok(StatementV {
                                    position: position_of(kw),
                                    value: StatementKindV::WhileStatement { predicate, body },
                                }), ps3),
                            }
                        } else {
                            arbitrary()
                        },
                    }
                },
            }
        },
    }
}

pub open spec fn for_spec(ps: PState) -> (Result<StatementV, ParseError>, PState)
    decreases ps.toks.len(), 3int,
{
    let (r0, ps0) = expect_spec(ps, TokenType::For);
    match r0 {
        Err(e) => (Err(e), ps0),
        Ok(kw) => {
            let (m, ps1) = matches_spec(ps0, TokenType::Semicolon);
            match m {
                Err(e) => (Err(e), ps1),
                Ok(no_init) => if ps1.toks.len() < ps.toks.len() {
                    let (ri, ps2) = if no_init {
                        (Ok(None), ps1)
                    } else {
                        let (r, p) = statement_spec(ps1);
                        (match r { Ok(s) => Ok(Some(Box::new(s))), Err(e) => Err(e) }, p)
                    };
                    match ri {
                        Err(e) => (Err(e), ps2),
                        Ok(initializer) => {
                            let (rp, ps3) = optional_expression_spec(ps2, TokenType::Semicolon, TokenType::Semicolon);
                            match rp {
                                Err(e) => (Err(e), ps3),
                                Ok(predicate) => {
                                    let (rn, ps4) = optional_expression_spec(ps3, TokenType::LeftBrace, TokenType::LeftBrace);
                                    match rn {
                                        Err(e) => (Err(e), ps4),
                                        Ok(increment) => if ps4.toks.len() < ps.toks.len() {
                                            let (rb, ps5) = block_spec(ps4);
                                            match rb {
                                                Err(e) => (Err(e), ps5),
                                                Ok(body) => (Ok(StatementV {
                                                    position: position_of(kw),
                                                    value: StatementKindV::ForStatement { initializer, predicate, increment, body },
                                                }), ps5),
                                            }
                                        } else {
                                            arbitrary()
                                        },
                                    }
                                },
                            }
                        },
                    }
                } else {
                    arbitrary()
                },
            }
        },
    }
}

/// What a call of `next_statement` gives: nothing at the end of the input,
/// the lexer's error if the next token is one (without reading it), else
/// the next statement.
pub open spec fn next_statement_spec(ps: PState) -> (Option<Result<StatementV, ParseError>>, PState) {
    match peek_spec(ps) {
        Ok(Some(_)) => {
            let (r, ps1) = statement_spec(ps);
            (Some(r), ps1)
        },
        Err(e) => (Some(Err(e)), ps),
        Ok(None) => (None, ps),
    }
}


/// An error of the lexer is reported without being read: the call leaves
/// the parser as it was, so the next call reports the same error again.
pub proof fn lemma_lex_error_not_read(ps: PState)
    requires
        ps.toks.len() > 0,
        ps.toks[0] is Err,
    ensures
        next_statement_spec(ps).1 == ps,
        next_statement_spec(next_statement_spec(ps).1) == next_statement_spec(ps),
        match ps.toks[0] {
            Err(e) => next_statement_spec(ps).0 == Some(Err::<StatementV, ParseError>(ParseError::Lex(e))),
            Ok(_) => true,
        },
{
}

/// Looking at the next item reads nothing, and reading gives what looking
/// gave: the parser's `peek` leaves its state as it was and answers
/// `peek_spec`, its `next_token` answers the same and moves to `advance`,
/// which takes exactly the front item off and keeps the agent's table. At the
/// end of the input both answer `Ok(None)`, and keep doing so.
pub proof fn lemma_peek_then_read(ps: PState)
    ensures
        ps.toks.len() == 0 ==> peek_spec(ps) == Ok::<Option<TokenView>, ParseError>(None),
        ps.toks.len() == 0 ==> advance(ps) == ps,
        ps.toks.len() > 0 ==> match ps.toks[0] {
            Ok(t) => peek_spec(ps) == Ok::<Option<TokenView>, ParseError>(Some(t)),
            Err(e) => peek_spec(ps) == Err::<Option<TokenView>, ParseError>(ParseError::Lex(e)),
        },
        ps.toks.len() > 0 ==> advance(ps).toks =~= ps.toks.subrange(1, ps.toks.len() as int),
        advance(ps).table == ps.table,
        advance(ps).toks.len() == if ps.toks.len() == 0 { 0 } else { ps.toks.len() - 1 },
{
}

/// At the end of the input the parser gives nothing, and stays at the end.
pub proof fn lemma_end_of_input(ps: PState)
    requires
        ps.toks.len() == 0,
    ensures
        next_statement_spec(ps) == (None::<Result<StatementV, ParseError>>, ps),
{
}

// ---------------------------------------------------------------------------
// Results of the parser against the grammar

pub open spec fn item_view(x: Result<Token, LexError>) -> Result<TokenView, LexError> {
    match x {
        Ok(t) => Ok(t@),
        Err(e) => Err(e),
    }
}

pub open spec fn same_token(r: Result<Token, ParseError>, s: Result<TokenView, ParseError>) -> bool {
    match (r, s) {
        (Ok(a), Ok(b)) => a@ == b,
        (Err(e), Err(f)) => e == f,
        _ => false,
    }
}

pub open spec fn same_expression(r: Result<Expression, ParseError>, s: Result<ExpressionV, ParseError>) -> bool {
    match (r, s) {
        (Ok(a), Ok(b)) => a@ == b,
        (Err(e), Err(f)) => e == f,
        _ => false,
    }
}

pub open spec fn same_optional_expression(
    r: Result<Option<Expression>, ParseError>,
    s: Result<Option<ExpressionV>, ParseError>,
) -> bool {
    match (r, s) {
        (Ok(None), Ok(None)) => true,
        (Ok(Some(a)), Ok(Some(b))) => a@ == b,
        (Err(e), Err(f)) => e == f,
        _ => false,
    }
}

pub open spec fn same_expressions(r: Result<Vec<Expression>, ParseError>, s: Result<Seq<ExpressionV>, ParseError>) -> bool {
    match (r, s) {
        (Ok(a), Ok(b)) => expressions_view(a@) == b,
        (Err(e), Err(f)) => e == f,
        _ => false,
    }
}

pub open spec fn same_statement(r: Result<Statement, ParseError>, s: Result<StatementV, ParseError>) -> bool {
    match (r, s) {
        (Ok(a), Ok(b)) => a@ == b,
        (Err(e), Err(f)) => e == f,
        _ => false,
    }
}

pub open spec fn same_statements(r: Result<Vec<Statement>, ParseError>, s: Result<Seq<StatementV>, ParseError>) -> bool {
    match (r, s) {
        (Ok(a), Ok(b)) => statements_view(a@) == b,
        (Err(e), Err(f)) => e == f,
        _ => false,
    }
}

/// `r` with the statements `v` put in front of what it gives.
pub open spec fn prepend_statements(v: Seq<StatementV>, r: (Result<Seq<StatementV>, ParseError>, PState))
    -> (Result<Seq<StatementV>, ParseError>, PState)
{
    (match r.0 { Ok(w) => Ok(v + w), Err(e) => Err(e) }, r.1)
}

/// `r` with the expressions `v` put in front of what it gives.
pub open spec fn prepend_expressions(v: Seq<ExpressionV>, r: (Result<Seq<ExpressionV>, ParseError>, PState))
    -> (Result<Seq<ExpressionV>, ParseError>, PState)
{
    (match r.0 { Ok(w) => Ok(v + w), Err(e) => Err(e) }, r.1)
}

proof fn lemma_statements_view_push(v: Seq<Statement>, s: Statement)
    ensures
        statements_view(v.push(s)) == statements_view(v).push(s@),
{
    assert(statements_view(v.push(s)) =~= statements_view(v).push(s@));
}

proof fn lemma_expressions_view_push(v: Seq<Expression>, e: Expression)
    ensures
        expressions_view(v.push(e)) == expressions_view(v).push(e@),
{
    assert(expressions_view(v.push(e)) =~= expressions_view(v).push(e@));
}

proof fn lemma_prepend_statements_empty(r: (Result<Seq<StatementV>, ParseError>, PState))
    ensures
        prepend_statements(Seq::empty(), r) == r,
{
    if let Ok(w) = r.0 {
        assert(Seq::<StatementV>::empty() + w =~= w);
    }
}

proof fn lemma_prepend_expressions_empty(r: (Result<Seq<ExpressionV>, ParseError>, PState))
    ensures
        prepend_expressions(Seq::empty(), r) == r,
{
    if let Ok(w) = r.0 {
        assert(Seq::<ExpressionV>::empty() + w =~= w);
    }
}

proof fn lemma_prepend_statements_push(v: Seq<StatementV>, s: StatementV, r: (Result<Seq<StatementV>, ParseError>, PState))
    ensures
        prepend_statements(v, prepend_statements(seq![s], r)) == prepend_statements(v.push(s), r),
{
    if let Ok(w) = r.0 {
        assert(v + (seq![s] + w) =~= v.push(s) + w);
    }
}

proof fn lemma_prepend_expressions_push(v: Seq<ExpressionV>, e: ExpressionV, r: (Result<Seq<ExpressionV>, ParseError>, PState))
    ensures
        prepend_expressions(v, prepend_expressions(seq![e], r)) == prepend_expressions(v.push(e), r),
{
    if let Ok(w) = r.0 {
        assert(v + (seq![e] + w) =~= v.push(e) + w);
    }
}

// ---------------------------------------------------------------------------
// The parser

/// Reads statements from a lexer, interning identifiers with an agent.
pub struct Parser<'a> {
    agent: &'a mut Agent,
    lexer: Lexer<'a>,
    peeked: Option<Option<Result<Token, LexError>>>,
}

impl<'a> View for Parser<'a> {
    type V = PState;

    closed spec fn view(&self) -> PState {
        PState {
            toks: match self.peeked {
                None => token_stream(self.lexer@),
                Some(None) => Seq::empty(),
                Some(Some(x)) => seq![item_view(x)] + token_stream(self.lexer@),
            },
            table: self.agent.table(),
        }
    }
}

impl<'a> Parser<'a> {
    /// The parser's invariant: that of its lexer.
    pub closed spec fn wf(&self) -> bool {
        self.lexer.wf()
    }

    /// A parser of the tokens of `lexer`, interning with `agent`.
    pub fn new(agent: &'a mut Agent, lexer: Lexer<'a>) -> (p: Parser<'a>)
        requires
            lexer.wf(),
        ensures
            p.wf(),
            p@ == (PState { toks: token_stream(lexer@), table: old(agent).table() }),
    {
        Parser { agent, lexer, peeked: None }
    }

    /// Makes sure the next item of the lexer is at hand.
    fn fill(&mut self)
        requires
            old(self).wf(),
        ensures
            final(self).wf(),
            final(self)@ == old(self)@,
            final(self).peeked is Some,
    {
        if self.peeked.is_none() {
            proof {
                self.lexer.lemma_state_ok();
                lemma_token_stream_unfold(self.lexer@);
            }
            let x = self.lexer.lex();
            self.peeked = Some(x);
        }
    }

    /// The next token, without reading it.
    fn peek(&mut self) -> (r: Result<Option<&Token>, ParseError>)
        requires
            old(self).wf(),
        ensures
            final(self).wf(),
            final(self)@ == old(self)@,
            match (r, peek_spec(old(self)@)) {
                (Ok(None), Ok(None)) => true,
                (Ok(Some(t)), Ok(Some(v))) => t@ == v,
                (Err(e), Err(f)) => e == f,
                _ => false,
            },
    {
        self.fill();
        match &self.peeked {
            Some(Some(Ok(t))) => Ok(Some(t)),
            Some(Some(Err(e))) => Err(ParseError::Lex(*e)),
            _ => Ok(None),
        }
    }

    /// Reads the next token.
    fn next_token(&mut self) -> (r: Result<Option<Token>, ParseError>)
        requires
            old(self).wf(),
        ensures
            final(self).wf(),
            final(self)@ == advance(old(self)@),
            match (r, peek_spec(old(self)@)) {
                (Ok(None), Ok(None)) => true,
                (Ok(Some(t)), Ok(Some(v))) => t@ == v,
                (Err(e), Err(f)) => e == f,
                _ => false,
            },
    {
        self.fill();
        proof {
            if self.peeked is Some && self.peeked->0 is Some {
                let ts = token_stream(self.lexer@);
                assert((seq![item_view(self.peeked->0->0)] + ts).drop_first() =~= ts);
            }
        }
        let p = self.peeked.take();
        match p {
            Some(Some(Ok(t))) => Ok(Some(t)),
            Some(Some(Err(e))) => Err(ParseError::Lex(e)),
            _ => {
                self.peeked = Some(None);
                Ok(None)
            },
        }
    }

    /// Reads a token of kind `expected`.
    fn expect(&mut self, expected: TokenType) -> (r: Result<Token, ParseError>)
        requires
            old(self).wf(),
        ensures
            final(self).wf(),
            same_token(r, expect_spec(old(self)@, expected).0),
            final(self)@ == expect_spec(old(self)@, expected).1,
            final(self)@.toks.len() <= old(self)@.toks.len(),
            extends(old(self)@.table, final(self)@.table),
            r is Ok ==> final(self)@.toks.len() < old(self)@.toks.len(),
    {
        match self.next_token()? {
            Some(tok) => {
                if tok.typ == expected {
                    Ok(tok)
                } else {
                    Err(ParseError::Unexpected {
                        expected,
                        found: tok.typ,
                        line: tok.position.line,
                        column: tok.position.column,
                    })
                }
            },
            None => Err(ParseError::EndOfInput { expected }),
        }
    }

    /// Reads a token of kind `expected` if the next token is one, and says
    /// whether it did.
    fn matches(&mut self, expected: TokenType) -> (r: Result<bool, ParseError>)
        requires
            old(self).wf(),
        ensures
            final(self).wf(),
            r == matches_spec(old(self)@, expected).0,
            final(self)@ == matches_spec(old(self)@, expected).1,
            final(self)@.toks.len() <= old(self)@.toks.len(),
            extends(old(self)@.table, final(self)@.table),
    {
        let hit = match self.peek()? {
            Some(tok) => tok.typ == expected,
            None => false,
        };
        if hit {
            self.expect(expected)?;
            Ok(true)
        } else {
            Ok(false)
        }
    }

    fn parse_identifier_expression(&mut self) -> (r: Result<Expression, ParseError>)
        requires
            old(self).wf(),
        ensures
            final(self).wf(),
            same_expression(r, identifier_spec(old(self)@).0),
            final(self)@ == identifier_spec(old(self)@).1,
            final(self)@.toks.len() <= old(self)@.toks.len(),
            extends(old(self)@.table, final(self)@.table),
    {
        let tok = self.expect(TokenType::Identifier)?;
        let id = self.agent.intern_string(tok.text.as_str());
        Ok(Expression { position: tok.position, value: ExpressionKind::Identifier(id) })
    }

    fn parse_integer_expression(&mut self) -> (r: Result<Expression, ParseError>)
        requires
            old(self).wf(),
        ensures
            final(self).wf(),
            same_expression(r, integer_spec(old(self)@).0),
            final(self)@ == integer_spec(old(self)@).1,
            final(self)@.toks.len() <= old(self)@.toks.len(),
            extends(old(self)@.table, final(self)@.table),
    {
        let number = self.expect(TokenType::Integer)?;
        let chars = chars_of(number.text.as_str());
        match parse_i64_of(&chars) {
            Some(v) => Ok(Expression { position: number.position, value: ExpressionKind::Integer(v) }),
            None => Err(ParseError::BadInteger { line: number.position.line, column: number.position.column }),
        }
    }

    fn parse_double_expression(&mut self) -> (r: Result<Expression, ParseError>)
        requires
            old(self).wf(),
        ensures
            final(self).wf(),
            same_expression(r, double_spec(old(self)@).0),
            final(self)@ == double_spec(old(self)@).1,
            final(self)@.toks.len() <= old(self)@.toks.len(),
            extends(old(self)@.table, final(self)@.table),
    {
        let number = self.expect(TokenType::Double)?;
        let chars = chars_of(number.text.as_str());
        if parses_as_f64_of(&chars) {
            Ok(Expression { position: number.position, value: ExpressionKind::Double(number.text) })
        } else {
            Err(ParseError::BadDouble { line: number.position.line, column: number.position.column })
        }
    }

    fn parse_expression(&mut self) -> (r: Result<Expression, ParseError>)
        requires
            old(self).wf(),
        ensures
            final(self).wf(),
            same_expression(r, expression_spec(old(self)@).0),
            final(self)@ == expression_spec(old(self)@).1,
            final(self)@.toks.len() <= old(self)@.toks.len(),
            extends(old(self)@.table, final(self)@.table),
            r is Ok ==> final(self)@.toks.len() < old(self)@.toks.len(),
    {
        let next = match self.peek()? {
            Some(tok) => Some((tok.typ, tok.position)),
            None => None,
        };
        match next {
            None => Err(ParseError::UnexpectedEnd),
            Some((typ, position)) => {
                if typ == TokenType::Identifier {
                    self.parse_identifier_expression()
                } else if typ == TokenType::Integer {
                    self.parse_integer_expression()
                } else if typ == TokenType::Double {
                    self.parse_double_expression()
                } else {
                    Err(ParseError::Unsupported { found: typ, line: position.line, column: position.column })
                }
            },
        }
    }

    /// `None` if a token of kind `stop` comes next (and is read); else an
    /// expression followed by a token of kind `close`.
    fn parse_optional_expression(&mut self, stop: TokenType, close: TokenType) -> (r: Result<Option<Expression>, ParseError>)
        requires
            old(self).wf(),
        ensures
            final(self).wf(),
            same_optional_expression(r, optional_expression_spec(old(self)@, stop, close).0),
            final(self)@ == optional_expression_spec(old(self)@, stop, close).1,
            final(self)@.toks.len() <= old(self)@.toks.len(),
            extends(old(self)@.table, final(self)@.table),
    {
        if self.matches(stop)? {
            Ok(None)
        } else {
            let expr = self.parse_expression()?;
            self.expect(close)?;
            Ok(Some(expr))
        }
    }

    fn parse_let_declaration(&mut self) -> (r: Result<Statement, ParseError>)
        requires
            old(self).wf(),
        ensures
            final(self).wf(),
            same_statement(r, let_spec(old(self)@).0),
            final(self)@ == let_spec(old(self)@).1,
            final(self)@.toks.len() <= old(self)@.toks.len(),
            extends(old(self)@.table, final(self)@.table),
            r is Ok ==> final(self)@.toks.len() < old(self)@.toks.len(),
    {
        let let_ = self.expect(TokenType::Let)?;
        let ident = self.parse_identifier_expression()?;
        let value = if self.matches(TokenType::Equal)? {
            Some(self.parse_expression()?)
        } else {
            None
        };
        self.expect(TokenType::Semicolon)?;
        Ok(Statement { position: let_.position, value: StatementKind::LetDeclaration { name: ident, value } })
    }

    fn parse_continue_statement(&mut self) -> (r: Result<Statement, ParseError>)
        requires
            old(self).wf(),
        ensures
            final(self).wf(),
            same_statement(r, keyword_statement_spec(old(self)@, TokenType::Continue, StatementKindV::ContinueStatement).0),
            final(self)@ == keyword_statement_spec(old(self)@, TokenType::Continue, StatementKindV::ContinueStatement).1,
            final(self)@.toks.len() <= old(self)@.toks.len(),
            extends(old(self)@.table, final(self)@.table),
            r is Ok ==> final(self)@.toks.len() < old(self)@.toks.len(),
    {
        let continue_ = self.expect(TokenType::Continue)?;
        self.expect(TokenType::Semicolon)?;
        Ok(Statement { position: continue_.position, value: StatementKind::ContinueStatement })
    }

    fn parse_break_statement(&mut self) -> (r: Result<Statement, ParseError>)
        requires
            old(self).wf(),
        ensures
            final(self).wf(),
            same_statement(r, keyword_statement_spec(old(self)@, TokenType::Break, StatementKindV::BreakStatement).0),
            final(self)@ == keyword_statement_spec(old(self)@, TokenType::Break, StatementKindV::BreakStatement).1,
            final(self)@.toks.len() <= old(self)@.toks.len(),
            extends(old(self)@.table, final(self)@.table),
            r is Ok ==> final(self)@.toks.len() < old(self)@.toks.len(),
    {
        let break_ = self.expect(TokenType::Break)?;
        self.expect(TokenType::Semicolon)?;
        Ok(Statement { position: break_.position, value: StatementKind::BreakStatement })
    }

    fn parse_return_statement(&mut self) -> (r: Result<Statement, ParseError>)
        requires
            old(self).wf(),
        ensures
            final(self).wf(),
            same_statement(r, return_spec(old(self)@).0),
            final(self)@ == return_spec(old(self)@).1,
            final(self)@.toks.len() <= old(self)@.toks.len(),
            extends(old(self)@.table, final(self)@.table),
            r is Ok ==> final(self)@.toks.len() < old(self)@.toks.len(),
    {
        let return_ = self.expect(TokenType::Return)?;
        let expression = self.parse_optional_expression(TokenType::Semicolon, TokenType::Semicolon)?;
        Ok(Statement { position: return_.position, value: StatementKind::ReturnStatement(expression) })
    }

    fn parse_expression_statement(&mut self) -> (r: Result<Statement, ParseError>)
        requires
            old(self).wf(),
        ensures
            final(self).wf(),
            same_statement(r, expression_statement_spec(old(self)@).0),
            final(self)@ == expression_statement_spec(old(self)@).1,
            final(self)@.toks.len() <= old(self)@.toks.len(),
            extends(old(self)@.table, final(self)@.table),
            r is Ok ==> final(self)@.toks.len() < old(self)@.toks.len(),
    {
        let expression = self.parse_expression()?;
        self.expect(TokenType::Semicolon)?;
        Ok(Statement { position: expression.position, value: StatementKind::ExpressionStatement(expression) })
    }

    /// The parameters of a function, after its `(`, up to and with the `)`.
    fn parse_parameters(&mut self) -> (r: Result<Vec<Expression>, ParseError>)
        requires
            old(self).wf(),
        ensures
            final(self).wf(),
            same_expressions(r, parameters_spec(old(self)@).0),
            final(self)@ == parameters_spec(old(self)@).1,
            final(self)@.toks.len() <= old(self)@.toks.len(),
            extends(old(self)@.table, final(self)@.table),
    {
        let ghost ps0 = self@;
        let mut params: Vec<Expression> = Vec::new();
        proof {
            lemma_prepend_expressions_empty(parameters_spec(ps0));
        }
        loop
            invariant
                self.wf(),
                self@.toks.len() <= ps0.toks.len(),
                ps0 == old(self)@,
                extends(ps0.table, self@.table),
                parameters_spec(ps0) == prepend_expressions(expressions_view(params@), parameters_spec(self@)),
            decreases self@.toks.len(),
        {
            let ghost cur = self@;
            if self.matches(TokenType::RightParen)? {
                assert(expressions_view(params@) + Seq::<ExpressionV>::empty() =~= expressions_view(params@));
                return Ok(params);
            }
            let param = self.parse_expression()?;
            let is_identifier = match &param.value {
                ExpressionKind::Identifier(_) => true,
                _ => false,
            };
            if !is_identifier {
                return Err(ParseError::NotIdentifier { line: param.position.line, column: param.position.column });
            }
            let ghost pv = param@;
            let ghost before = params@;
            params.push(param);
            proof {
                lemma_expressions_view_push(before, param);
            }
            if !self.matches(TokenType::Comma)? {
                self.expect(TokenType::RightParen)?;
                assert(expressions_view(before) + seq![pv] =~= expressions_view(params@));
                return Ok(params);
            }
            proof {
                lemma_prepend_expressions_push(expressions_view(before), pv, parameters_spec(self@));
            }
        }
    }

    /// Statements up to and with the `}` that closes a block.
    fn parse_block(&mut self) -> (r: Result<Vec<Statement>, ParseError>)
        requires
            old(self).wf(),
        ensures
            final(self).wf(),
            same_statements(r, block_spec(old(self)@).0),
            final(self)@ == block_spec(old(self)@).1,
            final(self)@.toks.len() <= old(self)@.toks.len(),
            extends(old(self)@.table, final(self)@.table),
        decreases old(self)@.toks.len(), 5int,
    {
        let ghost ps0 = self@;
        let mut body: Vec<Statement> = Vec::new();
        proof {
            lemma_prepend_statements_empty(block_spec(ps0));
        }
        loop
            invariant
                self.wf(),
                self@.toks.len() <= ps0.toks.len(),
                ps0 == old(self)@,
                extends(ps0.table, self@.table),
                block_spec(ps0) == prepend_statements(statements_view(body@), block_spec(self@)),
            decreases self@.toks.len(),
        {
            if self.matches(TokenType::RightBrace)? {
                assert(statements_view(body@) + Seq::<StatementV>::empty() =~= statements_view(body@));
                return Ok(body);
            }
            let statement = self.parse_statement()?;
            let ghost sv = statement@;
            let ghost before = body@;
            body.push(statement);
            proof {
                lemma_statements_view_push(before, statement);
                lemma_prepend_statements_push(statements_view(before), sv, block_spec(self@));
            }
        }
    }

    /// One statement, chosen by its first token.
    fn parse_statement(&mut self) -> (r: Result<Statement, ParseError>)
        requires
            old(self).wf(),
        ensures
            final(self).wf(),
            same_statement(r, statement_spec(old(self)@).0),
            final(self)@ == statement_spec(old(self)@).1,
            final(self)@.toks.len() <= old(self)@.toks.len(),
            extends(old(self)@.table, final(self)@.table),
            r is Ok ==> final(self)@.toks.len() < old(self)@.toks.len(),
        decreases old(self)@.toks.len(), 4int,
    {
        let typ = match self.peek()? {
            Some(token) => token.typ,
            None => return Err(ParseError::UnexpectedEnd),
        };
        match typ {
            TokenType::Let => self.parse_let_declaration(),
            TokenType::Function => self.parse_function_declaration(),
            TokenType::If => self.parse_if_statement(),
            TokenType::While => self.parse_while_statement(),
            TokenType::For => self.parse_for_statement(),
            TokenType::Continue => self.parse_continue_statement(),
            TokenType::Break => self.parse_break_statement(),
            TokenType::Return => self.parse_return_statement(),
            _ => self.parse_expression_statement(),
        }
    }

    fn parse_function_declaration(&mut self) -> (r: Result<Statement, ParseError>)
        requires
            old(self).wf(),
        ensures
            final(self).wf(),
            same_statement(r, function_spec(old(self)@).0),
            final(self)@ == function_spec(old(self)@).1,
            final(self)@.toks.len() <= old(self)@.toks.len(),
            extends(old(self)@.table, final(self)@.table),
            r is Ok ==> final(self)@.toks.len() < old(self)@.toks.len(),
        decreases old(self)@.toks.len(), 3int,
    {
        let function = self.expect(TokenType::Function)?;
        let ident = self.parse_expression()?;
        let is_identifier = match &ident.value {
            ExpressionKind::Identifier(_) => true,
            _ => false,
        };
        if !is_identifier {
            return Err(ParseError::NotIdentifier { line: ident.position.line, column: ident.position.column });
        }
        self.expect(TokenType::LeftParen)?;
        let params = self.parse_parameters()?;
        self.expect(TokenType::LeftBrace)?;
        let body = self.parse_block()?;
        Ok(Statement {
            position: function.position,
            value: StatementKind::FunctionDeclaration { name: ident, parameters: params, body },
        })
    }

    fn parse_if_statement(&mut self) -> (r: Result<Statement, ParseError>)
        requires
            old(self).wf(),
        ensures
            final(self).wf(),
            same_statement(r, if_spec(old(self)@).0),
            final(self)@ == if_spec(old(self)@).1,
            final(self)@.toks.len() <= old(self)@.toks.len(),
            extends(old(self)@.table, final(self)@.table),
            r is Ok ==> final(self)@.toks.len() < old(self)@.toks.len(),
        decreases old(self)@.toks.len(), 3int,
    {
        let ghost ps = self@;
        let if_ = self.expect(TokenType::If)?;
        let predicate = self.parse_expression()?;
        self.expect(TokenType::LeftBrace)?;
        let then_body = self.parse_block()?;
        let else_body = if self.matches(TokenType::Else)? {
            let ghost ps4 = self@;
            let is_if = match self.peek()? {
                Some(token) => token.typ == TokenType::If,
                None => false,
            };
            if is_if {
                assert(else_spec(ps4, ps) == (match if_spec(ps4).0 {
                    Err(e) => (Err(e), if_spec(ps4).1),
                    Ok(s) => (Ok(seq![s]), if_spec(ps4).1),
                }));
                let nested = self.parse_if_statement()?;
                let mut stmts: Vec<Statement> = Vec::new();
                stmts.push(nested);
                proof {
                    lemma_statements_view_push(Seq::empty(), nested);
                    assert(Seq::<Statement>::empty().push(nested) =~= stmts@);
                    assert(Seq::<StatementV>::empty().push(nested@) =~= seq![nested@]);
                    assert(statements_view(Seq::<Statement>::empty()) =~= Seq::<StatementV>::empty());
                    assert(statements_view(stmts@) == seq![nested@]);
                }
                Some(stmts)
            } else {
                assert(else_spec(ps4, ps) == else_block_spec(ps4, ps));
                self.expect(TokenType::LeftBrace)?;
                assert(else_block_spec(ps4, ps) == block_spec(self@));
                Some(self.parse_block()?)
            }
        } else {
            None
        };
        Ok(Statement {
            position: if_.position,
            value: StatementKind::IfStatement { predicate, then_body, else_body },
        })
    }

    fn parse_while_statement(&mut self) -> (r: Result<Statement, ParseError>)
        requires
            old(self).wf(),
        ensures
            final(self).wf(),
            same_statement(r, while_spec(old(self)@).0),
            final(self)@ == while_spec(old(self)@).1,
            final(self)@.toks.len() <= old(self)@.toks.len(),
            extends(old(self)@.table, final(self)@.table),
            r is Ok ==> final(self)@.toks.len() < old(self)@.toks.len(),
        decreases old(self)@.toks.len(), 3int,
    {
        let while_ = self.expect(TokenType::While)?;
        let predicate = self.parse_expression()?;
        self.expect(TokenType::LeftBrace)?;
        let body = self.parse_block()?;
        Ok(Statement { position: while_.position, value: StatementKind::WhileStatement { predicate, body } })
    }

    fn parse_for_statement(&mut self) -> (r: Result<Statement, ParseError>)
        requires
            old(self).wf(),
        ensures
            final(self).wf(),
            same_statement(r, for_spec(old(self)@).0),
            final(self)@ == for_spec(old(self)@).1,
            final(self)@.toks.len() <= old(self)@.toks.len(),
            extends(old(self)@.table, final(self)@.table),
            r is Ok ==> final(self)@.toks.len() < old(self)@.toks.len(),
        decreases old(self)@.toks.len(), 3int,
    {
        let for_ = self.expect(TokenType::For)?;
        let initializer = if self.matches(TokenType::Semicolon)? {
            None
        } else {
            Some(Box::new(self.parse_statement()?))
        };
        let predicate = self.parse_optional_expression(TokenType::Semicolon, TokenType::Semicolon)?;
        let increment = self.parse_optional_expression(TokenType::LeftBrace, TokenType::LeftBrace)?;
        let body = self.parse_block()?;
        Ok(Statement {
            position: for_.position,
            value: StatementKind::ForStatement { initializer, predicate, increment, body },
        })
    }

    /// The next statement, with errors as values: nothing at the end of the
    /// input; the lexer's error, without reading it, if the next token is
    /// one; else the statement that the next tokens make, or why they make
    /// none. Where the parser has no answer (see `ParseError::halts`), the
    /// error says so.
    pub fn try_next_statement(&mut self) -> (r: Option<Result<Statement, ParseError>>)
        requires
            old(self).wf(),
        ensures
            final(self).wf(),
            final(self)@ == next_statement_spec(old(self)@).1,
            match (r, next_statement_spec(old(self)@).0) {
                (None, None) => true,
                (Some(x), Some(y)) => same_statement(x, y),
                _ => false,
            },
            extends(old(self)@.table, final(self)@.table),
            r matches Some(Ok(_)) ==> final(self)@.toks.len() < old(self)@.toks.len(),
    {
        match self.peek() {
            Ok(Some(_)) => {},
            Err(e) => return Some(Err(e)),
            Ok(None) => return None,
        }
        Some(self.parse_statement())
    }

    /// The next statement, as `try_next_statement` gives it, with an error
    /// given by its message. Not for inputs on which the parser has no
    /// answer.
    pub fn next_statement(&mut self) -> (r: Option<Result<Statement, String>>)
        requires
            old(self).wf(),
            !(next_statement_spec(old(self)@).0 matches Some(Err(e)) && e.halts()),
        ensures
            final(self).wf(),
            final(self)@ == next_statement_spec(old(self)@).1,
            extends(old(self)@.table, final(self)@.table),
            r matches Some(Ok(_)) ==> final(self)@.toks.len() < old(self)@.toks.len(),
            match (r, next_statement_spec(old(self)@).0) {
                (None, None) => true,
                (Some(Ok(s)), Some(Ok(v))) => s@ == v,
                (Some(Err(m)), Some(Err(e))) => m@ == parse_error_message(e),
                _ => false,
            },
    {
        match self.try_next_statement() {
            None => None,
            Some(Ok(s)) => Some(Ok(s)),
            Some(Err(e)) => Some(Err(e.message())),
        }
    }
}

} // verus!
