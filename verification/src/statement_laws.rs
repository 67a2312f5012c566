//! What the statements that hold other parts are made of, stated by the
//! tokens they are read from: a `let` holds the expression after its `=`,
//! a function its whole body block, an `if` its whole blocks.
use vstd::prelude::*;
use crate::agent::{intern_table, intern_id};
use crate::ast::{StatementV, StatementKindV, ExpressionV, ExpressionKindV};
use crate::lexer::LexError;
use crate::parser::{PState, ParseError, advance, position_of, expression_spec, let_spec, parameters_spec,
    block_spec, function_spec, if_spec, else_spec, else_block_spec, while_spec, for_spec, return_spec,
    statement_spec, optional_expression_spec, keyword_statement_spec, expression_statement_spec};
use crate::positions::{lemma_expression_suffix, lemma_parameters_suffix, lemma_block, lemma_statement};
use crate::token::{TokenType, TokenView};

verus! {

/// The item at `i` of `toks` is a token of kind `ty`.
pub open spec fn token_is(toks: Seq<Result<TokenView, LexError>>, i: int, ty: TokenType) -> bool {
    0 <= i < toks.len() && (toks[i] matches Ok(t) && t.typ == ty)
}

/// The state after the first `k` items, with the table `table`.
pub open spec fn skip_to(ps: PState, k: int, table: Seq<Seq<char>>) -> PState {
    PState { toks: ps.toks.skip(k), table }
}

/// The identifier expression that the token `n` gives, read with `table`.
pub open spec fn name_of(n: TokenView, table: Seq<Seq<char>>) -> ExpressionV {
    ExpressionV { position: position_of(n), value: ExpressionKindV::Identifier(intern_id(table, n.text)) }
}

/// `let NAME ;` declares `NAME` with no value; `let NAME = EXPR ;` declares
/// it with exactly the expression read after the `=`, whatever its kind; an
/// expression that fails to read is the declaration's error.
pub proof fn lemma_let_declaration(ps: PState)
    requires
        token_is(ps.toks, 0, TokenType::Let),
        token_is(ps.toks, 1, TokenType::Identifier),
    ensures
        ({
            let kw = ps.toks[0]->Ok_0;
            let n = ps.toks[1]->Ok_0;
            let name = name_of(n, ps.table);
            let q = skip_to(ps, 2, intern_table(ps.table, n.text));
            &&& token_is(q.toks, 0, TokenType::Semicolon) ==> let_spec(ps) == (Ok::<StatementV, ParseError>(StatementV {
                    position: position_of(kw),
                    value: StatementKindV::LetDeclaration { name, value: None },
                }), advance(q))
            &&& token_is(q.toks, 0, TokenType::Equal) ==> match expression_spec(advance(q)) {
                (Ok(x), q2) => token_is(q2.toks, 0, TokenType::Semicolon) ==> let_spec(ps) == (Ok::<StatementV, ParseError>(StatementV {
                        position: position_of(kw),
                        value: StatementKindV::LetDeclaration { name, value: Some(x) },
                    }), advance(q2)),
                (Err(e), q2) => let_spec(ps) == (Err::<StatementV, ParseError>(e), q2),
            }
        }),
{
    let n = ps.toks[1]->Ok_0;
    let q = skip_to(ps, 2, intern_table(ps.table, n.text));
    assert(advance(advance(ps)).toks =~= q.toks);
}

/// A function declaration `function NAME ( PARAMETERS ) { ... }` holds the
/// parameters that are read after its `(` and, as its body, every
/// statement of the block after its `{`, in order: the result of reading
/// that whole block. An error in the block is the declaration's error.
pub proof fn lemma_function_declaration(ps: PState)
    requires
        token_is(ps.toks, 0, TokenType::Function),
        token_is(ps.toks, 1, TokenType::Identifier),
        token_is(ps.toks, 2, TokenType::LeftParen),
    ensures
        ({
            let kw = ps.toks[0]->Ok_0;
            let n = ps.toks[1]->Ok_0;
            let name = name_of(n, ps.table);
            let q = skip_to(ps, 3, intern_table(ps.table, n.text));
            match parameters_spec(q) {
                (Ok(parameters), q3) => token_is(q3.toks, 0, TokenType::LeftBrace) ==> function_spec(ps) == match block_spec(advance(q3)) {
                    (Ok(body), q5) => (Ok::<StatementV, ParseError>(StatementV {
                        position: position_of(kw),
                        value: StatementKindV::FunctionDeclaration { name, parameters, body },
                    }), q5),
                    (Err(e), q5) => (Err::<StatementV, ParseError>(e), q5),
                },
                (Err(e), q3) => function_spec(ps) == (Err::<StatementV, ParseError>(e), q3),
            }
        }),
{
    let n = ps.toks[1]->Ok_0;
    let q = skip_to(ps, 3, intern_table(ps.table, n.text));
    assert(advance(PState { toks: advance(advance(ps)).toks, table: intern_table(ps.table, n.text) }).toks =~= q.toks);
    lemma_parameters_suffix(q);
}

/// An `if` holds the predicate read after it and, as its then-part, every
/// statement of the block after the predicate's `{`, in order: the result
/// of reading that whole block. With no `else` after the block the `if` has
/// no else-part and ends there; with `else {` its else-part is every
/// statement of that second block. An error in either block is the `if`'s
/// error.
pub proof fn lemma_if_blocks(ps: PState)
    requires
        token_is(ps.toks, 0, TokenType::If),
    ensures
        ({
            let kw = ps.toks[0]->Ok_0;
            match expression_spec(advance(ps)) {
                (Ok(predicate), q1) => token_is(q1.toks, 0, TokenType::LeftBrace) ==> match block_spec(advance(q1)) {
                    (Ok(then_body), q3) =>
                        ((q3.toks.len() == 0 || (q3.toks[0] matches Ok(t) && t.typ != TokenType::Else))
                            ==> if_spec(ps) == (Ok::<StatementV, ParseError>(StatementV {
                                position: position_of(kw),
                                value: StatementKindV::IfStatement { predicate, then_body, else_body: None },
                            }), q3))
                        && ((token_is(q3.toks, 0, TokenType::Else) && token_is(q3.toks, 1, TokenType::LeftBrace))
                            ==> if_spec(ps) == match block_spec(skip_to(q3, 2, q3.table)) {
                                (Ok(else_body), q5) => (Ok::<StatementV, ParseError>(StatementV {
                                    position: position_of(kw),
                                    value: StatementKindV::IfStatement { predicate, then_body, else_body: Some(else_body) },
                                }), q5),
                                (Err(e), q5) => (Err::<StatementV, ParseError>(e), q5),
                            })
                        && ((token_is(q3.toks, 0, TokenType::Else) && token_is(q3.toks, 1, TokenType::If))
                            ==> if_spec(ps) == match if_spec(advance(q3)) {
                                (Ok(inner), q5) => (Ok::<StatementV, ParseError>(StatementV {
                                    position: position_of(kw),
                                    value: StatementKindV::IfStatement { predicate, then_body, else_body: Some(seq![inner]) },
                                }), q5),
                                (Err(e), q5) => (Err::<StatementV, ParseError>(e), q5),
                            }),
                    (Err(e), q3) => if_spec(ps) == (Err::<StatementV, ParseError>(e), q3),
                },
                (Err(e), q1) => if_spec(ps) == (Err::<StatementV, ParseError>(e), q1),
            }
        }),
{
    let q0 = advance(ps);
    lemma_expression_suffix(q0);
    let (r1, q1) = expression_spec(q0);
    if r1 is Ok && token_is(q1.toks, 0, TokenType::LeftBrace) {
        let q2 = advance(q1);
        assert(q2.toks.len() < ps.toks.len());
        lemma_block(q2, q2.toks);
        let (r3, q3) = block_spec(q2);
        assert(q3.toks.len() <= q2.toks.len());
        if r3 is Ok {
            if token_is(q3.toks, 0, TokenType::Else) && token_is(q3.toks, 1, TokenType::LeftBrace) {
                let q4 = advance(q3);
                assert(q4.toks[0] == q3.toks[1]);
                assert(advance(q4) == skip_to(q3, 2, q3.table)) by {
                    assert(advance(q4).toks =~= skip_to(q3, 2, q3.table).toks);
                }
                assert(else_spec(q4, ps) == else_block_spec(q4, ps));
                assert(else_block_spec(q4, ps) == block_spec(advance(q4)));
            }
            if token_is(q3.toks, 0, TokenType::Else) && token_is(q3.toks, 1, TokenType::If) {
                let q4 = advance(q3);
                assert(q4.toks[0] == q3.toks[1]);
                assert(q4.toks.len() < ps.toks.len());
                let inner = if_spec(q4);
                assert(else_spec(q4, ps) == match inner.0 {
                    Ok(x) => (Ok::<Seq<StatementV>, ParseError>(seq![x]), inner.1),
                    Err(e) => (Err::<Seq<StatementV>, ParseError>(e), inner.1),
                });
            }
        }
    }
}

/// A block is read statement by statement up to its `}`: a `}` first
/// gives no statements; otherwise the block is the statement read first
/// followed by the block read after it, and an error in either is the
/// block's error.
pub proof fn lemma_block_statements(ps: PState)
    ensures
        token_is(ps.toks, 0, TokenType::RightBrace) ==> block_spec(ps) == (Ok::<Seq<StatementV>, ParseError>(Seq::empty()), advance(ps)),
        (ps.toks.len() > 0 && (ps.toks[0] matches Ok(t) && t.typ != TokenType::RightBrace)) ==> block_spec(ps) == match statement_spec(ps) {
            (Ok(first), q) => match block_spec(q) {
                (Ok(rest), q2) => (Ok::<Seq<StatementV>, ParseError>(seq![first] + rest), q2),
                (Err(e), q2) => (Err::<Seq<StatementV>, ParseError>(e), q2),
            },
            (Err(e), q) => (Err::<Seq<StatementV>, ParseError>(e), q),
        },
{
    lemma_statement(ps, ps.toks);
}

/// A `while` holds the predicate read after it and, as its body, every
/// statement of the block after the predicate's `{`, in order.
pub proof fn lemma_while_block(ps: PState)
    requires
        token_is(ps.toks, 0, TokenType::While),
    ensures
        ({
            let kw = ps.toks[0]->Ok_0;
            match expression_spec(advance(ps)) {
                (Ok(predicate), q1) => token_is(q1.toks, 0, TokenType::LeftBrace) ==> while_spec(ps) == match block_spec(advance(q1)) {
                    (Ok(body), q3) => (Ok::<StatementV, ParseError>(StatementV {
                        position: position_of(kw),
                        value: StatementKindV::WhileStatement { predicate, body },
                    }), q3),
                    (Err(e), q3) => (Err::<StatementV, ParseError>(e), q3),
                },
                (Err(e), q1) => while_spec(ps) == (Err::<StatementV, ParseError>(e), q1),
            }
        }),
{
    lemma_expression_suffix(advance(ps));
}

/// `return ;` returns no value; `return EXPR ;` returns exactly the
/// expression read after `return`.
pub proof fn lemma_return_value(ps: PState)
    requires
        token_is(ps.toks, 0, TokenType::Return),
    ensures
        ({
            let kw = ps.toks[0]->Ok_0;
            let q = advance(ps);
            &&& token_is(q.toks, 0, TokenType::Semicolon) ==> return_spec(ps) == (Ok::<StatementV, ParseError>(StatementV {
                    position: position_of(kw),
                    value: StatementKindV::ReturnStatement(None),
                }), advance(q))
            &&& (q.toks.len() > 0 && (q.toks[0] matches Ok(t) && t.typ != TokenType::Semicolon)) ==> match expression_spec(q) {
                (Ok(x), q2) => token_is(q2.toks, 0, TokenType::Semicolon) ==> return_spec(ps) == (Ok::<StatementV, ParseError>(StatementV {
                        position: position_of(kw),
                        value: StatementKindV::ReturnStatement(Some(x)),
                    }), advance(q2)),
                (Err(e), q2) => return_spec(ps) == (Err::<StatementV, ParseError>(e), q2),
            }
        }),
{
}

/// The parts of a `for`, each read after the one before: the initializer
/// (none where a `;` comes first, else the statement read there), the
/// predicate up to its `;` and the increment up to the `{` (each none where
/// it is empty), and, as the body, every statement of the block after the
/// `{`, in order.
pub proof fn lemma_for_parts(ps: PState)
    requires
        token_is(ps.toks, 0, TokenType::For),
    ensures
        ({
            let kw = ps.toks[0]->Ok_0;
            let q1 = advance(ps);
            let (ri, q2) = if token_is(q1.toks, 0, TokenType::Semicolon) {
                (Ok::<Option<Box<StatementV>>, ParseError>(None), advance(q1))
            } else {
                match statement_spec(q1) {
                    (Ok(s), q) => (Ok::<Option<Box<StatementV>>, ParseError>(Some(Box::new(s))), q),
                    (Err(e), q) => (Err::<Option<Box<StatementV>>, ParseError>(e), q),
                }
            };
            let (rp, q3) = optional_expression_spec(q2, TokenType::Semicolon, TokenType::Semicolon);
            let (rn, q4) = optional_expression_spec(q3, TokenType::LeftBrace, TokenType::LeftBrace);
            match (ri, rp, rn) {
                (Ok(initializer), Ok(predicate), Ok(increment)) => for_spec(ps) == match block_spec(q4) {
                    (Ok(body), q5) => (Ok::<StatementV, ParseError>(StatementV {
                        position: position_of(kw),
                        value: StatementKindV::ForStatement { initializer, predicate, increment, body },
                    }), q5),
                    (Err(e), q5) => (Err::<StatementV, ParseError>(e), q5),
                },
                _ => true,
            }
        }),
{
    let q1 = advance(ps);
    if !token_is(q1.toks, 0, TokenType::Semicolon) {
        lemma_statement(q1, q1.toks);
    }
    crate::positions::lemma_optional_expression_suffix(
        if token_is(q1.toks, 0, TokenType::Semicolon) { advance(q1) } else { statement_spec(q1).1 },
        TokenType::Semicolon, TokenType::Semicolon);
    let q2 = if token_is(q1.toks, 0, TokenType::Semicolon) { advance(q1) } else { statement_spec(q1).1 };
    let q3 = optional_expression_spec(q2, TokenType::Semicolon, TokenType::Semicolon).1;
    crate::positions::lemma_optional_expression_suffix(q3, TokenType::LeftBrace, TokenType::LeftBrace);
}

/// A statement is read by its first token: `let`, `function`, `if`,
/// `while`, `for` and `return` each start their own statement; `break ;`
/// and `continue ;` are statements of their own; and a statement that
/// starts with an identifier or a number is the expression read there,
/// followed by its `;`.
pub proof fn lemma_statement_kinds(ps: PState)
    ensures
        token_is(ps.toks, 0, TokenType::Let) ==> statement_spec(ps) == let_spec(ps),
        token_is(ps.toks, 0, TokenType::Function) ==> statement_spec(ps) == function_spec(ps),
        token_is(ps.toks, 0, TokenType::If) ==> statement_spec(ps) == if_spec(ps),
        token_is(ps.toks, 0, TokenType::While) ==> statement_spec(ps) == while_spec(ps),
        token_is(ps.toks, 0, TokenType::For) ==> statement_spec(ps) == for_spec(ps),
        token_is(ps.toks, 0, TokenType::Return) ==> statement_spec(ps) == return_spec(ps),
        token_is(ps.toks, 0, TokenType::Break) && token_is(ps.toks, 1, TokenType::Semicolon) ==> statement_spec(ps)
            == (Ok::<StatementV, ParseError>(StatementV {
                position: position_of(ps.toks[0]->Ok_0),
                value: StatementKindV::BreakStatement,
            }), advance(advance(ps))),
        token_is(ps.toks, 0, TokenType::Continue) && token_is(ps.toks, 1, TokenType::Semicolon) ==> statement_spec(ps)
            == (Ok::<StatementV, ParseError>(StatementV {
                position: position_of(ps.toks[0]->Ok_0),
                value: StatementKindV::ContinueStatement,
            }), advance(advance(ps))),
        (token_is(ps.toks, 0, TokenType::Identifier) || token_is(ps.toks, 0, TokenType::Integer)
            || token_is(ps.toks, 0, TokenType::Double)) ==> match expression_spec(ps) {
            (Ok(x), q) => token_is(q.toks, 0, TokenType::Semicolon) ==> statement_spec(ps)
                == (Ok::<StatementV, ParseError>(StatementV {
                    position: x.position,
                    value: StatementKindV::ExpressionStatement(x),
                }), advance(q)),
            (Err(e), q) => statement_spec(ps) == (Err::<StatementV, ParseError>(e), q),
        },
{
}

/// A parameter list after `(`: a `)` first gives no parameters; an
/// identifier is the first parameter, and after it a `)` ends the list
/// while a `,` is followed by the rest of the list.
pub proof fn lemma_parameter_list(ps: PState)
    ensures
        token_is(ps.toks, 0, TokenType::RightParen) ==> parameters_spec(ps)
            == (Ok::<Seq<ExpressionV>, ParseError>(Seq::empty()), advance(ps)),
        token_is(ps.toks, 0, TokenType::Identifier) ==> ({
            let n = ps.toks[0]->Ok_0;
            let p = name_of(n, ps.table);
            let q = skip_to(ps, 1, intern_table(ps.table, n.text));
            &&& token_is(q.toks, 0, TokenType::RightParen) ==> parameters_spec(ps)
                == (Ok::<Seq<ExpressionV>, ParseError>(seq![p]), advance(q))
            &&& token_is(q.toks, 0, TokenType::Comma) ==> parameters_spec(ps) == match parameters_spec(advance(q)) {
                (Ok(rest), q2) => (Ok::<Seq<ExpressionV>, ParseError>(seq![p] + rest), q2),
                (Err(e), q2) => (Err::<Seq<ExpressionV>, ParseError>(e), q2),
            }
        }),
{
    if token_is(ps.toks, 0, TokenType::Identifier) {
        let n = ps.toks[0]->Ok_0;
        let q = skip_to(ps, 1, intern_table(ps.table, n.text));
        assert(advance(ps).toks =~= q.toks);
    }
}

} // verus!
