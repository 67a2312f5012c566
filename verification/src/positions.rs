//! Where the parser puts statements: every statement it gives, nested ones
//! included, sits at the first token it was read from.
use vstd::prelude::*;
use crate::ast::{StatementV, StatementKindV};
use crate::lexer::LexError;
use crate::parser::{PState, ParseError, position_of, expect_spec, matches_spec, identifier_spec,
    integer_spec, double_spec, expression_spec, optional_expression_spec, let_spec,
    keyword_statement_spec, return_spec, expression_statement_spec, parameters_spec, block_spec,
    statement_spec, function_spec, else_spec, else_block_spec, if_spec, while_spec, for_spec,
    next_statement_spec};
use crate::token::{TokenType, TokenView};

verus! {

/// `a` is what remains of `b` after some of its first items are read.
pub open spec fn is_suffix(a: Seq<Result<TokenView, LexError>>, b: Seq<Result<TokenView, LexError>>) -> bool {
    &&& a.len() <= b.len()
    &&& forall|i: int| 0 <= i < a.len() ==> #[trigger] a[i] == b[i + (b.len() - a.len())]
}

proof fn lemma_suffix_trans(
    a: Seq<Result<TokenView, LexError>>,
    b: Seq<Result<TokenView, LexError>>,
    c: Seq<Result<TokenView, LexError>>,
)
    requires
        is_suffix(a, b),
        is_suffix(b, c),
    ensures
        is_suffix(a, c),
{
    assert forall|i: int| 0 <= i < a.len() implies #[trigger] a[i] == c[i + (c.len() - a.len())] by {
        assert(a[i] == b[i + (b.len() - a.len())]);
        assert(b[i + (b.len() - a.len())] == c[i + (b.len() - a.len()) + (c.len() - b.len())]);
    }
}

proof fn lemma_expect_suffix(ps: PState, ty: TokenType)
    ensures
        is_suffix(expect_spec(ps, ty).1.toks, ps.toks),
        expect_spec(ps, ty).1.table == ps.table,
        expect_spec(ps, ty).0 is Ok ==> ps.toks.len() > 0 && ps.toks[0] == Ok::<TokenView, LexError>(expect_spec(ps, ty).0->Ok_0),
{
}

proof fn lemma_matches_suffix(ps: PState, ty: TokenType)
    ensures
        is_suffix(matches_spec(ps, ty).1.toks, ps.toks),
        matches_spec(ps, ty).1.table == ps.table,
{
}

pub(crate) proof fn lemma_expression_suffix(ps: PState)
    ensures
        is_suffix(expression_spec(ps).1.toks, ps.toks),
        expression_spec(ps).0 matches Ok(x) ==> ps.toks.len() > 0
            && (ps.toks[0] matches Ok(t) && x.position == position_of(t)),
{
    lemma_expect_suffix(ps, TokenType::Identifier);
    lemma_expect_suffix(ps, TokenType::Integer);
    lemma_expect_suffix(ps, TokenType::Double);
}

pub(crate) proof fn lemma_optional_expression_suffix(ps: PState, stop: TokenType, close: TokenType)
    ensures
        is_suffix(optional_expression_spec(ps, stop, close).1.toks, ps.toks),
{
    let (m, ps1) = matches_spec(ps, stop);
    lemma_matches_suffix(ps, stop);
    if m == Ok::<bool, ParseError>(false) {
        let (r, ps2) = expression_spec(ps1);
        lemma_expression_suffix(ps1);
        lemma_suffix_trans(ps2.toks, ps1.toks, ps.toks);
        if r is Ok {
            lemma_expect_suffix(ps2, close);
            lemma_suffix_trans(expect_spec(ps2, close).1.toks, ps2.toks, ps.toks);
        }
    }
}

pub(crate) proof fn lemma_parameters_suffix(ps: PState)
    ensures
        is_suffix(parameters_spec(ps).1.toks, ps.toks),
    decreases ps.toks.len(),
{
    let (m, ps1) = matches_spec(ps, TokenType::RightParen);
    lemma_matches_suffix(ps, TokenType::RightParen);
    if m == Ok::<bool, ParseError>(false) {
        let (r, ps2) = expression_spec(ps1);
        lemma_expression_suffix(ps1);
        lemma_suffix_trans(ps2.toks, ps1.toks, ps.toks);
        if let Ok(p) = r {
            if p.value is Identifier {
                let (c, ps3) = matches_spec(ps2, TokenType::Comma);
                lemma_matches_suffix(ps2, TokenType::Comma);
                lemma_suffix_trans(ps3.toks, ps2.toks, ps.toks);
                if c == Ok::<bool, ParseError>(false) {
                    lemma_expect_suffix(ps3, TokenType::RightParen);
                    lemma_suffix_trans(expect_spec(ps3, TokenType::RightParen).1.toks, ps3.toks, ps.toks);
                } else if c == Ok::<bool, ParseError>(true) {
                    if ps3.toks.len() < ps.toks.len() {
                        lemma_parameters_suffix(ps3);
                        lemma_suffix_trans(parameters_spec(ps3).1.toks, ps3.toks, ps.toks);
                    }
                }
            }
        }
    }
}

/// Statement `s` is at the first of `toks`, a token.
pub open spec fn starts_at(s: StatementV, toks: Seq<Result<TokenView, LexError>>) -> bool {
    &&& toks.len() > 0
    &&& toks[0] matches Ok(t) && s.position == position_of(t)
}

/// Statement `n` is what the parser gives when it reads from some point of
/// `all` on (with some table of strings), and `n` is at the first token
/// from that point.
pub open spec fn parsed_at(n: StatementV, all: Seq<Result<TokenView, LexError>>) -> bool {
    exists|j: int, table: Seq<Seq<char>>| {
        &&& 0 <= j < all.len()
        &&& #[trigger] statement_spec(PState { toks: all.skip(j), table }).0 == Ok::<StatementV, ParseError>(n)
        &&& starts_at(n, all.skip(j))
    }
}

/// Every statement nested in `s` (in a body, an `else` part or a `for`
/// initializer, at any depth) is read from some point of `all` and sits at
/// the first token from there.
pub open spec fn nested_placed(s: StatementV, all: Seq<Result<TokenView, LexError>>) -> bool
    decreases s, 1int,
{
    match s.value {
        StatementKindV::FunctionDeclaration { body, .. } => all_placed(body, all),
        StatementKindV::IfStatement { then_body, else_body, .. } =>
            all_placed(then_body, all) && match else_body {
                Some(b) => all_placed(b, all),
                None => true,
            },
        StatementKindV::WhileStatement { body, .. } => all_placed(body, all),
        StatementKindV::ForStatement { initializer, body, .. } =>
            (match initializer {
                Some(b) => parsed_at(*b, all) && nested_placed(*b, all),
                None => true,
            }) && all_placed(body, all),
        _ => true,
    }
}

/// Every statement of `v`, and every statement nested in one, is read from
/// some point of `all` and sits at the first token from there.
pub open spec fn all_placed(v: Seq<StatementV>, all: Seq<Result<TokenView, LexError>>) -> bool
    decreases v, 0int,
{
    if v.len() == 0 {
        true
    } else {
        parsed_at(v[0], all) && nested_placed(v[0], all) && all_placed(v.drop_first(), all)
    }
}

proof fn lemma_parsed_here(ps: PState, all: Seq<Result<TokenView, LexError>>, s: StatementV)
    requires
        is_suffix(ps.toks, all),
        statement_spec(ps).0 == Ok::<StatementV, ParseError>(s),
        starts_at(s, ps.toks),
    ensures
        parsed_at(s, all),
{
    let j = all.len() - ps.toks.len();
    assert(all.skip(j) =~= ps.toks);
    assert(PState { toks: all.skip(j), table: ps.table } == ps);
    assert(statement_spec(PState { toks: all.skip(j), table: ps.table }).0 == Ok::<StatementV, ParseError>(s));
}

proof fn lemma_all_placed_cons(s: StatementV, v: Seq<StatementV>, all: Seq<Result<TokenView, LexError>>)
    requires
        parsed_at(s, all),
        nested_placed(s, all),
        all_placed(v, all),
    ensures
        all_placed(seq![s] + v, all),
{
    let w = seq![s] + v;
    assert(w[0] == s);
    assert(w.drop_first() =~= v);
}

/// Statements that hold no other statement.
proof fn lemma_simple_statement(ps: PState, all: Seq<Result<TokenView, LexError>>)
    requires
        is_suffix(ps.toks, all),
    ensures
        ({
            let (r, ps1) = let_spec(ps);
            &&& is_suffix(ps1.toks, ps.toks)
            &&& r matches Ok(s) ==> starts_at(s, ps.toks) && nested_placed(s, all)
            &&& r is Ok ==> ps1.toks.len() < ps.toks.len()
        }),
        ({
            let (r, ps1) = return_spec(ps);
            &&& is_suffix(ps1.toks, ps.toks)
            &&& r matches Ok(s) ==> starts_at(s, ps.toks) && nested_placed(s, all)
            &&& r is Ok ==> ps1.toks.len() < ps.toks.len()
        }),
        ({
            let (r, ps1) = expression_statement_spec(ps);
            &&& is_suffix(ps1.toks, ps.toks)
            &&& r matches Ok(s) ==> starts_at(s, ps.toks) && nested_placed(s, all)
            &&& r is Ok ==> ps1.toks.len() < ps.toks.len()
        }),
        ({
            let (r, ps1) = keyword_statement_spec(ps, TokenType::Continue, StatementKindV::ContinueStatement);
            &&& is_suffix(ps1.toks, ps.toks)
            &&& r matches Ok(s) ==> starts_at(s, ps.toks) && nested_placed(s, all)
            &&& r is Ok ==> ps1.toks.len() < ps.toks.len()
        }),
        ({
            let (r, ps1) = keyword_statement_spec(ps, TokenType::Break, StatementKindV::BreakStatement);
            &&& is_suffix(ps1.toks, ps.toks)
            &&& r matches Ok(s) ==> starts_at(s, ps.toks) && nested_placed(s, all)
            &&& r is Ok ==> ps1.toks.len() < ps.toks.len()
        }),
{
    // let
    let (r0, ps0) = expect_spec(ps, TokenType::Let);
    lemma_expect_suffix(ps, TokenType::Let);
    if r0 is Ok {
        let (r1, ps1) = identifier_spec(ps0);
        lemma_expect_suffix(ps0, TokenType::Identifier);
        lemma_suffix_trans(ps1.toks, ps0.toks, ps.toks);
        if r1 is Ok {
            let (m, ps2) = matches_spec(ps1, TokenType::Equal);
            lemma_matches_suffix(ps1, TokenType::Equal);
            lemma_suffix_trans(ps2.toks, ps1.toks, ps.toks);
            if m == Ok::<bool, ParseError>(true) {
                lemma_expression_suffix(ps2);
                let ps3 = expression_spec(ps2).1;
                lemma_suffix_trans(ps3.toks, ps2.toks, ps.toks);
                lemma_expect_suffix(ps3, TokenType::Semicolon);
                lemma_suffix_trans(expect_spec(ps3, TokenType::Semicolon).1.toks, ps3.toks, ps.toks);
            } else if m == Ok::<bool, ParseError>(false) {
                lemma_expect_suffix(ps2, TokenType::Semicolon);
                lemma_suffix_trans(expect_spec(ps2, TokenType::Semicolon).1.toks, ps2.toks, ps.toks);
            }
        }
    }
    // return
    let (q0, qs0) = expect_spec(ps, TokenType::Return);
    lemma_expect_suffix(ps, TokenType::Return);
    if q0 is Ok {
        lemma_optional_expression_suffix(qs0, TokenType::Semicolon, TokenType::Semicolon);
        lemma_suffix_trans(optional_expression_spec(qs0, TokenType::Semicolon, TokenType::Semicolon).1.toks, qs0.toks, ps.toks);
    }
    // expression statement
    let (x0, xs0) = expression_spec(ps);
    lemma_expression_suffix(ps);
    if x0 is Ok {
        lemma_expect_suffix(xs0, TokenType::Semicolon);
        lemma_suffix_trans(expect_spec(xs0, TokenType::Semicolon).1.toks, xs0.toks, ps.toks);
    }
    // continue, break
    lemma_expect_suffix(ps, TokenType::Continue);
    lemma_expect_suffix(ps, TokenType::Break);
    let c0 = expect_spec(ps, TokenType::Continue).1;
    let b0 = expect_spec(ps, TokenType::Break).1;
    lemma_expect_suffix(c0, TokenType::Semicolon);
    lemma_expect_suffix(b0, TokenType::Semicolon);
    lemma_suffix_trans(expect_spec(c0, TokenType::Semicolon).1.toks, c0.toks, ps.toks);
    lemma_suffix_trans(expect_spec(b0, TokenType::Semicolon).1.toks, b0.toks, ps.toks);
}

pub(crate) proof fn lemma_block(ps: PState, all: Seq<Result<TokenView, LexError>>)
    requires
        is_suffix(ps.toks, all),
    ensures
        is_suffix(block_spec(ps).1.toks, ps.toks),
        block_spec(ps).0 matches Ok(v) ==> all_placed(v, all),
    decreases ps.toks.len(), 5int,
{
    let (m, ps1) = matches_spec(ps, TokenType::RightBrace);
    lemma_matches_suffix(ps, TokenType::RightBrace);
    lemma_suffix_trans(ps1.toks, ps.toks, all);
    if m == Ok::<bool, ParseError>(false) {
        let (r, ps2) = statement_spec(ps1);
        lemma_statement(ps1, all);
        lemma_suffix_trans(ps2.toks, ps1.toks, ps.toks);
        if let Ok(st) = r {
            if ps2.toks.len() < ps.toks.len() {
                lemma_suffix_trans(ps2.toks, ps.toks, all);
                lemma_block(ps2, all);
                lemma_suffix_trans(block_spec(ps2).1.toks, ps2.toks, ps.toks);
                if let Ok(v) = block_spec(ps2).0 {
                    lemma_parsed_here(ps1, all, st);
                    lemma_all_placed_cons(st, v, all);
                }
            }
        }
    }
}

pub(crate) proof fn lemma_statement(ps: PState, all: Seq<Result<TokenView, LexError>>)
    requires
        is_suffix(ps.toks, all),
    ensures
        is_suffix(statement_spec(ps).1.toks, ps.toks),
        statement_spec(ps).0 matches Ok(s) ==> starts_at(s, ps.toks) && nested_placed(s, all),
        statement_spec(ps).0 is Ok ==> statement_spec(ps).1.toks.len() < ps.toks.len(),
    decreases ps.toks.len(), 4int,
{
    lemma_simple_statement(ps, all);
    lemma_function(ps, all);
    lemma_if(ps, all);
    lemma_while(ps, all);
    lemma_for(ps, all);
}

proof fn lemma_function(ps: PState, all: Seq<Result<TokenView, LexError>>)
    requires
        is_suffix(ps.toks, all),
    ensures
        is_suffix(function_spec(ps).1.toks, ps.toks),
        function_spec(ps).0 matches Ok(s) ==> starts_at(s, ps.toks) && nested_placed(s, all),
        function_spec(ps).0 is Ok ==> function_spec(ps).1.toks.len() < ps.toks.len(),
    decreases ps.toks.len(), 3int,
{
    let (r0, ps0) = expect_spec(ps, TokenType::Function);
    lemma_expect_suffix(ps, TokenType::Function);
    if r0 is Ok {
        let (r1, ps1) = expression_spec(ps0);
        lemma_expression_suffix(ps0);
        lemma_suffix_trans(ps1.toks, ps0.toks, ps.toks);
        if let Ok(name) = r1 {
            if name.value is Identifier {
                let (r2, ps2) = expect_spec(ps1, TokenType::LeftParen);
                lemma_expect_suffix(ps1, TokenType::LeftParen);
                lemma_suffix_trans(ps2.toks, ps1.toks, ps.toks);
                if r2 is Ok {
                    let (r3, ps3) = parameters_spec(ps2);
                    lemma_parameters_suffix(ps2);
                    lemma_suffix_trans(ps3.toks, ps2.toks, ps.toks);
                    if r3 is Ok {
                        let (r4, ps4) = expect_spec(ps3, TokenType::LeftBrace);
                        lemma_expect_suffix(ps3, TokenType::LeftBrace);
                        lemma_suffix_trans(ps4.toks, ps3.toks, ps.toks);
                        if r4 is Ok && ps4.toks.len() < ps.toks.len() {
                            lemma_suffix_trans(ps4.toks, ps.toks, all);
                            lemma_block(ps4, all);
                            lemma_suffix_trans(block_spec(ps4).1.toks, ps4.toks, ps.toks);
                        }
                    }
                }
            }
        }
    }
}

proof fn lemma_else_block(ps: PState, outer: PState, all: Seq<Result<TokenView, LexError>>)
    requires
        is_suffix(ps.toks, all),
        ps.toks.len() < outer.toks.len(),
    ensures
        is_suffix(else_block_spec(ps, outer).1.toks, ps.toks),
        else_block_spec(ps, outer).0 matches Ok(v) ==> all_placed(v, all),
    decreases outer.toks.len(), 1int,
{
    let (r, ps1) = expect_spec(ps, TokenType::LeftBrace);
    lemma_expect_suffix(ps, TokenType::LeftBrace);
    if r is Ok && ps1.toks.len() < outer.toks.len() {
        lemma_suffix_trans(ps1.toks, ps.toks, all);
        lemma_block(ps1, all);
        lemma_suffix_trans(block_spec(ps1).1.toks, ps1.toks, ps.toks);
    }
}

proof fn lemma_else(ps: PState, outer: PState, all: Seq<Result<TokenView, LexError>>)
    requires
        is_suffix(ps.toks, all),
        ps.toks.len() < outer.toks.len(),
    ensures
        is_suffix(else_spec(ps, outer).1.toks, ps.toks),
        else_spec(ps, outer).0 matches Ok(v) ==> all_placed(v, all),
    decreases outer.toks.len(), 2int,
{
    lemma_else_block(ps, outer, all);
    if ps.toks.len() > 0 && ps.toks[0] is Ok && ps.toks[0]->Ok_0.typ == TokenType::If
        && ps.toks.len() < outer.toks.len() {
        lemma_if(ps, all);
        if let Ok(st) = if_spec(ps).0 {
            assert(statement_spec(ps) == if_spec(ps));
            lemma_parsed_here(ps, all, st);
            lemma_all_placed_cons(st, Seq::empty(), all);
            assert(seq![st] + Seq::<StatementV>::empty() =~= seq![st]);
        }
    }
}

proof fn lemma_if(ps: PState, all: Seq<Result<TokenView, LexError>>)
    requires
        is_suffix(ps.toks, all),
    ensures
        is_suffix(if_spec(ps).1.toks, ps.toks),
        if_spec(ps).0 matches Ok(s) ==> starts_at(s, ps.toks) && nested_placed(s, all),
        if_spec(ps).0 is Ok ==> if_spec(ps).1.toks.len() < ps.toks.len(),
    decreases ps.toks.len(), 3int,
{
    let (r0, ps0) = expect_spec(ps, TokenType::If);
    lemma_expect_suffix(ps, TokenType::If);
    if r0 is Ok {
        let (r1, ps1) = expression_spec(ps0);
        lemma_expression_suffix(ps0);
        lemma_suffix_trans(ps1.toks, ps0.toks, ps.toks);
        if r1 is Ok {
            let (r2, ps2) = expect_spec(ps1, TokenType::LeftBrace);
            lemma_expect_suffix(ps1, TokenType::LeftBrace);
            lemma_suffix_trans(ps2.toks, ps1.toks, ps.toks);
            if r2 is Ok && ps2.toks.len() < ps.toks.len() {
                lemma_suffix_trans(ps2.toks, ps.toks, all);
                let (r3, ps3) = block_spec(ps2);
                lemma_block(ps2, all);
                lemma_suffix_trans(ps3.toks, ps2.toks, ps.toks);
                if r3 is Ok {
                    let (m, ps4) = matches_spec(ps3, TokenType::Else);
                    lemma_matches_suffix(ps3, TokenType::Else);
                    lemma_suffix_trans(ps4.toks, ps3.toks, ps.toks);
                    if m == Ok::<bool, ParseError>(true) && ps4.toks.len() < ps.toks.len() {
                        lemma_suffix_trans(ps4.toks, ps.toks, all);
                        lemma_else(ps4, ps, all);
                        lemma_suffix_trans(else_spec(ps4, ps).1.toks, ps4.toks, ps.toks);
                    }
                }
            }
        }
    }
}

proof fn lemma_while(ps: PState, all: Seq<Result<TokenView, LexError>>)
    requires
        is_suffix(ps.toks, all),
    ensures
        is_suffix(while_spec(ps).1.toks, ps.toks),
        while_spec(ps).0 matches Ok(s) ==> starts_at(s, ps.toks) && nested_placed(s, all),
        while_spec(ps).0 is Ok ==> while_spec(ps).1.toks.len() < ps.toks.len(),
    decreases ps.toks.len(), 3int,
{
    let (r0, ps0) = expect_spec(ps, TokenType::While);
    lemma_expect_suffix(ps, TokenType::While);
    if r0 is Ok {
        let (r1, ps1) = expression_spec(ps0);
        lemma_expression_suffix(ps0);
        lemma_suffix_trans(ps1.toks, ps0.toks, ps.toks);
        if r1 is Ok {
            let (r2, ps2) = expect_spec(ps1, TokenType::LeftBrace);
            lemma_expect_suffix(ps1, TokenType::LeftBrace);
            lemma_suffix_trans(ps2.toks, ps1.toks, ps.toks);
            if r2 is Ok && ps2.toks.len() < ps.toks.len() {
                lemma_suffix_trans(ps2.toks, ps.toks, all);
                lemma_block(ps2, all);
                lemma_suffix_trans(block_spec(ps2).1.toks, ps2.toks, ps.toks);
            }
        }
    }
}

proof fn lemma_for(ps: PState, all: Seq<Result<TokenView, LexError>>)
    requires
        is_suffix(ps.toks, all),
    ensures
        is_suffix(for_spec(ps).1.toks, ps.toks),
        for_spec(ps).0 matches Ok(s) ==> starts_at(s, ps.toks) && nested_placed(s, all),
        for_spec(ps).0 is Ok ==> for_spec(ps).1.toks.len() < ps.toks.len(),
    decreases ps.toks.len(), 3int,
{
    let (r0, ps0) = expect_spec(ps, TokenType::For);
    lemma_expect_suffix(ps, TokenType::For);
    if r0 is Ok {
        let (m, ps1) = matches_spec(ps0, TokenType::Semicolon);
        lemma_matches_suffix(ps0, TokenType::Semicolon);
        lemma_suffix_trans(ps1.toks, ps0.toks, ps.toks);
        if m is Ok && ps1.toks.len() < ps.toks.len() {
            lemma_suffix_trans(ps1.toks, ps.toks, all);
            let no_init = m->Ok_0;
            let ps2 = if no_init { ps1 } else { statement_spec(ps1).1 };
            if !no_init {
                lemma_statement(ps1, all);
                if let Ok(st) = statement_spec(ps1).0 {
                    lemma_parsed_here(ps1, all, st);
                }
            }
            lemma_suffix_trans(ps2.toks, ps1.toks, ps.toks);
            let (rp, ps3) = optional_expression_spec(ps2, TokenType::Semicolon, TokenType::Semicolon);
            lemma_optional_expression_suffix(ps2, TokenType::Semicolon, TokenType::Semicolon);
            lemma_suffix_trans(ps3.toks, ps2.toks, ps.toks);
            let (rn, ps4) = optional_expression_spec(ps3, TokenType::LeftBrace, TokenType::LeftBrace);
            lemma_optional_expression_suffix(ps3, TokenType::LeftBrace, TokenType::LeftBrace);
            lemma_suffix_trans(ps4.toks, ps3.toks, ps.toks);
            if ps4.toks.len() < ps.toks.len() {
                lemma_suffix_trans(ps4.toks, ps.toks, all);
                lemma_block(ps4, all);
                lemma_suffix_trans(block_spec(ps4).1.toks, ps4.toks, ps.toks);
            }
        }
    }
}

/// Every statement the parser gives, and every statement nested in it at
/// any depth, sits at the first token it was read from: the keyword of the
/// statement, or for an expression statement the first token of the
/// expression. Each nested statement is what the parser gives when it reads
/// from some later point of the same tokens.
pub proof fn lemma_statement_positions(ps: PState)
    ensures
        next_statement_spec(ps).0 matches Some(Ok(s)) ==> {
            &&& starts_at(s, ps.toks)
            &&& nested_placed(s, ps.toks)
        },
{
    assert forall|i: int| 0 <= i < ps.toks.len() implies #[trigger] ps.toks[i] == ps.toks[i + (ps.toks.len() - ps.toks.len())] by {}
    lemma_statement(ps, ps.toks);
}

} // verus!
