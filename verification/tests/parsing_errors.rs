use lib::agent::Agent;
use lib::ast::{Expression, ExpressionKind, Statement, StatementKind};
use lib::lexer::{LexError, Lexer};
use lib::parser::{ParseError, Parser};
use lib::token::{Position, TokenType};

fn first(input: &str) -> Option<Result<Statement, ParseError>> {
    let mut agent = Agent::new();
    let mut parser = Parser::new(&mut agent, Lexer::new(input));
    parser.try_next_statement()
}

fn first_message(input: &str) -> Option<Result<Statement, String>> {
    let mut agent = Agent::new();
    let mut parser = Parser::new(&mut agent, Lexer::new(input));
    parser.next_statement()
}

#[test]
fn parse_function_name_must_be_identifier() {
    assert_eq!(first_message("function 1() {}"), Some(Err("Expected identifier at 1:10".to_string())));
    assert_eq!(first_message("function f(a, 2) {}"), Some(Err("Expected identifier at 1:15".to_string())));
}

#[test]
fn parse_unexpected_token_message() {
    assert_eq!(first_message("\n\n   x y;"), Some(Err("Expected Semicolon, got Identifier at 3:6".to_string())));
    assert_eq!(
        first(" while 1 ) {}"),
        Some(Err(ParseError::Unexpected { expected: TokenType::LeftBrace, found: TokenType::RightParen, line: 1, column: 10 }))
    );
    assert_eq!(first("let"), Some(Err(ParseError::EndOfInput { expected: TokenType::Identifier })));
}

#[test]
fn parse_lex_error_is_reported_again() {
    let mut agent = Agent::new();
    let mut parser = Parser::new(&mut agent, Lexer::new("@"));
    assert_eq!(parser.next_statement(), Some(Err("Unexpected character '@'".to_string())));
    assert_eq!(parser.next_statement(), Some(Err("Unexpected character '@'".to_string())));
    assert_eq!(parser.try_next_statement(), Some(Err(ParseError::Lex(LexError::UnexpectedCharacter('@')))));
}

#[test]
fn parse_end_of_input() {
    let mut agent = Agent::new();
    let mut parser = Parser::new(&mut agent, Lexer::new("  # nothing\n"));
    assert_eq!(parser.next_statement(), None);
    assert_eq!(parser.next_statement(), None);
}

#[test]
fn parse_halting_inputs_are_told_apart() {
    assert_eq!(first("return \"x\";"), Some(Err(ParseError::Unsupported { found: TokenType::String, line: 1, column: 8 })));
    assert_eq!(first("function f() {"), Some(Err(ParseError::UnexpectedEnd)));
    assert_eq!(first("99999999999999999999;"), Some(Err(ParseError::BadInteger { line: 1, column: 1 })));
    assert_eq!(first("#c\n 1.5;"), Some(Err(ParseError::BadDouble { line: 1, column: 2 })));
    assert!(ParseError::UnexpectedEnd.is_halt());
    assert!(!ParseError::EndOfInput { expected: TokenType::Comma }.is_halt());
    assert_eq!(ParseError::Unsupported { found: TokenType::Plus, line: 1, column: 1 }.message(), "not implemented");
}

#[test]
fn parse_integer_limits() {
    let stmt = first("9223372036854775807;").unwrap().unwrap();
    assert_eq!(
        stmt,
        Statement {
            position: Position { line: 1, column: 1 },
            value: StatementKind::ExpressionStatement(Expression {
                position: Position { line: 1, column: 1 },
                value: ExpressionKind::Integer(9223372036854775807),
            }),
        }
    );
    assert_eq!(first("9223372036854775808;"), Some(Err(ParseError::BadInteger { line: 1, column: 1 })));
}

#[test]
fn parse_identifiers_are_interned_in_order() {
    let mut agent = Agent::new();
    let mut parser = Parser::new(&mut agent, Lexer::new("let b = a; let a = b;"));
    let s1 = parser.next_statement().unwrap().unwrap();
    let s2 = parser.next_statement().unwrap().unwrap();
    assert_eq!(parser.next_statement(), None);
    match (s1.value, s2.value) {
        (
            StatementKind::LetDeclaration { name: n1, value: Some(v1) },
            StatementKind::LetDeclaration { name: n2, value: Some(v2) },
        ) => {
            assert_eq!(n1.value, ExpressionKind::Identifier(0));
            assert_eq!(v1.value, ExpressionKind::Identifier(1));
            assert_eq!(n2.value, ExpressionKind::Identifier(1));
            assert_eq!(v2.value, ExpressionKind::Identifier(0));
        },
        other => panic!("unexpected: {:?}", other),
    }
    assert_eq!(agent.string_table, vec!["b".to_string(), "a".to_string()]);
}

#[test]
fn parse_error_messages_hold_numbers() {
    assert_eq!(
        ParseError::Unexpected { expected: TokenType::Semicolon, found: TokenType::Integer, line: 1203, column: 0 }.message(),
        "Expected Semicolon, got Integer at 1203:0"
    );
    assert_eq!(ParseError::NotIdentifier { line: 10, column: 99 }.message(), "Expected identifier at 10:99");
}

#[test]
fn parse_stops_where_the_lexer_does() {
    let e = first("\"éé\";").unwrap().unwrap_err();
    assert_eq!(e, ParseError::Lex(LexError::NotCharBoundary(4)));
    assert!(e.is_halt());
}

#[test]
fn parse_nested_statements_sit_at_their_first_token() {
    let s = first("while x {\n  if y { break; }\n  for let i = 0; i; i { z; }\n}").unwrap().unwrap();
    assert_eq!(s.position, Position { line: 1, column: 1 });
    let body = match s.value {
        StatementKind::WhileStatement { body, .. } => body,
        _ => panic!("expected a while statement"),
    };
    assert_eq!(body[0].position, Position { line: 2, column: 3 });
    match &body[0].value {
        StatementKind::IfStatement { then_body, .. } => {
            assert_eq!(then_body[0].position, Position { line: 2, column: 10 });
        }
        _ => panic!("expected an if statement"),
    }
    assert_eq!(body[1].position, Position { line: 3, column: 3 });
    match &body[1].value {
        StatementKind::ForStatement { initializer, body, .. } => {
            assert_eq!(initializer.as_ref().unwrap().position, Position { line: 3, column: 7 });
            assert_eq!(body[0].position, Position { line: 3, column: 25 });
        }
        _ => panic!("expected a for statement"),
    }
}

#[test]
fn parse_double_text_taken_past_a_wide_character() {
    // After `é`, offsets lag one byte behind characters, so the literal
    // `+1.25`'s token is read as the text `+1.2`, which `f64` accepts.
    let mut agent = Agent::new();
    let mut parser = Parser::new(&mut agent, Lexer::new("let é let +1.25;"));
    let mut results = Vec::new();
    for _ in 0..3 {
        results.push(parser.try_next_statement());
    }
    match &results[2] {
        Some(Ok(s)) => match &s.value {
            StatementKind::ExpressionStatement(e) => {
                assert_eq!(e.value, ExpressionKind::Double("+1.2".to_string()));
            }
            _ => panic!("expected an expression statement"),
        },
        r => panic!("unexpected {:?}", r),
    }
}

#[test]
fn statements_and_expressions_clone_to_equal_trees() {
    let s = first("function f(a, b) { let x = a; return 1.5; }").unwrap().unwrap();
    let c = s.clone();
    assert_eq!(c, s);
    if let StatementKind::FunctionDeclaration { name, .. } = &s.value {
        assert_eq!(name.clone(), *name);
    }
}
