use lib::agent::Agent;
use lib::ast::{Expression, ExpressionKind, Statement, StatementKind};
use lib::lexer::Lexer;
use lib::parser::Parser;
use lib::token::Position;

fn statements(mut parser: Parser) -> Vec<Result<Statement, String>> {
    let mut v = Vec::new();
    while let Some(r) = parser.next_statement() {
        v.push(r);
    }
    v
}

fn ok_statements(parser: Parser) -> Vec<Statement> {
    statements(parser).into_iter().filter_map(|s| s.ok()).collect()
}

fn single_expression(mut agent: Agent, input: &str) -> Vec<Result<Statement, String>> {
    let lexer = Lexer::new(input);
    let parser = Parser::new(&mut agent, lexer);
    statements(parser)
}

    #[test]
    fn test_let_declaration() {
        let mut agent = Agent::new();
        let name = agent.intern_string("something");
        let someident = agent.intern_string("someident");
        let input = "let something = someident;";
        let lexer = Lexer::new(input);
        let parser = Parser::new(&mut agent, lexer);

        assert_eq!(
            ok_statements(parser),
            vec![Statement {
                position: Position { line: 1, column: 1 },
                value: StatementKind::LetDeclaration {
                    name: Expression {
                        position: Position { line: 1, column: 5 },
                        value: ExpressionKind::Identifier(name),
                    },
                    value: Some(Expression {
                        position: Position {
                            line: 1,
                            column: 17
                        },
                        value: ExpressionKind::Identifier(someident),
                    }),
                },
            },],
        );
    }

    #[test]
    fn test_function_declaration() {
        let mut agent = Agent::new();
        let name = agent.intern_string("test");
        let ident_a = agent.intern_string("a");
        let ident_b = agent.intern_string("b");
        let ident_c = agent.intern_string("c");
        let ident_hello = agent.intern_string("hello");

        let input = "
function test(a, b, c) {
    let hello = b;
}
";
        let lexer = Lexer::new(input);
        let parser = Parser::new(&mut agent, lexer);

        assert_eq!(
            ok_statements(parser),
            vec![Statement {
                position: Position { line: 2, column: 1 },
                value: StatementKind::FunctionDeclaration {
                    name: Expression {
                        position: Position {
                            line: 2,
                            column: 10
                        },
                        value: ExpressionKind::Identifier(name),
                    },
                    parameters: vec![
                        Expression {
                            position: Position {
                                line: 2,
                                column: 15
                            },
                            value: ExpressionKind::Identifier(ident_a),
                        },
                        Expression {
                            position: Position {
                                line: 2,
                                column: 18
                            },
                            value: ExpressionKind::Identifier(ident_b),
                        },
                        Expression {
                            position: Position {
                                line: 2,
                                column: 21
                            },
                            value: ExpressionKind::Identifier(ident_c),
                        },
                    ],
                    body: vec![Statement {
                        position: Position { line: 3, column: 5 },
                        value: StatementKind::LetDeclaration {
                            name: Expression {
                                position: Position { line: 3, column: 9 },
                                value: ExpressionKind::Identifier(ident_hello),
                            },
                            value: Some(Expression {
                                position: Position {
                                    line: 3,
                                    column: 17
                                },
                                value: ExpressionKind::Identifier(ident_b),
                            }),
                        },
                    },],
                },
            },],
        );
    }

    #[test]
    fn test_parameter_list_trailing_comma() {
        let mut agent = Agent::new();
        let input = "
function test(
    this,
    func,
    has,
    many,
    parameters,
) {}
";
        let ident_test = agent.intern_string("test");
        let ident_this = agent.intern_string("this");
        let ident_func = agent.intern_string("func");
        let ident_has = agent.intern_string("has");
        let ident_many = agent.intern_string("many");
        let ident_parameters = agent.intern_string("parameters");
        let lexer = Lexer::new(input);
        let parser = Parser::new(&mut agent, lexer);

        assert_eq!(
            statements(parser),
            vec![Ok(Statement {
                position: Position { line: 2, column: 1 },
                value: StatementKind::FunctionDeclaration {
                    name: Expression {
                        position: Position {
                            line: 2,
                            column: 10
                        },
                        value: ExpressionKind::Identifier(ident_test),
                    },
                    parameters: vec![
                        Expression {
                            position: Position { line: 3, column: 5 },
                            value: ExpressionKind::Identifier(ident_this),
                        },
                        Expression {
                            position: Position { line: 4, column: 5 },
                            value: ExpressionKind::Identifier(ident_func),
                        },
                        Expression {
                            position: Position { line: 5, column: 5 },
                            value: ExpressionKind::Identifier(ident_has),
                        },
                        Expression {
                            position: Position { line: 6, column: 5 },
                            value: ExpressionKind::Identifier(ident_many),
                        },
                        Expression {
                            position: Position { line: 7, column: 5 },
                            value: ExpressionKind::Identifier(ident_parameters),
                        },
                    ],
                    body: Vec::new(),
                },
            }),],
        );
    }

    #[test]
    fn test_missing_semicolon() {
        let mut agent = Agent::new();
        let input = "let something = someident";
        let lexer = Lexer::new(input);
        let parser = Parser::new(&mut agent, lexer);

        assert_eq!(
            statements(parser),
            vec![Err("Expected Semicolon, found end of input".to_string()),],
        );
    }

    #[test]
    fn test_keyword_as_identifier() {
        let mut agent = Agent::new();
        let input = "let while = ok;";
        let lexer = Lexer::new(input);
        let mut parser = Parser::new(&mut agent, lexer);

        assert_eq!(
            parser.next_statement().unwrap(),
            Err("Expected Identifier, got While at 1:5".to_string()),
        );
    }

    #[test]
    fn test_if_statement() {
        let mut agent = Agent::new();
        let input = "
if truee {
    let test;
}
";
        let ident_true = agent.intern_string("truee");
        let ident_test = agent.intern_string("test");
        let lexer = Lexer::new(input);
        let parser = Parser::new(&mut agent, lexer);

        assert_eq!(
            statements(parser),
            vec![Ok(Statement {
                position: Position { line: 2, column: 1 },
                value: StatementKind::IfStatement {
                    predicate: Expression {
                        position: Position { line: 2, column: 4 },
                        value: ExpressionKind::Identifier(ident_true),
                    },
                    then_body: vec![Statement {
                        position: Position { line: 3, column: 5 },
                        value: StatementKind::LetDeclaration {
                            name: Expression {
                                position: Position { line: 3, column: 9 },
                                value: ExpressionKind::Identifier(ident_test),
                            },
                            value: None,
                        },
                    },],
                    else_body: None,
                },
            },)],
        );
    }

    #[test]
    fn test_if_else_statement() {
        let mut agent = Agent::new();
        let input = "
if truee {
    let test;
} else {
    function test() {}
}
";
        let ident_true = agent.intern_string("truee");
        let ident_test = agent.intern_string("test");
        let lexer = Lexer::new(input);
        let parser = Parser::new(&mut agent, lexer);

        assert_eq!(
            statements(parser),
            vec![Ok(Statement {
                position: Position { line: 2, column: 1 },
                value: StatementKind::IfStatement {
                    predicate: Expression {
                        position: Position { line: 2, column: 4 },
                        value: ExpressionKind::Identifier(ident_true),
                    },
                    then_body: vec![Statement {
                        position: Position { line: 3, column: 5 },
                        value: StatementKind::LetDeclaration {
                            name: Expression {
                                position: Position { line: 3, column: 9 },
                                value: ExpressionKind::Identifier(ident_test),
                            },
                            value: None,
                        },
                    },],
                    else_body: Some(vec![Statement {
                        position: Position { line: 5, column: 5 },
                        value: StatementKind::FunctionDeclaration {
                            name: Expression {
                                position: Position {
                                    line: 5,
                                    column: 14
                                },
                                value: ExpressionKind::Identifier(ident_test),
                            },
                            parameters: Vec::new(),
                            body: Vec::new(),
                        },
                    },]),
                },
            },)],
        );
    }

    #[test]
    fn test_if_else_if_statement() {
        let mut agent = Agent::new();
        let input = "
if truee {
    let test;
} else if test {
    function test() {}
} else {}
";
        let ident_true = agent.intern_string("truee");
        let ident_test = agent.intern_string("test");
        let lexer = Lexer::new(input);
        let parser = Parser::new(&mut agent, lexer);

        assert_eq!(
            statements(parser),
            vec![Ok(Statement {
                position: Position { line: 2, column: 1 },
                value: StatementKind::IfStatement {
                    predicate: Expression {
                        position: Position { line: 2, column: 4 },
                        value: ExpressionKind::Identifier(ident_true),
                    },
                    then_body: vec![Statement {
                        position: Position { line: 3, column: 5 },
                        value: StatementKind::LetDeclaration {
                            name: Expression {
                                position: Position { line: 3, column: 9 },
                                value: ExpressionKind::Identifier(ident_test),
                            },
                            value: None,
                        },
                    }],
                    else_body: Some(vec![Statement {
                        position: Position { line: 4, column: 8 },
                        value: StatementKind::IfStatement {
                            predicate: Expression {
                                position: Position {
                                    line: 4,
                                    column: 11
                                },
                                value: ExpressionKind::Identifier(ident_test),
                            },
                            then_body: vec![Statement {
                                position: Position { line: 5, column: 5 },
                                value: StatementKind::FunctionDeclaration {
                                    name: Expression {
                                        position: Position {
                                            line: 5,
                                            column: 14
                                        },
                                        value: ExpressionKind::Identifier(ident_test),
                                    },
                                    parameters: Vec::new(),
                                    body: Vec::new(),
                                },
                            }],
                            else_body: Some(Vec::new()),
                        },
                    }]),
                },
            },)],
        );
    }

    #[test]
    fn test_while_statement() {
        let mut agent = Agent::new();
        let input = "while 1 { if 2 {} }";
        let lexer = Lexer::new(input);
        let parser = Parser::new(&mut agent, lexer);

        assert_eq!(
            statements(parser),
            vec![Ok(Statement {
                position: Position { line: 1, column: 1 },
                value: StatementKind::WhileStatement {
                    predicate: Expression {
                        position: Position { line: 1, column: 7 },
                        value: ExpressionKind::Integer(1),
                    },
                    body: vec![Statement {
                        position: Position {
                            line: 1,
                            column: 11
                        },
                        value: StatementKind::IfStatement {
                            predicate: Expression {
                                position: Position {
                                    line: 1,
                                    column: 14
                                },
                                value: ExpressionKind::Integer(2),
                            },
                            then_body: Vec::new(),
                            else_body: None,
                        },
                    },],
                },
            }),],
        );
    }

    #[test]
    fn test_for_statement() {
        let mut agent = Agent::new();
        let input = "
for ;; {}
for let a;; {}
for ; a; {}
for let a; a; {}
for ;; a {}
for let a;; a {}
for let a; a; a {}
";
        let ident_a = agent.intern_string("a");
        let lexer = Lexer::new(input);
        let parser = Parser::new(&mut agent, lexer);

        assert_eq!(
            statements(parser),
            vec![
                Ok(Statement {
                    position: Position { line: 2, column: 1 },
                    value: StatementKind::ForStatement {
                        initializer: None,
                        predicate: None,
                        increment: None,
                        body: Vec::new(),
                    },
                }),
                Ok(Statement {
                    position: Position { line: 3, column: 1 },
                    value: StatementKind::ForStatement {
                        initializer: Some(Box::new(Statement {
                            position: Position { line: 3, column: 5 },
                            value: StatementKind::LetDeclaration {
                                name: Expression {
                                    position: Position { line: 3, column: 9 },
                                    value: ExpressionKind::Identifier(ident_a),
                                },
                                value: None,
                            },
                        })),
                        predicate: None,
                        increment: None,
                        body: Vec::new(),
                    },
                }),
                Ok(Statement {
                    position: Position { line: 4, column: 1 },
                    value: StatementKind::ForStatement {
                        initializer: None,
                        predicate: Some(Expression {
                            position: Position { line: 4, column: 7 },
                            value: ExpressionKind::Identifier(ident_a),
                        }),
                        increment: None,
                        body: Vec::new(),
                    },
                }),
                Ok(Statement {
                    position: Position { line: 5, column: 1 },
                    value: StatementKind::ForStatement {
                        initializer: Some(Box::new(Statement {
                            position: Position { line: 5, column: 5 },
                            value: StatementKind::LetDeclaration {
                                name: Expression {
                                    position: Position { line: 5, column: 9 },
                                    value: ExpressionKind::Identifier(ident_a),
                                },
                                value: None,
                            },
                        })),
                        predicate: Some(Expression {
                            position: Position {
                                line: 5,
                                column: 12
                            },
                            value: ExpressionKind::Identifier(ident_a),
                        }),
                        increment: None,
                        body: Vec::new(),
                    },
                }),
                Ok(Statement {
                    position: Position { line: 6, column: 1 },
                    value: StatementKind::ForStatement {
                        initializer: None,
                        predicate: None,
                        increment: Some(Expression {
                            position: Position { line: 6, column: 8 },
                            value: ExpressionKind::Identifier(ident_a),
                        }),
                        body: Vec::new(),
                    },
                }),
                Ok(Statement {
                    position: Position { line: 7, column: 1 },
                    value: StatementKind::ForStatement {
                        initializer: Some(Box::new(Statement {
                            position: Position { line: 7, column: 5 },
                            value: StatementKind::LetDeclaration {
                                name: Expression {
                                    position: Position { line: 7, column: 9 },
                                    value: ExpressionKind::Identifier(ident_a),
                                },
                                value: None,
                            },
                        })),
                        predicate: None,
                        increment: Some(Expression {
                            position: Position {
                                line: 7,
                                column: 13
                            },
                            value: ExpressionKind::Identifier(ident_a),
                        }),
                        body: Vec::new(),
                    },
                }),
                Ok(Statement {
                    position: Position { line: 8, column: 1 },
                    value: StatementKind::ForStatement {
                        initializer: Some(Box::new(Statement {
                            position: Position { line: 8, column: 5 },
                            value: StatementKind::LetDeclaration {
                                name: Expression {
                                    position: Position { line: 8, column: 9 },
                                    value: ExpressionKind::Identifier(ident_a),
                                },
                                value: None,
                            },
                        })),
                        predicate: Some(Expression {
                            position: Position {
                                line: 8,
                                column: 12
                            },
                            value: ExpressionKind::Identifier(ident_a),
                        }),
                        increment: Some(Expression {
                            position: Position {
                                line: 8,
                                column: 15
                            },
                            value: ExpressionKind::Identifier(ident_a),
                        }),
                        body: Vec::new(),
                    },
                }),
            ],
        );
    }

    #[test]
    fn test_continue_statement() {
        let mut agent = Agent::new();
        let input = "continue;";
        let lexer = Lexer::new(input);
        let parser = Parser::new(&mut agent, lexer);

        assert_eq!(
            statements(parser),
            vec![Ok(Statement {
                position: Position { line: 1, column: 1 },
                value: StatementKind::ContinueStatement,
            }),],
        );
    }

    #[test]
    fn test_break_statement() {
        let mut agent = Agent::new();
        let input = "break;";
        let lexer = Lexer::new(input);
        let parser = Parser::new(&mut agent, lexer);

        assert_eq!(
            statements(parser),
            vec![Ok(Statement {
                position: Position { line: 1, column: 1 },
                value: StatementKind::BreakStatement,
            }),],
        );
    }

    #[test]
    fn test_return_statement() {
        let mut agent = Agent::new();
        let input = "
return;
return 1;
";
        let lexer = Lexer::new(input);
        let parser = Parser::new(&mut agent, lexer);

        assert_eq!(
            statements(parser),
            vec![
                Ok(Statement {
                    position: Position { line: 2, column: 1 },
                    value: StatementKind::ReturnStatement(None),
                }),
                Ok(Statement {
                    position: Position { line: 3, column: 1 },
                    value: StatementKind::ReturnStatement(Some(Expression {
                        position: Position { line: 3, column: 8 },
                        value: ExpressionKind::Integer(1),
                    })),
                }),
            ],
        );
    }

    #[test]
    fn test_expression_statement() {
        let mut agent = Agent::new();
        let input = "123;";
        let lexer = Lexer::new(input);
        let parser = Parser::new(&mut agent, lexer);

        assert_eq!(
            statements(parser),
            vec![Ok(Statement {
                position: Position { line: 1, column: 1 },
                value: StatementKind::ExpressionStatement(Expression {
                    position: Position { line: 1, column: 1 },
                    value: ExpressionKind::Integer(123),
                }),
            }),],
        );
    }

#[test]
fn test_identifier_expression() {
    let mut agent = Agent::new();
    let ident_a = agent.intern_string("a");
    assert_eq!(
        single_expression(agent, "a;"),
        vec![Ok(Statement {
            position: Position { line: 1, column: 1 },
            value: StatementKind::ExpressionStatement(Expression {
                position: Position { line: 1, column: 1 },
                value: ExpressionKind::Identifier(ident_a),
            }),
        }),],
    );
}

#[test]
fn test_integer_expression() {
    assert_eq!(
        single_expression(Agent::new(), "123;"),
        vec![Ok(Statement {
            position: Position { line: 1, column: 1 },
            value: StatementKind::ExpressionStatement(Expression {
                position: Position { line: 1, column: 1 },
                value: ExpressionKind::Integer(123),
            }),
        }),],
    );
}

#[test]
fn test_double_expression() {
    let result = single_expression(Agent::new(), "1.23;");
    assert_eq!(result.len(), 1);
    match &result[0] {
        Ok(Statement {
            position: Position { line: 1, column: 1 },
            value: StatementKind::ExpressionStatement(Expression {
                position: Position { line: 1, column: 1 },
                value: ExpressionKind::Double(text),
            }),
        }) => assert_eq!(text.parse::<f64>().unwrap(), 1.23),
        other => panic!("unexpected parse: {:?}", other),
    }
}
