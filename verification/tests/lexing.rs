use lib::lexer::{LexError, Lexer};
use lib::token::{Position, Token, TokenType};

fn all(input: &str) -> Vec<Result<Token, String>> {
    let mut lexer = Lexer::new(input);
    let mut v = Vec::new();
    while let Some(r) = lexer.next_token() {
        v.push(r);
    }
    v
}

#[test]
fn lex_second_dot_is_an_error() {
    let r = all("1.2.3");
    assert_eq!(r[0], Err("Unexpected '.'".to_string()));
    assert_eq!(r[1], Ok(Token::new(TokenType::Integer, 1, 5, "3")));
    assert_eq!(r.len(), 2);
}

#[test]
fn lex_escape_errors() {
    assert_eq!(all("\"a\\q\""), vec![Err("unrecognized escape sequence".to_string()), Ok(Token::new(TokenType::String, 1, 5, "\""))]);
    assert_eq!(all("\"a\\"), vec![Err("unterminated escape sequence".to_string())]);
}

#[test]
fn lex_unexpected_character() {
    assert_eq!(
        all("a @ b"),
        vec![
            Ok(Token::new(TokenType::Identifier, 1, 1, "a")),
            Err("Unexpected character '@'".to_string()),
            Ok(Token::new(TokenType::Identifier, 1, 5, "b")),
        ]
    );
}

#[test]
fn lex_error_values() {
    let mut lexer = Lexer::new("$");
    assert_eq!(lexer.lex(), Some(Err(LexError::UnexpectedCharacter('$'))));
    assert_eq!(lexer.lex(), None);
    assert_eq!(LexError::UnexpectedDot.message(), "Unexpected '.'");
}

#[test]
fn lex_unterminated_string_is_a_string() {
    assert_eq!(all("\"abc"), vec![Ok(Token::new(TokenType::String, 1, 1, "\"abc"))]);
}

#[test]
fn lex_end_is_final() {
    let mut lexer = Lexer::new("x  \n ");
    assert_eq!(lexer.next_token(), Some(Ok(Token::new(TokenType::Identifier, 1, 1, "x"))));
    assert_eq!(lexer.next_token(), None);
    assert_eq!(lexer.next_token(), None);
    assert_eq!(lexer.next_token(), None);
}

#[test]
fn lex_lines_and_columns() {
    assert_eq!(
        all("a\n  bb\tc\r\n!="),
        vec![
            Ok(Token::new(TokenType::Identifier, 1, 1, "a")),
            Ok(Token::new(TokenType::Identifier, 2, 3, "bb")),
            Ok(Token::new(TokenType::Identifier, 2, 6, "c")),
            Ok(Token::new(TokenType::BangEqual, 3, 1, "!=")),
        ]
    );
}

#[test]
fn lex_text_without_comments_is_the_source_slice() {
    let input = "  let  x1 = 10.5 ;";
    for tok in all(input) {
        let tok = tok.unwrap();
        let start = tok.position.column - 1;
        assert_eq!(&input[start..start + tok.text.len()], tok.text);
    }
}

#[test]
fn lex_comment_keeps_line_and_moves_column() {
    // A comment runs past its line break; the line count stays, the column
    // goes on, and the next token's text starts one character into the comment.
    assert_eq!(all("#ab\nc"), vec![Ok(Token::new(TokenType::Identifier, 1, 1, "ab\nc"))]);
    assert_eq!(all("x # only a comment"), vec![Ok(Token::new(TokenType::Identifier, 1, 1, "x"))]);
}

#[test]
fn lex_keywords() {
    let kinds: Vec<TokenType> = all("if else break continue returnx")
        .into_iter()
        .map(|t| t.unwrap().typ)
        .collect();
    assert_eq!(
        kinds,
        vec![TokenType::If, TokenType::Else, TokenType::Break, TokenType::Continue, TokenType::Identifier]
    );
}

#[test]
fn token_new_and_names() {
    let t = Token::new(TokenType::StarStar, 4, 9, "**");
    assert_eq!(t.position, Position { line: 4, column: 9 });
    assert_eq!(t.text, "**");
    assert_eq!(TokenType::GreaterThanEqual.name(), "GreaterThanEqual");
    assert_eq!(TokenType::Let.name(), "Let");
}

#[test]
fn lex_text_is_taken_by_byte_offsets() {
    // The lexer counts characters and takes a token's text between those
    // counts used as byte offsets into the input.
    let input = "\"é\" x";
    assert_eq!(
        all(input),
        vec![
            Ok(Token::new(TokenType::String, 1, 1, &input[0..3])),
            Ok(Token::new(TokenType::Identifier, 1, 5, &input[4..5])),
        ]
    );
    assert_eq!(&input[0..3], "\"é");
}

#[test]
fn lex_offset_inside_a_character_stops() {
    let mut lexer = Lexer::new("\"éé\" x");
    let r = lexer.lex();
    assert_eq!(r, Some(Err(LexError::NotCharBoundary(4))));
    let e = LexError::NotCharBoundary(4);
    assert!(e.is_halt());
    assert_eq!(e.message(), "byte index 4 is not a char boundary");
    assert!(!LexError::UnexpectedDot.is_halt());
}

#[test]
fn lex_ends_only_on_blanks_and_comments() {
    let mut lexer = Lexer::new(" \t\r\n# a comment");
    assert_eq!(lexer.next_token(), None);
    let mut lexer = Lexer::new(" \n# a comment\n x");
    assert!(lexer.next_token().is_some());
    let mut lexer = Lexer::new("");
    assert_eq!(lexer.next_token(), None);
    // Never more answers than characters before the end.
    let input = "a b c";
    assert!(all(input).len() <= input.len());
}

#[test]
fn lex_texts_are_the_input_without_blanks() {
    let input = "let x1 = 10.5;\n\twhile (x1 >= 2) {\r\n  x1 = x1 ** 2 != 3;\n}";
    let toks = all(input);
    let mut joined = String::new();
    for tok in &toks {
        let tok = tok.as_ref().unwrap();
        assert!(!tok.text.is_empty());
        assert!(!tok.text.contains(|c: char| c == ' ' || c == '\t' || c == '\r' || c == '\n'));
        joined.push_str(&tok.text);
    }
    let blanks_removed: String = input.chars().filter(|c| !matches!(c, ' ' | '\t' | '\r' | '\n')).collect();
    assert_eq!(joined, blanks_removed);
}

#[test]
fn lex_positions_stay_right_after_an_error() {
    // Errors included, each token sits at the line and column of its first character.
    let mut lexer = Lexer::new("a\n@ b\n  1.2.3 c");
    assert_eq!(lexer.next_token(), Some(Ok(Token::new(TokenType::Identifier, 1, 1, "a"))));
    assert!(matches!(lexer.next_token(), Some(Err(_))));
    assert_eq!(lexer.next_token(), Some(Ok(Token::new(TokenType::Identifier, 2, 3, "b"))));
    assert!(matches!(lexer.next_token(), Some(Err(_))));
    let rest = all_from(&mut lexer);
    assert_eq!(rest.last(), Some(&Ok(Token::new(TokenType::Identifier, 3, 9, "c"))));
}

fn all_from(lexer: &mut Lexer) -> Vec<Result<Token, String>> {
    let mut v = Vec::new();
    while let Some(r) = lexer.next_token() {
        v.push(r);
    }
    v
}

#[test]
fn lex_positions_hold_around_one_line_strings() {
    assert_eq!(
        all("a \"x y\" b\n c"),
        vec![
            Ok(Token::new(TokenType::Identifier, 1, 1, "a")),
            Ok(Token::new(TokenType::String, 1, 3, "\"x y\"")),
            Ok(Token::new(TokenType::Identifier, 1, 9, "b")),
            Ok(Token::new(TokenType::Identifier, 2, 2, "c")),
        ]
    );
}
