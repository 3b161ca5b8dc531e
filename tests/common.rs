use transient::lexer::{Kind, Lexer, Span, Token};
use transient::parser::ast::{Expr, Literal};
use transient::parser::{ParseError, Parser, Reason};

/// Walks `tokens` and compares them to the given token kinds.
fn assert_tokens(tokens: &[Token], kinds: &[Kind]) {
    let mut tokens_iter = tokens.iter();
    for kind in kinds {
        let token = tokens_iter
            .next()
            .expect("should be more tokens in the input stream");
        assert_eq!(token.kind(), *kind);
    }
}

fn expression_parser(input: &str) -> Result<Expr, ParseError> {
    let mut parser = Parser::new(input);
    parser.expression()
}

#[test]
fn token_kind_displays() {
    assert_eq!(Kind::Plus.to_string(), "+");
    assert_eq!(Kind::Leq.to_string(), "<=");
    assert_eq!(Kind::KeywordLet.to_string(), "let");
    assert_eq!(Kind::Error.to_string(), "<?>");
    assert_eq!(Kind::Comment.to_string(), "// Comment");
}

#[test]
fn token_indexing_with_spans() {
    let token = Token::new(Kind::KeywordLet, Span::new(0, 3));

    assert_eq!(token.text("let x = 5;"), "let");
    assert_eq!(token.len(), 3);
}

#[test]
fn single_character_tokens() {
    let input = "+-(.):";
    let mut lexer = Lexer::new(input);
    let tokens = lexer.tokenize();
    assert_tokens(
        &tokens,
        &[
            Kind::Plus,
            Kind::Minus,
            Kind::LParen,
            Kind::Dot,
            Kind::RParen,
            Kind::Colon,
            Kind::Eof,
        ],
    );
}

#[test]
fn unknown_or_unexpected_input() {
    let input = "{$$$$$$$+";
    let mut lexer = Lexer::new(input);
    let tokens = lexer.tokenize();
    assert_tokens(&tokens, &[Kind::LBrace, Kind::Error, Kind::Plus, Kind::Eof]);
}

#[test]
fn token_spans() {
    {
        let input = "+-(.):";
        let mut lexer = Lexer::new(input);
        let tokens = lexer.tokenize();
        let dot = tokens[3];
        assert_eq!(dot.kind(), Kind::Dot);
        assert_eq!(dot.span(), Span::new(3, 4));
    }
    {
        let input = "{$$$$$$$+";
        let mut lexer = Lexer::new(input);
        let tokens = lexer.tokenize();
        let error = tokens[1];
        assert_eq!(error.kind(), Kind::Error);
        assert_eq!(error.span(), Span::new(1, 8));
    }
}

#[test]
fn single_char_tokens_with_whitespace() {
    let input = "    +  - (.):  ";
    let mut lexer = Lexer::new(input);
    let tokens = lexer.tokenize();
    let leading_whitespace = &tokens[0];
    assert_eq!(leading_whitespace.kind(), Kind::Whitespace);
    assert_eq!(leading_whitespace.len(), 4);

    let between_plus_and_minus = &tokens[2];
    assert_eq!(between_plus_and_minus.kind(), Kind::Whitespace);
    assert_eq!(between_plus_and_minus.len(), 2);

    let between_minus_and_left_paren = &tokens[4];
    assert_eq!(between_minus_and_left_paren.kind(), Kind::Whitespace);
    assert_eq!(between_minus_and_left_paren.len(), 1);

    let trailing_whitespace = &tokens[9];
    assert_eq!(trailing_whitespace.kind(), Kind::Whitespace);
    assert_eq!(trailing_whitespace.len(), 2);

    let tokens = tokens
        .into_iter()
        .filter(|t| t.kind() != Kind::Whitespace)
        .collect::<Vec<_>>();

    assert_tokens(
        &tokens,
        &[
            Kind::Plus,
            Kind::Minus,
            Kind::LParen,
            Kind::Dot,
            Kind::RParen,
            Kind::Colon,
            Kind::Eof,
        ],
    );
}

#[test]
fn ambiguous_multi_character_tokens() {
    let input = "&&=<=_!=||";
    let mut lexer = Lexer::new(input);
    let tokens = lexer.tokenize();
    assert_tokens(
        &tokens,
        &[
            Kind::And,
            Kind::Equals,
            Kind::Leq,
            Kind::Underscore,
            Kind::Neq,
            Kind::Or,
            Kind::Eof,
        ],
    );
}

#[test]
fn keyword_tokens() {
    let input = "let fn struct if else";
    let mut lexer = Lexer::new(input);
    let tokens = lexer.tokenize();
    assert_tokens(
        &tokens,
        &[
            Kind::KeywordLet,
            Kind::Whitespace,
            Kind::KeywordFn,
            Kind::Whitespace,
            Kind::KeywordStruct,
            Kind::Whitespace,
            Kind::KeywordIf,
            Kind::Whitespace,
            Kind::KeywordElse,
            Kind::Eof,
        ],
    );

    let tokens = tokens
        .iter()
        .filter(|&t| t.kind() != Kind::Whitespace)
        .copied()
        .collect::<Vec<_>>();
    assert_tokens(
        &tokens,
        &[
            Kind::KeywordLet,
            Kind::KeywordFn,
            Kind::KeywordStruct,
            Kind::KeywordIf,
            Kind::KeywordElse,
            Kind::Eof,
        ],
    )
}

#[test]
fn function_definition() {
    let input = r#"
// Testing a function
fn build_project(repo_name: String, strict: bool) {
    let time = "Date time: \" test" + 3 / 2.4e-2^5;
    let iter = time.chars();
    if let Some(c) = iter.next() {
        time = time + c;
    } else if !strict {
        time = time + ",";
    }
}
"#;
    let mut lexer = Lexer::new(input);
    let tokens = lexer
        .tokenize()
        .into_iter()
        .filter(|t| t.kind() != Kind::Whitespace)
        .collect::<Vec<_>>();

    assert_tokens(
        &tokens,
        &[
            // comment line
            Kind::Comment,
            // function signature
            Kind::KeywordFn, Kind::Identifier, Kind::LParen,
                Kind::Identifier, Kind::Colon, Kind::Identifier, Kind::Comma,
                Kind::Identifier, Kind::Colon, Kind::Identifier,
            Kind::RParen, Kind::LBrace,
                // function body
                // `time` assignment
                Kind::KeywordLet, Kind::Identifier, Kind::Equals, Kind::String, Kind::Plus, Kind::Integer,
                    Kind::Divide, Kind::Double, Kind::Power, Kind::Integer, Kind::SemiColon,
                // `iter` assignment
                Kind::KeywordLet, Kind::Identifier, Kind::Equals, Kind::Identifier, Kind::Dot, Kind::Identifier,
                    Kind::LParen, Kind::RParen, Kind::SemiColon,
                // if let Some ... expr
                Kind::KeywordIf, Kind::KeywordLet, Kind::Identifier, Kind::LParen, Kind::Identifier, Kind::RParen,
                    Kind::Equals, Kind::Identifier, Kind::Dot, Kind::Identifier, Kind::LParen, Kind::RParen,
                Kind::LBrace,
                    // `time` reassignment
                    Kind::Identifier, Kind::Equals, Kind::Identifier, Kind::Plus, Kind::Identifier, Kind::SemiColon,
                // else if
                Kind::RBrace, Kind::KeywordElse, Kind::KeywordIf, Kind::Bang, Kind::Identifier, Kind::LBrace,
                    // `time` re-assignment
                    Kind::Identifier, Kind::Equals, Kind::Identifier, Kind::Plus, Kind::String, Kind::SemiColon,
                Kind::RBrace, // end if
            Kind::RBrace, // end fn
            Kind::Eof, // EOF
        ],
    );
}

#[test]
fn struct_definition() {
    let input = r#"
struct Foo<T> {
    bar: Bar<T>,
}
"#;
    let mut lexer = Lexer::new(input);
    let tokens: Vec<_> = lexer
        .tokenize()
        .into_iter()
        .filter(|t| t.kind() != Kind::Whitespace)
        .collect();

    assert_tokens(
        &tokens,
        &[
            // struct definition with generic type
            Kind::KeywordStruct, Kind::Identifier, Kind::LAngle, Kind::Identifier, Kind::RAngle, Kind::LBrace,
            // struct field with type `Bar<T>`
                Kind::Identifier, Kind::Colon, Kind::Identifier, Kind::LAngle, Kind::Identifier, Kind::RAngle, Kind::Comma,
            Kind::RBrace, // end struct
            Kind::Eof,
        ],
    );
    let bar_property = tokens[6];
    assert_eq!(bar_property.span(), Span::new(21, 24));
    assert_eq!(bar_property.text(input), "bar");

    let foo_struct_def = tokens[1];
    assert_eq!(foo_struct_def.span(), Span::new(8, 11));
    assert_eq!(foo_struct_def.text(input), "Foo");
}

#[test]
fn parse_expressions() {
    let expr = expression_parser("42").unwrap();
    assert_eq!(expr, Expr::Literal(Literal::Integer(42)));
    let expr = expression_parser("  2.7768  ").unwrap();
    assert_eq!(expr, Expr::Literal(Literal::Double("2.7768".to_string())));
    match expr {
        Expr::Literal(Literal::Double(text)) => assert_eq!(text.parse::<f64>().unwrap(), 2.7768),
        _ => unreachable!(),
    }
    let expr = expression_parser("\"this_is_a_string\"").unwrap();
    assert_eq!(
        expr,
        Expr::Literal(Literal::String("this_is_a_string".to_string()))
    );
    let expr = expression_parser(r#""this is 0123456789 also a string""#).unwrap();
    assert_eq!(
        expr,
        Expr::Literal(Literal::String(
            "this is 0123456789 also a string".to_string()
        ))
    );
    let expr = expression_parser("BuildCommand").unwrap();
    assert_eq!(expr, Expr::Identifier("BuildCommand".to_string()));
    let expr = expression_parser("send  (  x, 2) ").unwrap();
    assert_eq!(
        expr,
        Expr::FunctionCall {
            name: "send".to_string(),
            args: vec![
                Expr::Identifier("x".to_string()),
                Expr::Literal(Literal::Integer(2))
            ]
        }
    );
    let expr = expression_parser("!should_work").unwrap();
    assert_eq!(
        expr,
        Expr::PrefixOperator {
            op: Kind::Bang,
            expr: Box::new(Expr::Identifier("should_work".to_string()))
        }
    );
    // A `.` cannot follow an expression: the prefix operator's operand `20`
    // is followed by it, which is a syntax error.
    let error = expression_parser("-20.toString()").unwrap_err();
    assert_eq!(error.reason, Reason::UnrecognizedOperator);
    assert_eq!(error.found, Kind::Dot);
    assert_eq!(error.span, Span::new(3, 4));
}
