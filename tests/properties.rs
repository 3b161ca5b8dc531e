use transient::lexer::{longest_of, Kind, Lexer, Span, Token};
use transient::parser::ast::{Expr, Literal, Stmt};
use transient::parser::{ParseError, Parser, Reason, TokenIter};

fn lex(input: &str) -> Vec<Token> {
    Lexer::new(input).tokenize()
}

fn kinds(input: &str) -> Vec<Kind> {
    lex(input).iter().map(|t| t.kind()).collect()
}

fn parse(input: &str) -> Result<Expr, ParseError> {
    Parser::new(input).expression()
}

fn integer(v: usize) -> Expr {
    Expr::Literal(Literal::Integer(v))
}

fn ident(name: &str) -> Expr {
    Expr::Identifier(name.to_string())
}

fn infix(op: Kind, lhs: Expr, rhs: Expr) -> Expr {
    Expr::InfixOperator {
        op,
        lhs: Box::new(lhs),
        rhs: Box::new(rhs),
    }
}

const SAMPLES: [&str; 7] = [
    "",
    "let x = 5;",
    "{$$$$$$$+",
    "  a\u{00A0}b \u{3000}é == \"q\\\"uote\" // note\n1.5e3",
    "struct Foo<T> {\n    bar: Bar<T>,\n}\n",
    "0123 ١٢ _x_1 //",
    "€€ + ü",
];

#[test]
fn tokens_cover_the_input() {
    for input in SAMPLES {
        let tokens = lex(input);
        let joined: String = tokens.iter().map(|t| t.text(input)).collect();
        assert_eq!(joined, input);
        let last = tokens.last().unwrap();
        assert_eq!(last.kind(), Kind::Eof);
        assert_eq!(last.span(), Span::new(input.len(), input.len()));
        assert_eq!(tokens[0].span().start(), 0);
        for pair in tokens.windows(2) {
            assert_eq!(pair[0].span().end(), pair[1].span().start());
        }
        assert_eq!(
            tokens.iter().filter(|t| t.kind() == Kind::Eof).count(),
            1
        );
    }
}

#[test]
fn every_token_but_the_last_consumes_bytes() {
    for input in SAMPLES {
        let tokens = lex(input);
        for token in &tokens[..tokens.len() - 1] {
            assert!(!token.is_empty());
            assert!(token.len() > 0);
        }
        assert!(tokens.last().unwrap().is_empty());
    }
}

#[test]
fn longest_match_wins() {
    assert_eq!(kinds("=="), vec![Kind::Eqq, Kind::Eof]);
    assert_eq!(kinds("="), vec![Kind::Equals, Kind::Eof]);
    assert_eq!(kinds("!="), vec![Kind::Neq, Kind::Eof]);
    assert_eq!(kinds(">=>"), vec![Kind::Geq, Kind::RAngle, Kind::Eof]);
    assert_eq!(kinds("letter"), vec![Kind::Identifier, Kind::Eof]);
    assert_eq!(kinds("let"), vec![Kind::KeywordLet, Kind::Eof]);
    assert_eq!(kinds("_"), vec![Kind::Underscore, Kind::Eof]);
    assert_eq!(kinds("_a"), vec![Kind::Identifier, Kind::Eof]);
    assert_eq!(kinds("2.4e-2"), vec![Kind::Double, Kind::Eof]);
    assert_eq!(kinds(".5"), vec![Kind::Dot, Kind::Integer, Kind::Eof]);
    assert_eq!(kinds("/"), vec![Kind::Divide, Kind::Eof]);
}

#[test]
fn relexing_the_covered_text_gives_the_same_tokens() {
    for input in SAMPLES {
        let tokens = lex(input);
        let joined: String = tokens.iter().map(|t| t.text(input)).collect();
        assert_eq!(lex(&joined), tokens);
    }
}

#[test]
fn products_bind_tighter_than_sums() {
    assert_eq!(
        parse("1 + 2 * 3").unwrap(),
        infix(Kind::Plus, integer(1), infix(Kind::Times, integer(2), integer(3)))
    );
}

#[test]
fn power_is_right_associative() {
    assert_eq!(
        parse("2 ^ 3 ^ 2").unwrap(),
        infix(Kind::Power, integer(2), infix(Kind::Power, integer(3), integer(2)))
    );
}

#[test]
fn subtraction_is_left_associative() {
    assert_eq!(
        parse("1 - 2 - 3").unwrap(),
        infix(Kind::Minus, infix(Kind::Minus, integer(1), integer(2)), integer(3))
    );
    assert_eq!(
        parse("a || b && c == d < e").unwrap(),
        infix(
            Kind::Or,
            ident("a"),
            infix(
                Kind::And,
                ident("b"),
                infix(Kind::Eqq, ident("c"), infix(Kind::LAngle, ident("d"), ident("e")))
            )
        )
    );
}

#[test]
fn groups_and_prefix_operators() {
    assert_eq!(
        parse("(1 + 2) * 3").unwrap(),
        infix(Kind::Times, infix(Kind::Plus, integer(1), integer(2)), integer(3))
    );
    assert_eq!(
        parse("-1 * 2").unwrap(),
        infix(
            Kind::Times,
            Expr::PrefixOperator {
                op: Kind::Minus,
                expr: Box::new(integer(1))
            },
            integer(2)
        )
    );
}

#[test]
fn postfix_bang_binds_tightest() {
    assert_eq!(
        parse("-n!").unwrap(),
        Expr::PrefixOperator {
            op: Kind::Minus,
            expr: Box::new(Expr::PostfixOperator {
                op: Kind::Bang,
                expr: Box::new(ident("n"))
            })
        }
    );
}

#[test]
fn single_characters_scenario() {
    assert_eq!(
        kinds("+-(.):"),
        vec![
            Kind::Plus,
            Kind::Minus,
            Kind::LParen,
            Kind::Dot,
            Kind::RParen,
            Kind::Colon,
            Kind::Eof
        ]
    );
}

#[test]
fn error_recovery_scenario() {
    let tokens = lex("{$$$$$$$+");
    assert_eq!(
        tokens,
        vec![
            Token::new(Kind::LBrace, Span::new(0, 1)),
            Token::new(Kind::Error, Span::new(1, 8)),
            Token::new(Kind::Plus, Span::new(8, 9)),
            Token::new(Kind::Eof, Span::new(9, 9)),
        ]
    );
    let tokens = lex("$$");
    assert_eq!(
        tokens,
        vec![
            Token::new(Kind::Error, Span::new(0, 2)),
            Token::new(Kind::Eof, Span::new(2, 2)),
        ]
    );
}

#[test]
fn literal_scenarios() {
    assert_eq!(parse("42").unwrap(), integer(42));
    assert_eq!(
        parse("  2.7768  ").unwrap(),
        Expr::Literal(Literal::Double("2.7768".to_string()))
    );
    assert_eq!(
        parse("\"abc\"").unwrap(),
        Expr::Literal(Literal::String("abc".to_string()))
    );
    assert_eq!(
        parse("\"a\\\"b\"").unwrap(),
        Expr::Literal(Literal::String("a\\\"b".to_string()))
    );
    assert_eq!(parse("18446744073709551615").unwrap(), integer(usize::MAX));
}

#[test]
fn function_call_scenario() {
    assert_eq!(
        parse("send(x, 2)").unwrap(),
        Expr::FunctionCall {
            name: "send".to_string(),
            args: vec![ident("x"), integer(2)]
        }
    );
    assert_eq!(
        parse("f()").unwrap(),
        Expr::FunctionCall {
            name: "f".to_string(),
            args: vec![]
        }
    );
    assert_eq!(
        parse("f(1, g(2),)").unwrap(),
        Expr::FunctionCall {
            name: "f".to_string(),
            args: vec![
                integer(1),
                Expr::FunctionCall {
                    name: "g".to_string(),
                    args: vec![integer(2)]
                }
            ]
        }
    );
}

#[test]
fn prefix_operator_scenario() {
    assert_eq!(
        parse("!should_work").unwrap(),
        Expr::PrefixOperator {
            op: Kind::Bang,
            expr: Box::new(ident("should_work"))
        }
    );
}

#[test]
fn parse_errors_name_the_offending_token() {
    let e = parse(")").unwrap_err();
    assert_eq!(e.reason, Reason::UnknownExpressionStart);
    assert_eq!((e.found, e.span), (Kind::RParen, Span::new(0, 1)));

    let e = parse("").unwrap_err();
    assert_eq!(e.reason, Reason::UnknownExpressionStart);
    assert_eq!((e.found, e.span), (Kind::Eof, Span::new(0, 0)));

    let e = parse("1 2").unwrap_err();
    assert_eq!(e.reason, Reason::UnrecognizedOperator);
    assert_eq!((e.found, e.span), (Kind::Integer, Span::new(2, 3)));

    let e = parse("18446744073709551616").unwrap_err();
    assert_eq!(e.reason, Reason::InvalidLiteral);
    assert_eq!((e.found, e.span), (Kind::Integer, Span::new(0, 20)));

    let e = parse("(1 + 2").unwrap_err();
    assert_eq!(e.reason, Reason::Expected(Kind::RParen));
    assert_eq!((e.found, e.span), (Kind::Eof, Span::new(6, 6)));

    let e = parse("f(1").unwrap_err();
    assert_eq!(e.reason, Reason::UnknownExpressionStart);
    assert_eq!(e.found, Kind::Eof);
}

#[test]
fn unicode_digits_match_but_do_not_parse() {
    assert_eq!(kinds("١٢"), vec![Kind::Integer, Kind::Eof]);
    let e = parse("١٢").unwrap_err();
    assert_eq!(e.reason, Reason::InvalidLiteral);
    assert_eq!(e.span, Span::new(0, 4));
}

#[test]
fn whitespace_runs_cover_whole_characters() {
    let tokens = lex("\u{00A0}\u{2003} x");
    assert_eq!(tokens[0], Token::new(Kind::Whitespace, Span::new(0, 6)));
    assert_eq!(tokens[1], Token::new(Kind::Identifier, Span::new(6, 7)));
}

#[test]
fn comments_include_their_newline() {
    let input = "// hi\nx";
    let tokens = lex(input);
    assert_eq!(tokens[0], Token::new(Kind::Comment, Span::new(0, 6)));
    assert_eq!(tokens[0].text(input), "// hi\n");
    assert_eq!(kinds("// hi"), vec![
        Kind::Divide,
        Kind::Divide,
        Kind::Whitespace,
        Kind::Identifier,
        Kind::Eof
    ]);
}

#[test]
fn integers_and_strings_follow_their_patterns() {
    let input = "0123 \"a\\\"b\" \"open";
    let tokens = lex(input);
    assert_eq!(tokens[0], Token::new(Kind::Integer, Span::new(0, 1)));
    assert_eq!(tokens[1], Token::new(Kind::Integer, Span::new(1, 4)));
    assert_eq!(tokens[3], Token::new(Kind::String, Span::new(5, 11)));
    assert_eq!(tokens[5].kind(), Kind::Error);
    assert_eq!(tokens[5].text(input), "\"");
}

#[test]
fn lexer_stops_after_the_end_token() {
    let mut lexer = Lexer::new("a");
    assert_eq!(lexer.next(), Some(Token::new(Kind::Identifier, Span::new(0, 1))));
    assert_eq!(lexer.next(), Some(Token::new(Kind::Eof, Span::new(1, 1))));
    assert_eq!(lexer.next(), None);
    assert_eq!(lexer.next(), None);
    assert_eq!(lexer.tokenize(), vec![]);
}

#[test]
fn next_token_scans_the_remaining_input() {
    let mut lexer = Lexer::new("ab+");
    let token = lexer.next_token("ab+");
    assert_eq!(token, Token::new(Kind::Identifier, Span::new(0, 2)));
    let token = lexer.next_token("+");
    assert_eq!(token, Token::new(Kind::Plus, Span::new(2, 3)));
    assert_eq!(lexer.next(), Some(Token::new(Kind::Eof, Span::new(3, 3))));
}

#[test]
fn token_filter_skips_whitespace_and_comments() {
    let mut iter = TokenIter::new(" a // c\n b ");
    assert_eq!(iter.next(), Some(Token::new(Kind::Identifier, Span::new(1, 2))));
    assert_eq!(iter.next(), Some(Token::new(Kind::Identifier, Span::new(9, 10))));
    assert_eq!(iter.next(), Some(Token::new(Kind::Eof, Span::new(11, 11))));
    assert_eq!(iter.next(), None);
}

#[test]
fn parser_primitives() {
    let input = "let x";
    let mut parser = Parser::new(input);
    assert_eq!(parser.peek(), Kind::KeywordLet);
    assert!(parser.compare(Kind::KeywordLet));
    assert!(!parser.compare(Kind::Identifier));
    assert_eq!(parser.skip(Kind::KeywordLet), Ok(()));
    let e = parser.skip(Kind::Equals).unwrap_err();
    assert_eq!(e.reason, Reason::Expected(Kind::Equals));
    assert_eq!((e.found, e.span), (Kind::Identifier, Span::new(4, 5)));
    let token = parser.next().unwrap();
    assert_eq!(parser.text(token), "x");
    assert_eq!(parser.peek(), Kind::Eof);
    assert_eq!(parser.next(), Some(Token::new(Kind::Eof, Span::new(5, 5))));
    assert_eq!(parser.next(), None);
    assert_eq!(parser.peek(), Kind::Eof);
}

#[test]
fn span_and_token_accessors() {
    let span = Span::new(2, 7);
    assert_eq!((span.start(), span.end(), span.len()), (2, 7, 5));
    assert!(!span.is_empty());
    assert!(Span::new(4, 4).is_empty());
    let token = Token::new(Kind::Integer, span);
    assert_eq!(token.kind(), Kind::Integer);
    assert_eq!(token.span(), span);
    assert_eq!(token.len(), 5);
    assert_eq!(token.text("ab12345cd"), "12345");
    assert_eq!(Kind::Whitespace.to_string(), "<WS>");
    assert_eq!(Kind::Eof.to_string(), "<EOF>");
    assert_eq!(Kind::Identifier.to_string(), "Identifier");
}

#[test]
fn statements() {
    let mut parser = Parser::new("let x = 1 + 2;");
    assert_eq!(
        parser.statement().unwrap(),
        Stmt::Let {
            var: "x".to_string(),
            value: Box::new(infix(Kind::Plus, integer(1), integer(2)))
        }
    );
    let mut parser = Parser::new("x = y;");
    assert_eq!(
        parser.statement().unwrap(),
        Stmt::Assignment {
            var: "x".to_string(),
            value: Box::new(ident("y"))
        }
    );
    let mut parser = Parser::new("if (a) { x = 1; } else if (b) { } else { y = 2; }");
    assert_eq!(
        parser.statement().unwrap(),
        Stmt::If {
            cond: Box::new(ident("a")),
            body: vec![Stmt::Assignment {
                var: "x".to_string(),
                value: Box::new(integer(1))
            }],
            else_stmt: Some(Box::new(Stmt::If {
                cond: Box::new(ident("b")),
                body: vec![],
                else_stmt: Some(Box::new(Stmt::Block {
                    stmts: vec![Stmt::Assignment {
                        var: "y".to_string(),
                        value: Box::new(integer(2))
                    }]
                }))
            }))
        }
    );
    assert_eq!(parser.peek(), Kind::Eof);
}

#[test]
fn statement_errors() {
    let e = Parser::new("let 5 = 1;").statement().unwrap_err();
    assert_eq!(e.reason, Reason::Expected(Kind::Identifier));
    assert_eq!((e.found, e.span), (Kind::Integer, Span::new(4, 5)));

    let e = Parser::new("if (x) y = 1;").statement().unwrap_err();
    assert_eq!(e.reason, Reason::ExpectedBlock);
    assert_eq!((e.found, e.span), (Kind::Identifier, Span::new(7, 8)));

    let e = Parser::new("if (x) { } else y = 1;").statement().unwrap_err();
    assert_eq!(e.reason, Reason::ExpectedBlock);

    let e = Parser::new("+ = 1;").statement().unwrap_err();
    assert_eq!(e.reason, Reason::UnknownStatementStart);
    assert_eq!((e.found, e.span), (Kind::Plus, Span::new(0, 1)));

    let e = Parser::new("x = 1").statement().unwrap_err();
    assert_eq!(e.reason, Reason::Expected(Kind::SemiColon));
    assert_eq!(e.found, Kind::Eof);

    let e = Parser::new("{ x = 1;").statement().unwrap_err();
    assert_eq!(e.reason, Reason::UnknownStatementStart);
    assert_eq!(e.found, Kind::Eof);
}

#[test]
fn expressions_render_with_parentheses() {
    assert_eq!(parse("1 + 2 * 3").unwrap().to_string(), "(1 + (2 * 3))");
    assert_eq!(parse("2 ^ 3 ^ 2").unwrap().to_string(), "(2 ^ (3 ^ 2))");
    assert_eq!(parse("send(x, 2)").unwrap().to_string(), "send(x,2,)");
    assert_eq!(parse("-n!").unwrap().to_string(), "(- (n !))");
    assert_eq!(parse("f()").unwrap().to_string(), "f()");
    assert_eq!(parse("a <= \"s\" && 2.5").unwrap().to_string(), "((a <= \"s\") && 2.5)");
}

#[test]
fn literals_render_as_written() {
    assert_eq!(Literal::Integer(0).to_string(), "0");
    assert_eq!(Literal::Integer(1234567890).to_string(), "1234567890");
    assert_eq!(Literal::Integer(usize::MAX).to_string(), usize::MAX.to_string());
    assert_eq!(Literal::Double("2.4e-2".to_string()).to_string(), "2.4e-2");
    assert_eq!(Literal::String("abc".to_string()).to_string(), "\"abc\"");
    assert_eq!(Token::new(Kind::Geq, Span::new(0, 2)).to_string(), ">=");
}

#[test]
fn skip_fails_once_every_token_is_consumed() {
    let mut parser = Parser::new("");
    assert_eq!(parser.skip(Kind::Eof), Ok(()));
    let e = parser.skip(Kind::Eof).unwrap_err();
    assert_eq!(e.reason, Reason::Expected(Kind::Eof));
    assert_eq!((e.found, e.span), (Kind::Eof, Span::new(0, 0)));
    let e = parser.skip(Kind::Plus).unwrap_err();
    assert_eq!(e.reason, Reason::Expected(Kind::Plus));
}

#[test]
fn brackets_name_themselves() {
    assert_eq!(Kind::LSquare.to_string(), "[");
    assert_eq!(Kind::RSquare.to_string(), "]");
}

#[test]
fn longest_of_prefers_length_then_order() {
    assert_eq!(longest_of(&vec![]), None);
    assert_eq!(
        longest_of(&vec![(Kind::Equals, None), (Kind::Bang, None)]),
        None
    );
    assert_eq!(
        longest_of(&vec![
            (Kind::Equals, Some(1)),
            (Kind::Eqq, Some(2)),
            (Kind::Identifier, None)
        ]),
        Some((Kind::Eqq, 2))
    );
    assert_eq!(
        longest_of(&vec![
            (Kind::KeywordLet, Some(3)),
            (Kind::Identifier, Some(3))
        ]),
        Some((Kind::KeywordLet, 3))
    );
    assert_eq!(
        longest_of(&vec![(Kind::Integer, Some(1)), (Kind::Double, Some(3))]),
        Some((Kind::Double, 3))
    );
}

#[test]
fn doubles_follow_the_float_grammar() {
    assert_eq!(
        parse("1.5e+10").unwrap(),
        Expr::Literal(Literal::Double("1.5e+10".to_string()))
    );
    let e = parse("١.٢").unwrap_err();
    assert_eq!(e.reason, Reason::InvalidLiteral);
    assert_eq!(e.found, Kind::Double);
}
