use tiny_basic::lexer::{lexer, Reserved, Token};
use tiny_basic::parser::{factor, parse, Factors, ParseError, StatementType};

#[test]
fn goto_works() {
    let lex = lexer("1 goto 1").unwrap();
    let parse = parse(lex);

    if let Ok(line) = parse {
        assert!(line.number.is_some());
        let statement = line.statement;
        assert_eq!(statement.reserved, Reserved::GOTO);

        if let StatementType::Expression(expr) = statement.child {
            assert_eq!(expr.child.len(), 1);

            let term = &expr.child[0];
            assert_eq!(term.op, None);

            assert_eq!(term.child.len(), 1);
            let factor = &term.child[0];

            assert_eq!(factor.op, None);
            assert_eq!(factor.data, Box::new(Factors::Number(1)));
        } else {
            panic!("Wrong Expression type")
        }
    } else {
        panic!("Parse failed")
    }
}

#[test]
fn goto_works_without_line_number() {
    let lex = lexer("goto 1").unwrap();
    let parse = parse(lex);

    if let Ok(line) = parse {
        assert!(line.number.is_none());
        let statement = line.statement;
        assert_eq!(statement.reserved, Reserved::GOTO);

        if let StatementType::Expression(expr) = statement.child {
            assert_eq!(expr.child.len(), 1);

            let term = &expr.child[0];
            assert_eq!(term.op, None);

            assert_eq!(term.child.len(), 1);
            let factor = &term.child[0];

            assert_eq!(factor.op, None);
            assert_eq!(factor.data, Box::new(Factors::Number(1)));
        } else {
            panic!("Wrong Expression type")
        }
    } else {
        panic!("Parse failed")
    }
}

#[test]
fn mut_index_slice() {
    let mut i = 0;
    let mut v = vec![];

    for j in i..100 {
        v.push(j);
        i = j;
    }

    assert!(i == 99);
    assert_eq!(v.len(), 100);
}

#[test]
#[allow(unreachable_code)]
fn zero_loops_slice() {
    let i = vec![0; 2];

    for x in &i[2..] {
        println!("x={:#?}", x);
        panic!("aaaaa");
    }
}

#[test]
fn round_trip_tokens_and_tree() {
    let tokens = lexer("1 goto 1").unwrap();
    assert_eq!(
        tokens,
        vec![
            Token::Number(1),
            Token::Reserved(Reserved::GOTO),
            Token::Number(1)
        ]
    );
    let line = parse(tokens).unwrap();
    assert_eq!(line.number, Some(1));
    let without_number = parse(lexer("goto 1").unwrap()).unwrap();
    assert_eq!(without_number.number, None);
    assert_eq!(line.statement, without_number.statement);
}

#[test]
fn bracketed_factor() {
    let tokens = lexer("(1+2)").unwrap();
    let mut index = 0;
    let mut lookahead = 0;
    let f = factor(&tokens, &mut index, &mut lookahead).unwrap();
    assert_eq!(f.op, None);
    assert_eq!(lookahead, 5);
    assert_eq!(index, 0);
    match *f.data {
        Factors::Expression(e) => {
            assert_eq!(e.child.len(), 2);
            assert_eq!(e.child[0].op, None);
            assert_eq!(e.child[1].op, Some(Token::Plus));
            assert_eq!(e.child[0].child[0].data, Box::new(Factors::Number(1)));
            assert_eq!(e.child[1].child[0].data, Box::new(Factors::Number(2)));
        }
        _ => panic!("not an expression factor"),
    }
}

#[test]
fn unbalanced_bracket_factor() {
    let tokens = lexer("(1+2").unwrap();
    let mut index = 0;
    let mut lookahead = 0;
    assert_eq!(
        factor(&tokens, &mut index, &mut lookahead),
        Err(ParseError::UnbalancedBrackets { at: 0 })
    );
    assert_eq!(lookahead, 0);
    let tokens = lexer("(1+2 3").unwrap();
    assert_eq!(
        factor(&tokens, &mut index, &mut lookahead),
        Err(ParseError::UnbalancedBrackets { at: 0 })
    );
}

#[test]
fn factor_reads_from_index_plus_lookahead() {
    let tokens = lexer("goto 5 x").unwrap();
    let mut index = 1;
    let mut lookahead = 1;
    let f = factor(&tokens, &mut index, &mut lookahead).unwrap();
    assert_eq!(f.data, Box::new(Factors::Var('x')));
    assert_eq!((index, lookahead), (1, 2));
    assert_eq!(
        factor(&tokens, &mut index, &mut lookahead),
        Err(ParseError::UnexpectedEof)
    );
    assert_eq!(lookahead, 2);
}

#[test]
fn factor_rejects_operator() {
    let tokens = vec![Token::Plus];
    let mut index = 0;
    let mut lookahead = 0;
    assert_eq!(
        factor(&tokens, &mut index, &mut lookahead),
        Err(ParseError::InvalidFactor { at: 0 })
    );
}

#[test]
fn parsing_twice_gives_equal_trees() {
    let tokens = lexer("10 goto (a+1)*b-2").unwrap();
    let first = parse(tokens.clone());
    let second = parse(tokens);
    assert!(first.is_ok());
    assert_eq!(first, second);
}

#[test]
fn statement_must_start_with_keyword() {
    assert_eq!(
        parse(lexer("1 + 2").unwrap()),
        Err(ParseError::InvalidStatement { at: 1 })
    );
    assert_eq!(
        parse(lexer("x").unwrap()),
        Err(ParseError::InvalidStatement { at: 0 })
    );
    assert_eq!(
        parse(lexer("1 2 x").unwrap()),
        Err(ParseError::InvalidStatement { at: 1 })
    );
}

#[test]
fn leftover_tokens_are_rejected() {
    assert_eq!(
        parse(lexer("goto 1 2").unwrap()),
        Err(ParseError::TrailingTokens { at: 2 })
    );
    assert_eq!(
        parse(lexer("goto 1 *").unwrap()),
        Err(ParseError::TrailingTokens { at: 2 })
    );
    assert_eq!(
        parse(lexer("5 goto 1 +").unwrap()),
        Err(ParseError::TrailingTokens { at: 3 })
    );
}

#[test]
fn empty_input_is_unexpected_eof() {
    assert_eq!(parse(vec![]), Err(ParseError::UnexpectedEof));
    assert_eq!(parse(vec![Token::Number(3)]), Err(ParseError::UnexpectedEof));
}

#[test]
fn goto_without_target_is_invalid_term() {
    assert_eq!(
        parse(lexer("goto").unwrap()),
        Err(ParseError::InvalidTerm { at: 1 })
    );
    assert_eq!(
        parse(lexer("goto -").unwrap()),
        Err(ParseError::InvalidTerm { at: 1 })
    );
}

#[test]
fn other_keywords_are_unsupported() {
    assert_eq!(
        parse(lexer("print 1").unwrap()),
        Err(ParseError::UnsupportedStatement {
            keyword: Reserved::PRINT,
            at: 0
        })
    );
    assert_eq!(
        parse(lexer("20 end").unwrap()),
        Err(ParseError::UnsupportedStatement {
            keyword: Reserved::END,
            at: 1
        })
    );
}

#[test]
fn products_bind_inside_sums() {
    let line = parse(lexer("goto -1+2*x/3").unwrap()).unwrap();
    let expr = match line.statement.child {
        StatementType::Expression(e) => e,
        _ => panic!("no expression"),
    };
    assert_eq!(expr.child.len(), 2);
    assert_eq!(expr.child[0].op, Some(Token::Minus));
    assert_eq!(expr.child[0].child.len(), 1);
    let product = &expr.child[1];
    assert_eq!(product.op, Some(Token::Plus));
    assert_eq!(product.child.len(), 3);
    assert_eq!(product.child[0].op, None);
    assert_eq!(product.child[1].op, Some(Token::Asterisk));
    assert_eq!(product.child[1].data, Box::new(Factors::Var('x')));
    assert_eq!(product.child[2].op, Some(Token::Slash));
    assert_eq!(product.child[2].data, Box::new(Factors::Number(3)));
}

#[test]
fn nested_brackets() {
    let line = parse(lexer("goto ((7))").unwrap()).unwrap();
    let expr = match line.statement.child {
        StatementType::Expression(e) => e,
        _ => panic!("no expression"),
    };
    let inner = match &*expr.child[0].child[0].data {
        Factors::Expression(e) => e,
        _ => panic!("no bracket"),
    };
    let innermost = match &*inner.child[0].child[0].data {
        Factors::Expression(e) => e,
        _ => panic!("no inner bracket"),
    };
    assert_eq!(innermost.child[0].child[0].data, Box::new(Factors::Number(7)));
    assert_eq!(
        parse(lexer("goto ((7)").unwrap()),
        Err(ParseError::InvalidTerm { at: 1 })
    );
}
