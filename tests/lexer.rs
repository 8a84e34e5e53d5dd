use tiny_basic::lexer::{lexer, LexError, Relop, Reserved, Token};

#[test]
fn single_letters_are_variables() {
    for c in ['a', 'z', 'A', 'Z', 'q'] {
        let text = c.to_string();
        assert_eq!(lexer(&text).unwrap(), vec![Token::Var(c)]);
    }
}

#[test]
fn keywords_in_any_case() {
    for word in ["goto", "GOTO", "GoTo", "gOtO"] {
        assert_eq!(lexer(word).unwrap(), vec![Token::Reserved(Reserved::GOTO)]);
    }
}

#[test]
fn every_keyword_is_recognised() {
    let all = [
        ("end", Reserved::END),
        ("run", Reserved::RUN),
        ("list", Reserved::LIST),
        ("clear", Reserved::CLEAR),
        ("return", Reserved::RETURN),
        ("gosub", Reserved::GOSUB),
        ("let", Reserved::LET),
        ("input", Reserved::INPUT),
        ("goto", Reserved::GOTO),
        ("then", Reserved::THEN),
        ("if", Reserved::IF),
        ("print", Reserved::PRINT),
    ];
    for (word, keyword) in all {
        assert_eq!(lexer(word).unwrap(), vec![Token::Reserved(keyword)]);
    }
}

#[test]
fn numbers_are_single_tokens() {
    for n in [0u32, 7, 42, 1000, 65535, 4294967295] {
        assert_eq!(lexer(&n.to_string()).unwrap(), vec![Token::Number(n)]);
    }
    assert_eq!(lexer("007").unwrap(), vec![Token::Number(7)]);
}

#[test]
fn number_too_large_is_rejected() {
    assert_eq!(lexer("4294967296"), Err(LexError::NumberTooLarge { at: 0 }));
    assert_eq!(lexer("x 99999999999"), Err(LexError::NumberTooLarge { at: 2 }));
}

#[test]
fn relational_operators() {
    assert_eq!(lexer("=").unwrap(), vec![Token::Relop(Relop::Equal)]);
    assert_eq!(lexer("<").unwrap(), vec![Token::Relop(Relop::LessThan)]);
    assert_eq!(lexer(">").unwrap(), vec![Token::Relop(Relop::GreaterThan)]);
    assert_eq!(lexer("<=").unwrap(), vec![Token::Relop(Relop::LessThanOrEqual)]);
    assert_eq!(lexer(">=").unwrap(), vec![Token::Relop(Relop::GreaterThanOrEqual)]);
    assert_eq!(lexer("<>").unwrap(), vec![Token::Relop(Relop::NotEqual)]);
    assert_eq!(lexer("><").unwrap(), vec![Token::Relop(Relop::NotEqual)]);
    assert_eq!(
        lexer("< =").unwrap(),
        vec![Token::Relop(Relop::LessThan), Token::Relop(Relop::Equal)]
    );
    assert_eq!(
        lexer("<1").unwrap(),
        vec![Token::Relop(Relop::LessThan), Token::Number(1)]
    );
}

#[test]
fn brackets_and_arithmetic() {
    assert_eq!(
        lexer("(a+b)*c/d-e").unwrap(),
        vec![
            Token::OpeningBracket('('),
            Token::Var('a'),
            Token::Plus,
            Token::Var('b'),
            Token::ClosingBracket(')'),
            Token::Asterisk,
            Token::Var('c'),
            Token::Slash,
            Token::Var('d'),
            Token::Minus,
            Token::Var('e'),
        ]
    );
}

#[test]
fn string_literals_keep_their_text() {
    assert_eq!(
        lexer("print \"hi there\"").unwrap(),
        vec![
            Token::Reserved(Reserved::PRINT),
            Token::String(String::from("hi there"))
        ]
    );
    assert_eq!(lexer("\"\"").unwrap(), vec![Token::String(String::new())]);
}

#[test]
fn unterminated_string_is_rejected() {
    assert_eq!(lexer("a \"abc"), Err(LexError::UnterminatedString { at: 2 }));
}

#[test]
fn unknown_character_is_rejected() {
    assert_eq!(
        lexer("1 # 2"),
        Err(LexError::UnknownCharacter { found: '#', at: 2 })
    );
}

#[test]
fn unknown_identifier_is_rejected() {
    assert_eq!(
        lexer("goto ab"),
        Err(LexError::UnknownIdentifier { at: 5, len: 2 })
    );
}

#[test]
fn digits_do_not_extend_identifiers() {
    assert_eq!(
        lexer("a1").unwrap(),
        vec![Token::Var('a'), Token::Number(1)]
    );
}

#[test]
fn blanks_separate_tokens() {
    assert_eq!(
        lexer(" 10\tgoto\n20 ").unwrap(),
        vec![
            Token::Number(10),
            Token::Reserved(Reserved::GOTO),
            Token::Number(20)
        ]
    );
    assert_eq!(lexer("").unwrap(), vec![]);
    assert_eq!(lexer(" \t\n").unwrap(), vec![]);
}

#[test]
fn is_number_tells_numbers_apart() {
    assert!(Token::Number(3).is_number());
    assert!(!Token::Var('n').is_number());
    assert!(!Token::Plus.is_number());
}
