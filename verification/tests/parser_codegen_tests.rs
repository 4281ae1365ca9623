use regex::{get_code, is_match, parse, EngineError, Instruction, ParseError};

#[test]
fn test_parse_error_positions() {
    match parse("+b") {
        Err(e) => assert_eq!(e, ParseError::NoPrecedingExpression(0)),
        Ok(_) => panic!("expected a parse error"),
    }
    match parse("a|+b") {
        Err(e) => assert_eq!(e, ParseError::NoPrecedingExpression(2)),
        Ok(_) => panic!("expected a parse error"),
    }
    match parse(")") {
        Err(e) => assert_eq!(e, ParseError::UnmatchedRightParen(0)),
        Ok(_) => panic!("expected a parse error"),
    }
    match parse("(ab") {
        Err(e) => assert_eq!(e, ParseError::UnclosedGroup),
        Ok(_) => panic!("expected a parse error"),
    }
    match parse("") {
        Err(e) => assert_eq!(e, ParseError::EmptyExpression),
        Ok(_) => panic!("expected a parse error"),
    }
    match parse("()") {
        Err(e) => assert_eq!(e, ParseError::EmptyExpression),
        Ok(_) => panic!("expected a parse error"),
    }
    match parse("a\\x") {
        Err(e) => assert_eq!(e, ParseError::InvalidEscape(2, 'x')),
        Ok(_) => panic!("expected a parse error"),
    }
}

#[test]
fn test_error_through_pipeline() {
    match is_match("(", "x", true) {
        Err(EngineError::Parse(e)) => assert_eq!(e, ParseError::UnclosedGroup),
        _ => panic!("expected a parse error"),
    }
}

#[test]
fn test_compiled_star() {
    let ast = parse("a*").unwrap();
    let code = get_code(&ast).unwrap();
    assert_eq!(
        code,
        vec![
            Instruction::Branch(1, 3),
            Instruction::Literal('a'),
            Instruction::Jump(0),
            Instruction::Accept,
        ]
    );
}

#[test]
fn test_compiled_alternation() {
    let ast = parse("ab|c").unwrap();
    let code = get_code(&ast).unwrap();
    assert_eq!(
        code,
        vec![
            Instruction::Branch(1, 4),
            Instruction::Literal('a'),
            Instruction::Literal('b'),
            Instruction::Jump(5),
            Instruction::Literal('c'),
            Instruction::Accept,
        ]
    );
}

#[test]
fn test_double_star_collapses() {
    // `a**` compiles exactly like `a*`
    let single = get_code(&parse("a*").unwrap()).unwrap();
    let double = get_code(&parse("a**").unwrap()).unwrap();
    let grouped = get_code(&parse("(a*)*").unwrap()).unwrap();
    assert_eq!(single, double);
    assert_eq!(single, grouped);
}

#[test]
fn test_programs_well_formed() {
    // the final instruction is Accept and every target is in range
    let patterns = ["a", "abc", "a|b|c", "(ab|cd)+", "a?b*c+", "((((a*)*)*)*)", "a**b"];
    for p in patterns.iter() {
        let ast = parse(p).unwrap();
        let code = get_code(&ast).unwrap();
        assert!(matches!(code.last(), Some(Instruction::Accept)));
        for inst in code.iter() {
            match inst {
                Instruction::Jump(t) => assert!(*t < code.len()),
                Instruction::Branch(t1, t2) => {
                    assert!(*t1 < code.len());
                    assert!(*t2 < code.len());
                }
                _ => {}
            }
        }
    }
}

#[test]
fn test_unicode_positions_are_character_ordinals() {
    // positions count characters, not bytes
    match parse("äö\\x") {
        Err(e) => assert_eq!(e, ParseError::InvalidEscape(3, 'x')),
        Ok(_) => panic!("expected a parse error"),
    }
    assert!(is_match("äb?", "ä", true).unwrap());
}
