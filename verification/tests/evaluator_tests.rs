use regex::evaluator::{eval, EvalError};
use regex::Instruction;

fn chars_of(s: &str) -> Vec<char> {
    s.chars().collect()
}

#[test]
fn test_out_of_range_counter_is_caught() {
    // a malformed program whose counter leaves the address range
    let prog = vec![Instruction::Jump(7)];
    match eval(&prog, &chars_of(""), true) {
        Err(e) => assert_eq!(e, EvalError::PcOutOfRange),
        Ok(_) => panic!("expected the counter guard to fire"),
    }
    match eval(&prog, &chars_of(""), false) {
        Err(e) => assert_eq!(e, EvalError::PcOutOfRange),
        Ok(_) => panic!("expected the counter guard to fire"),
    }
    let empty: Vec<Instruction> = Vec::new();
    assert!(eval(&empty, &chars_of("a"), true).is_err());
    assert!(eval(&empty, &chars_of("a"), false).is_err());
}

#[test]
fn test_zero_progress_cycles_terminate() {
    // a jump to itself accepts nothing, and both strategies terminate on it
    let prog = vec![Instruction::Jump(0)];
    assert_eq!(eval(&prog, &chars_of(""), true), Ok(false));
    assert_eq!(eval(&prog, &chars_of(""), false), Ok(false));
    assert_eq!(eval(&prog, &chars_of("aaa"), true), Ok(false));

    // a cycle beside an accepting branch: the acceptance is still found
    let prog = vec![
        Instruction::Branch(1, 2),
        Instruction::Jump(0),
        Instruction::Accept,
    ];
    assert_eq!(eval(&prog, &chars_of(""), true), Ok(true));
    assert_eq!(eval(&prog, &chars_of(""), false), Ok(true));
}

#[test]
fn test_handmade_program_semantics() {
    // the program for `a*` built by hand: both strategies agree with the
    // acceptance semantics, and unconsumed input is irrelevant
    let prog = vec![
        Instruction::Branch(1, 3),
        Instruction::Literal('a'),
        Instruction::Jump(0),
        Instruction::Accept,
    ];
    assert_eq!(eval(&prog, &chars_of(""), true), Ok(true));
    assert_eq!(eval(&prog, &chars_of("aaa"), false), Ok(true));
    assert_eq!(eval(&prog, &chars_of("b"), true), Ok(true));

    let prog = vec![Instruction::Literal('a'), Instruction::Accept];
    assert_eq!(eval(&prog, &chars_of("ab"), true), Ok(true));
    assert_eq!(eval(&prog, &chars_of("b"), true), Ok(false));
    assert_eq!(eval(&prog, &chars_of(""), false), Ok(false));
}
