//! The bytecode instruction set shared by the compiler and the evaluator,
//! and the full parse-compile-evaluate pipeline.

use vstd::prelude::*;
use vstd::string::StrSliceExecFns;

use crate::codegen::{compile_expr, compiled, get_code, CodeGenError};
use crate::evaluator::{accepts, eval};
use crate::parser::{ast_view, parse, spec_parse, ParseError, SpecAst};

verus! {

/// One instruction of a compiled program. Jump and branch targets are
/// indices into the program that holds the instruction.
#[derive(Debug, Clone, Copy, PartialEq, Eq, Structural)]
pub enum Instruction {
    /// Consume one input character if it equals the payload.
    Literal(char),
    /// Terminal success marker.
    Accept,
    /// Unconditional control transfer.
    Jump(usize),
    /// Nondeterministic choice between two continuations.
    Branch(usize, usize),
}

/// An error from any stage of the pipeline.
#[derive(Debug, Clone, Copy, PartialEq, Eq, Structural)]
pub enum EngineError {
    Parse(ParseError),
    CodeGen(CodeGenError),
    Eval(crate::evaluator::EvalError),
}

/// Runs the full pipeline once: parse the pattern, compile the syntax tree,
/// and evaluate the program against the input, anchored at the input's
/// start as a prefix match. `is_depth` selects the depth-first strategy;
/// otherwise the breadth-first strategy runs. Both strategies return the
/// acceptance of the compiled program, so the result is independent of the
/// strategy. Errors are exactly the parse errors of the scan specification,
/// or address-range exhaustion in the compiler; the evaluator's defensive
/// guard can never fire on a compiled program.
pub fn is_match(expr: &str, line: &str, is_depth: bool) -> (r: Result<bool, EngineError>)
    ensures
        match r {
            Ok(b) => spec_parse(expr@) matches Ok(ast) && b == accepts(compiled(ast), line@, 0, 0),
            Err(EngineError::Parse(e)) => spec_parse(expr@) == Err::<SpecAst, ParseError>(e),
            Err(EngineError::CodeGen(e)) => spec_parse(expr@) is Ok && e
                == CodeGenError::AddressOverflow,
            Err(EngineError::Eval(_)) => false,
        },
        spec_parse(expr@) matches Ok(ast) && compile_expr(ast, 0).len() + 1 <= usize::MAX ==> r
            is Ok,
{
    let ast = match parse(expr) {
        Ok(a) => a,
        Err(e) => {
            return Err(EngineError::Parse(e));
        },
    };
    let code = match get_code(&ast) {
        Ok(c) => c,
        Err(e) => {
            return Err(EngineError::CodeGen(e));
        },
    };
    proof {
        assert(spec_parse(expr@) == Ok::<SpecAst, ParseError>(ast_view(ast)));
        assert(code@ == compiled(ast_view(ast)));
    }
    let n = line.unicode_len();
    let mut chars: Vec<char> = Vec::new();
    let mut i: usize = 0;
    while i < n
        invariant
            n == line@.len(),
            i <= n,
            chars@ == line@.subrange(0, i as int),
        decreases n - i,
    {
        chars.push(line.get_char(i));
        proof {
            assert(chars@ =~= line@.subrange(0, i + 1));
        }
        i = i + 1;
    }
    proof {
        assert(chars@ =~= line@);
    }
    match eval(&code, &chars, is_depth) {
        Ok(b) => Ok(b),
        Err(e) => {
            proof {
                assert(false);
            }
            Err(EngineError::Eval(e))
        },
    }
}

} // verus!
