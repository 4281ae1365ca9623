//! The code generator: a syntax tree is translated into a linear bytecode
//! program by the classical automaton-construction templates, with
//! back-patched branch and jump targets and an overflow-checked program
//! counter. The emitted program is pinned to a specification-level compiler,
//! every target is proved in range, and the final instruction is `Accept`.

use vstd::prelude::*;

use crate::engine::Instruction;
use crate::evaluator::{code_wf, inst_targets_ok};
use crate::parser::{ast_size, ast_view, asts_size, asts_view, AST, SpecAst};
use crate::parser::{lemma_asts_size_elem, lemma_asts_view};

verus! {

broadcast use lemma_asts_view;

/// An error from code generation.
#[derive(Debug, Clone, Copy, PartialEq, Eq, Structural)]
pub enum CodeGenError {
    /// The program counter would leave the addressable index range.
    AddressOverflow,
    /// A back-patch target did not hold the expected placeholder
    /// instruction: an internal-consistency guard, proved unreachable.
    PatchTargetInvalid,
}

/// The template for zero-or-more repetition of a block at `base`:
/// branch over or into the block, and jump back after it.
pub open spec fn star_code(inner: Seq<Instruction>, base: int) -> Seq<Instruction> {
    seq![
        Instruction::Branch((base + 1) as usize, (base + 2 + inner.len()) as usize),
    ] + inner + seq![Instruction::Jump(base as usize)]
}

/// The template for one-or-more repetition: the block, then a branch back
/// to it or onward.
pub open spec fn plus_code(inner: Seq<Instruction>, base: int) -> Seq<Instruction> {
    inner + seq![Instruction::Branch(base as usize, (base + inner.len() + 1) as usize)]
}

/// The template for zero-or-one occurrence: a branch into or over the
/// block.
pub open spec fn question_code(inner: Seq<Instruction>, base: int) -> Seq<Instruction> {
    seq![Instruction::Branch((base + 1) as usize, (base + 1 + inner.len()) as usize)] + inner
}

/// The template for a choice between two blocks: a branch to either, and a
/// jump over the second after the first.
pub open spec fn or_code(c1: Seq<Instruction>, c2: Seq<Instruction>, base: int) -> Seq<
    Instruction,
> {
    seq![Instruction::Branch((base + 1) as usize, (base + 2 + c1.len()) as usize)] + c1 + seq![
        Instruction::Jump((base + 2 + c1.len() + c2.len()) as usize),
    ] + c2
}

/// The collapse rule for zero-or-more over a body that is itself
/// zero-or-more (also through a one-element concatenation): the inner
/// repetition is compiled directly. Compiling nested zero-width loops
/// naively would let the backtracking evaluator re-enter a zero-progress
/// branch point, so collapsing is a correctness requirement.
pub open spec fn star_collapse(e: SpecAst) -> Option<SpecAst> {
    match e {
        SpecAst::Repeat0(_) => Some(e),
        SpecAst::Concat(cs) => if cs.len() == 1 && cs[0] is Repeat0 {
            Some(cs[0])
        } else {
            None
        },
        _ => None,
    }
}

/// The specification-level compiler: the instructions emitted for a tree
/// placed at address `base`.
pub open spec fn compile_expr(ast: SpecAst, base: int) -> Seq<Instruction>
    decreases ast,
    via compile_expr_decreases
{
    match ast {
        SpecAst::Literal(c) => seq![Instruction::Literal(c)],
        SpecAst::Concat(children) => compile_concat(children, base),
        SpecAst::Alternate(e1, e2) => or_code(
            compile_expr(*e1, base + 1),
            compile_expr(*e2, base + 2 + compile_expr(*e1, base + 1).len()),
            base,
        ),
        SpecAst::Repeat0(e) => match star_collapse(*e) {
            Some(inner) => compile_expr(inner, base),
            None => star_code(compile_expr(*e, base + 1), base),
        },
        SpecAst::Repeat1(e) => plus_code(compile_expr(*e, base), base),
        SpecAst::Repeat01(e) => question_code(compile_expr(*e, base + 1), base),
    }
}

#[via_fn]
proof fn compile_expr_decreases(ast: SpecAst, base: int) {
    match ast {
        SpecAst::Concat(children) => {
            assert(decreases_to!(ast => children));
        },
        SpecAst::Repeat0(e) => {
            assert(decreases_to!(ast => *e));
            match *e {
                SpecAst::Concat(cs) => {
                    if cs.len() == 1 {
                        assert(decreases_to!(*e => cs));
                        assert(decreases_to!(cs => cs[0]));
                    }
                },
                _ => {},
            }
        },
        _ => {},
    }
}

/// The blocks of the children, emitted in order, each at the address after
/// its predecessors.
pub open spec fn compile_concat(children: Seq<SpecAst>, base: int) -> Seq<Instruction>
    decreases children,
{
    if children.len() == 0 {
        Seq::empty()
    } else {
        compile_expr(children[0], base) + compile_concat(
            children.drop_first(),
            base + compile_expr(children[0], base).len(),
        )
    }
}

/// The full program for a tree: its block at address zero, then `Accept`.
pub open spec fn compiled(ast: SpecAst) -> Seq<Instruction> {
    compile_expr(ast, 0).push(Instruction::Accept)
}

/// The targets of one instruction lie within the given address window
/// (the upper bound is one past the block, where the next block begins).
pub open spec fn target_in(inst: Instruction, lo: int, hi: int) -> bool {
    match inst {
        Instruction::Literal(_) => true,
        Instruction::Accept => true,
        Instruction::Jump(t) => lo <= t <= hi,
        Instruction::Branch(t1, t2) => lo <= t1 <= hi && lo <= t2 <= hi,
    }
}

/// All targets of a block lie within the window.
pub open spec fn targets_within(code: Seq<Instruction>, lo: int, hi: int) -> bool {
    forall|i: int| 0 <= i < code.len() ==> target_in(#[trigger] code[i], lo, hi)
}

/// Every target of a compiled block points into the block or at the address
/// just past it.
proof fn lemma_compile_targets(ast: SpecAst, base: int)
    requires
        0 <= base,
        base + compile_expr(ast, base).len() <= usize::MAX,
    ensures
        targets_within(compile_expr(ast, base), base, base + compile_expr(ast, base).len()),
    decreases ast,
{
    let code = compile_expr(ast, base);
    let hi = base + code.len();
    match ast {
        SpecAst::Literal(c) => {},
        SpecAst::Concat(children) => {
            assert(decreases_to!(ast => children));
            lemma_concat_targets(children, base);
        },
        SpecAst::Alternate(e1, e2) => {
            let c1 = compile_expr(*e1, base + 1);
            let c2 = compile_expr(*e2, base + 2 + c1.len());
            lemma_compile_targets(*e1, base + 1);
            lemma_compile_targets(*e2, base + 2 + c1.len());
            assert forall|i: int| 0 <= i < code.len() implies target_in(
                #[trigger] code[i],
                base,
                hi,
            ) by {
                if 1 <= i < 1 + c1.len() {
                    assert(code[i] == c1[i - 1]);
                    assert(target_in(c1[i - 1], base + 1, base + 1 + c1.len()));
                } else if i > 1 + c1.len() {
                    assert(code[i] == c2[i - (2 + c1.len())]);
                    assert(target_in(
                        c2[i - (2 + c1.len())],
                        base + 2 + c1.len(),
                        base + 2 + c1.len() + c2.len(),
                    ));
                }
            }
        },
        SpecAst::Repeat0(e) => {
            match star_collapse(*e) {
                Some(inner) => {
                    assert(decreases_to!(ast => *e));
                    match *e {
                        SpecAst::Concat(cs) => {
                            if cs.len() == 1 {
                                assert(decreases_to!(*e => cs));
                                assert(decreases_to!(cs => cs[0]));
                            }
                        },
                        _ => {},
                    }
                    lemma_compile_targets(inner, base);
                },
                None => {
                    let c = compile_expr(*e, base + 1);
                    lemma_compile_targets(*e, base + 1);
                    assert forall|i: int| 0 <= i < code.len() implies target_in(
                        #[trigger] code[i],
                        base,
                        hi,
                    ) by {
                        if 1 <= i < 1 + c.len() {
                            assert(code[i] == c[i - 1]);
                            assert(target_in(c[i - 1], base + 1, base + 1 + c.len()));
                        }
                    }
                },
            }
        },
        SpecAst::Repeat1(e) => {
            let c = compile_expr(*e, base);
            lemma_compile_targets(*e, base);
            assert forall|i: int| 0 <= i < code.len() implies target_in(
                #[trigger] code[i],
                base,
                hi,
            ) by {
                if i < c.len() {
                    assert(code[i] == c[i]);
                    assert(target_in(c[i], base, base + c.len()));
                }
            }
        },
        SpecAst::Repeat01(e) => {
            let c = compile_expr(*e, base + 1);
            lemma_compile_targets(*e, base + 1);
            assert forall|i: int| 0 <= i < code.len() implies target_in(
                #[trigger] code[i],
                base,
                hi,
            ) by {
                if 1 <= i {
                    assert(code[i] == c[i - 1]);
                    assert(target_in(c[i - 1], base + 1, base + 1 + c.len()));
                }
            }
        },
    }
}

proof fn lemma_concat_targets(children: Seq<SpecAst>, base: int)
    requires
        0 <= base,
        base + compile_concat(children, base).len() <= usize::MAX,
    ensures
        targets_within(
            compile_concat(children, base),
            base,
            base + compile_concat(children, base).len(),
        ),
    decreases children,
{
    if children.len() > 0 {
        let code = compile_concat(children, base);
        let c0 = compile_expr(children[0], base);
        let rest = compile_concat(children.drop_first(), base + c0.len());
        lemma_compile_targets(children[0], base);
        lemma_concat_targets(children.drop_first(), base + c0.len());
        assert forall|i: int| 0 <= i < code.len() implies target_in(
            #[trigger] code[i],
            base,
            base + code.len(),
        ) by {
            if i < c0.len() {
                assert(code[i] == c0[i]);
                assert(target_in(c0[i], base, base + c0.len()));
            } else {
                assert(code[i] == rest[i - c0.len()]);
                assert(target_in(rest[i - c0.len()], base + c0.len(), base + c0.len() + rest.len()));
            }
        }
    }
}

/// A full compiled program is well-formed: non-empty, all targets in range,
/// and `Accept` last.
pub proof fn lemma_compiled_wf(ast: SpecAst)
    requires
        compile_expr(ast, 0).len() + 1 <= usize::MAX,
    ensures
        code_wf(compiled(ast)),
{
    let c = compile_expr(ast, 0);
    let full = compiled(ast);
    lemma_compile_targets(ast, 0);
    assert forall|i: int| 0 <= i < full.len() implies inst_targets_ok(
        #[trigger] full[i],
        full.len() as int,
    ) by {
        if i < c.len() {
            assert(full[i] == c[i]);
            assert(target_in(c[i], 0, c.len() as int));
        }
    }
}

/// The incremental state of code generation: the instructions emitted so
/// far and the program counter, which always equals their number.
struct Generator {
    pc: usize,
    insts: Vec<Instruction>,
}

impl Generator {
    /// The program counter tracks the emitted length.
    spec fn wf(self) -> bool {
        self.pc == self.insts@.len()
    }

    /// Advances the program counter by one emission; fails rather than
    /// wrapping when the index range is exhausted.
    fn inc_pc(&mut self) -> (r: Result<(), CodeGenError>)
        ensures
            old(self).pc < usize::MAX ==> r is Ok,
            r is Ok ==> final(self).pc == old(self).pc + 1 && final(self).insts == old(self).insts,
            r is Err ==> r == Err::<(), CodeGenError>(CodeGenError::AddressOverflow)
                && *final(self) == *old(self),
    {
        if self.pc < usize::MAX {
            self.pc = self.pc + 1;
            Ok(())
        } else {
            Err(CodeGenError::AddressOverflow)
        }
    }

    /// regex: c — one literal instruction.
    fn gen_char(&mut self, c: char) -> (r: Result<(), CodeGenError>)
        requires
            old(self).wf(),
        ensures
            r is Ok ==> final(self).wf() && final(self).insts@ == old(self).insts@ + seq![
                Instruction::Literal(c),
            ],
            r is Err ==> r == Err::<(), CodeGenError>(CodeGenError::AddressOverflow),
            old(self).pc + 1 <= usize::MAX ==> r is Ok,
    {
        let inst = Instruction::Literal(c);
        self.insts.push(inst);
        match self.inc_pc() {
            Ok(()) => Ok(()),
            Err(e) => Err(e),
        }
    }

    /// Emits the block for one tree at the current program counter.
    fn gen_expr(&mut self, ast: &AST) -> (r: Result<(), CodeGenError>)
        requires
            old(self).wf(),
        ensures
            r is Ok ==> final(self).wf() && final(self).insts@ == old(self).insts@ + compile_expr(
                ast_view(*ast),
                old(self).pc as int,
            ),
            r is Err ==> r == Err::<(), CodeGenError>(CodeGenError::AddressOverflow),
            old(self).pc + compile_expr(ast_view(*ast), old(self).pc as int).len() <= usize::MAX
                ==> r is Ok,
        decreases ast_size(*ast), 0nat,
    {
        let ghost base = old(self).pc as int;
        match ast {
            AST::Literal(c) => {
                proof {
                    assert(compile_expr(ast_view(*ast), base) =~= seq![Instruction::Literal(*c)]);
                }
                self.gen_char(*c)
            },
            AST::Repeat1(e) => {
                proof {
                    assert(compile_expr(ast_view(*ast), base) == plus_code(
                        compile_expr(ast_view(**e), base),
                        base,
                    ));
                }
                self.gen_plus(&**e)
            },
            AST::Repeat0(e1) => {
                proof {
                    assert(ast_view(*ast) == SpecAst::Repeat0(Box::new(ast_view(**e1))));
                    assert(ast_size(*ast) == 1 + ast_size(**e1));
                }
                match &**e1 {
                    AST::Repeat0(_) => {
                        proof {
                            assert(star_collapse(ast_view(**e1)) == Some(ast_view(**e1)));
                            assert(compile_expr(ast_view(*ast), base) == compile_expr(
                                ast_view(**e1),
                                base,
                            ));
                        }
                        self.gen_expr(&**e1)
                    },
                    AST::Concat(v) => {
                        proof {
                            assert(ast_view(**e1) == SpecAst::Concat(asts_view(v@)));
                            assert(ast_size(**e1) == 1 + asts_size(v@));
                        }
                        if v.len() == 1 {
                            proof {
                                lemma_asts_size_elem(v@, 0);
                            }
                            let first = &v[0];
                            if matches!(first, AST::Repeat0(_)) {
                                proof {
                                    assert(asts_view(v@)[0] == ast_view(v@[0]));
                                    assert(ast_view(v@[0]) is Repeat0);
                                    assert(star_collapse(ast_view(**e1)) == Some(
                                        ast_view(v@[0]),
                                    ));
                                    assert(compile_expr(ast_view(*ast), base) == compile_expr(
                                        ast_view(v@[0]),
                                        base,
                                    ));
                                }
                                self.gen_expr(first)
                            } else {
                                proof {
                                    assert(asts_view(v@)[0] == ast_view(v@[0]));
                                    assert(!(ast_view(v@[0]) is Repeat0));
                                    assert(star_collapse(ast_view(**e1)) is None);
                                    assert(compile_expr(ast_view(*ast), base) == star_code(
                                        compile_expr(ast_view(**e1), base + 1),
                                        base,
                                    ));
                                }
                                self.gen_star(&**e1)
                            }
                        } else {
                            proof {
                                assert(star_collapse(ast_view(**e1)) is None);
                                assert(compile_expr(ast_view(*ast), base) == star_code(
                                    compile_expr(ast_view(**e1), base + 1),
                                    base,
                                ));
                            }
                            self.gen_star(&**e1)
                        }
                    },
                    _ => {
                        proof {
                            assert(star_collapse(ast_view(**e1)) is None);
                            assert(compile_expr(ast_view(*ast), base) == star_code(
                                compile_expr(ast_view(**e1), base + 1),
                                base,
                            ));
                        }
                        self.gen_star(&**e1)
                    },
                }
            },
            AST::Repeat01(e) => {
                proof {
                    assert(compile_expr(ast_view(*ast), base) == question_code(
                        compile_expr(ast_view(**e), base + 1),
                        base,
                    ));
                }
                self.gen_question(&**e)
            },
            AST::Alternate(e1, e2) => {
                proof {
                    assert(compile_expr(ast_view(*ast), base) == or_code(
                        compile_expr(ast_view(**e1), base + 1),
                        compile_expr(
                            ast_view(**e2),
                            base + 2 + compile_expr(ast_view(**e1), base + 1).len(),
                        ),
                        base,
                    ));
                }
                self.gen_or(&**e1, &**e2)
            },
            AST::Concat(v) => {
                proof {
                    assert(compile_expr(ast_view(*ast), base) == compile_concat(
                        asts_view(v@),
                        base,
                    ));
                    assert(ast_size(*ast) == 1 + asts_size(v@));
                }
                self.gen_seq(v)
            },
        }
    }

    /// regex: e+ — the block, then a branch back to it or onward.
    fn gen_plus(&mut self, e: &AST) -> (r: Result<(), CodeGenError>)
        requires
            old(self).wf(),
        ensures
            r is Ok ==> final(self).wf() && final(self).insts@ == old(self).insts@ + plus_code(
                compile_expr(ast_view(*e), old(self).pc as int),
                old(self).pc as int,
            ),
            r is Err ==> r == Err::<(), CodeGenError>(CodeGenError::AddressOverflow),
            old(self).pc + plus_code(
                compile_expr(ast_view(*e), old(self).pc as int),
                old(self).pc as int,
            ).len() <= usize::MAX ==> r is Ok,
        decreases ast_size(*e), 1nat,
    {
        let ghost pre = self.insts@;
        let ghost base = self.pc as int;
        let ghost c = compile_expr(ast_view(*e), base);
        // L1: e
        let l1 = self.pc;
        match self.gen_expr(e) {
            Ok(()) => {},
            Err(err) => {
                return Err(err);
            },
        }
        // split L1, L2
        match self.inc_pc() {
            Ok(()) => {},
            Err(err) => {
                return Err(err);
            },
        }
        let split = Instruction::Branch(l1, self.pc);
        self.insts.push(split);
        proof {
            assert(self.insts@ =~= pre + plus_code(c, base));
        }
        Ok(())
    }

    /// regex: e* — a branch over or into the block, and a jump back. The
    /// branch's second target is patched once the block's end is known.
    fn gen_star(&mut self, e: &AST) -> (r: Result<(), CodeGenError>)
        requires
            old(self).wf(),
        ensures
            r is Ok ==> final(self).wf() && final(self).insts@ == old(self).insts@ + star_code(
                compile_expr(ast_view(*e), old(self).pc as int + 1),
                old(self).pc as int,
            ),
            r is Err ==> r == Err::<(), CodeGenError>(CodeGenError::AddressOverflow),
            old(self).pc + star_code(
                compile_expr(ast_view(*e), old(self).pc as int + 1),
                old(self).pc as int,
            ).len() <= usize::MAX ==> r is Ok,
        decreases ast_size(*e), 1nat,
    {
        let ghost pre = self.insts@;
        let ghost base = self.pc as int;
        let ghost c = compile_expr(ast_view(*e), base + 1);
        // L1: split L2, L3
        let l1 = self.pc;
        match self.inc_pc() {
            Ok(()) => {},
            Err(err) => {
                return Err(err);
            },
        }
        let split = Instruction::Branch(self.pc, 0);
        self.insts.push(split);
        // L2: e
        match self.gen_expr(e) {
            Ok(()) => {},
            Err(err) => {
                return Err(err);
            },
        }
        // jump L1
        let jump = Instruction::Jump(l1);
        self.insts.push(jump);
        match self.inc_pc() {
            Ok(()) => {},
            Err(err) => {
                return Err(err);
            },
        }
        // L3: patch the split's second target to the loop's exit
        let end = self.pc;
        if l1 < self.insts.len() {
            match self.insts[l1] {
                Instruction::Branch(t1, _) => {
                    self.insts[l1] = Instruction::Branch(t1, end);
                    proof {
                        assert(self.insts@ =~= pre + star_code(c, base));
                    }
                    Ok(())
                },
                _ => {
                    proof {
                        assert(false);
                    }
                    Err(CodeGenError::PatchTargetInvalid)
                },
            }
        } else {
            proof {
                assert(false);
            }
            Err(CodeGenError::PatchTargetInvalid)
        }
    }

    /// regex: e? — a branch into or over the block; the second target is
    /// patched once the block's end is known.
    fn gen_question(&mut self, e: &AST) -> (r: Result<(), CodeGenError>)
        requires
            old(self).wf(),
        ensures
            r is Ok ==> final(self).wf() && final(self).insts@ == old(self).insts@
                + question_code(
                compile_expr(ast_view(*e), old(self).pc as int + 1),
                old(self).pc as int,
            ),
            r is Err ==> r == Err::<(), CodeGenError>(CodeGenError::AddressOverflow),
            old(self).pc + question_code(
                compile_expr(ast_view(*e), old(self).pc as int + 1),
                old(self).pc as int,
            ).len() <= usize::MAX ==> r is Ok,
        decreases ast_size(*e), 1nat,
    {
        let ghost pre = self.insts@;
        let ghost base = self.pc as int;
        let ghost c = compile_expr(ast_view(*e), base + 1);
        // split L1, L2
        let split_addr = self.pc;
        match self.inc_pc() {
            Ok(()) => {},
            Err(err) => {
                return Err(err);
            },
        }
        let split = Instruction::Branch(self.pc, 0);
        self.insts.push(split);
        // L1: e
        match self.gen_expr(e) {
            Ok(()) => {},
            Err(err) => {
                return Err(err);
            },
        }
        // L2: patch the split's second target past the block
        let end = self.pc;
        if split_addr < self.insts.len() {
            match self.insts[split_addr] {
                Instruction::Branch(t1, _) => {
                    self.insts[split_addr] = Instruction::Branch(t1, end);
                    proof {
                        assert(self.insts@ =~= pre + question_code(c, base));
                    }
                    Ok(())
                },
                _ => {
                    proof {
                        assert(false);
                    }
                    Err(CodeGenError::PatchTargetInvalid)
                },
            }
        } else {
            proof {
                assert(false);
            }
            Err(CodeGenError::PatchTargetInvalid)
        }
    }

    /// regex: e1|e2 — a branch to either block; a jump over the second is
    /// patched in after the first, and the branch's second target after the
    /// jump.
    fn gen_or(&mut self, e1: &AST, e2: &AST) -> (r: Result<(), CodeGenError>)
        requires
            old(self).wf(),
        ensures
            r is Ok ==> final(self).wf() && final(self).insts@ == old(self).insts@ + or_code(
                compile_expr(ast_view(*e1), old(self).pc as int + 1),
                compile_expr(
                    ast_view(*e2),
                    old(self).pc as int + 2 + compile_expr(
                        ast_view(*e1),
                        old(self).pc as int + 1,
                    ).len(),
                ),
                old(self).pc as int,
            ),
            r is Err ==> r == Err::<(), CodeGenError>(CodeGenError::AddressOverflow),
            old(self).pc + or_code(
                compile_expr(ast_view(*e1), old(self).pc as int + 1),
                compile_expr(
                    ast_view(*e2),
                    old(self).pc as int + 2 + compile_expr(
                        ast_view(*e1),
                        old(self).pc as int + 1,
                    ).len(),
                ),
                old(self).pc as int,
            ).len() <= usize::MAX ==> r is Ok,
        decreases ast_size(*e1) + ast_size(*e2), 1nat,
    {
        let ghost pre = self.insts@;
        let ghost base = self.pc as int;
        let ghost c1 = compile_expr(ast_view(*e1), base + 1);
        let ghost c2 = compile_expr(ast_view(*e2), base + 2 + c1.len());
        proof {
            assert(ast_size(*e2) >= 1) by {
                match *e2 {
                    AST::Literal(_) => {},
                    AST::Concat(_) => {},
                    AST::Alternate(_, _) => {},
                    AST::Repeat0(_) => {},
                    AST::Repeat1(_) => {},
                    AST::Repeat01(_) => {},
                }
            }
            assert(ast_size(*e1) >= 1) by {
                match *e1 {
                    AST::Literal(_) => {},
                    AST::Concat(_) => {},
                    AST::Alternate(_, _) => {},
                    AST::Repeat0(_) => {},
                    AST::Repeat1(_) => {},
                    AST::Repeat01(_) => {},
                }
            }
        }
        // split L1, L2
        let split_addr = self.pc;
        match self.inc_pc() {
            Ok(()) => {},
            Err(err) => {
                return Err(err);
            },
        }
        let split = Instruction::Branch(self.pc, 0);
        self.insts.push(split);
        // L1: e1
        match self.gen_expr(e1) {
            Ok(()) => {},
            Err(err) => {
                return Err(err);
            },
        }
        // jump L3
        let jump_addr = self.pc;
        let jump = Instruction::Jump(0);
        self.insts.push(jump);
        match self.inc_pc() {
            Ok(()) => {},
            Err(err) => {
                return Err(err);
            },
        }
        // L2: patch the split's second target to here
        if split_addr < self.insts.len() {
            match self.insts[split_addr] {
                Instruction::Branch(t1, _) => {
                    let l2 = self.pc;
                    self.insts[split_addr] = Instruction::Branch(t1, l2);
                },
                _ => {
                    proof {
                        assert(false);
                    }
                    return Err(CodeGenError::PatchTargetInvalid);
                },
            }
        } else {
            proof {
                assert(false);
            }
            return Err(CodeGenError::PatchTargetInvalid);
        }
        let ghost mid = self.insts@;
        proof {
            assert(mid =~= pre + seq![
                Instruction::Branch((base + 1) as usize, (base + 2 + c1.len()) as usize),
            ] + c1 + seq![Instruction::Jump(0)]);
        }
        // L2: e2
        match self.gen_expr(e2) {
            Ok(()) => {},
            Err(err) => {
                return Err(err);
            },
        }
        // L3: patch the jump's target to here
        let l3 = self.pc;
        if jump_addr < self.insts.len() {
            match self.insts[jump_addr] {
                Instruction::Jump(_) => {
                    self.insts[jump_addr] = Instruction::Jump(l3);
                    proof {
                        assert(self.insts@ =~= pre + or_code(c1, c2, base));
                    }
                    Ok(())
                },
                _ => {
                    proof {
                        assert(false);
                    }
                    Err(CodeGenError::PatchTargetInvalid)
                },
            }
        } else {
            proof {
                assert(false);
            }
            Err(CodeGenError::PatchTargetInvalid)
        }
    }

    /// A sequence of trees: their blocks, in order.
    fn gen_seq(&mut self, exprs: &Vec<AST>) -> (r: Result<(), CodeGenError>)
        requires
            old(self).wf(),
        ensures
            r is Ok ==> final(self).wf() && final(self).insts@ == old(self).insts@
                + compile_concat(asts_view(exprs@), old(self).pc as int),
            r is Err ==> r == Err::<(), CodeGenError>(CodeGenError::AddressOverflow),
            old(self).pc + compile_concat(asts_view(exprs@), old(self).pc as int).len()
                <= usize::MAX ==> r is Ok,
        decreases asts_size(exprs@), 1nat,
    {
        let ghost pre = self.insts@;
        let ghost base = self.pc as int;
        let ghost full = compile_concat(asts_view(exprs@), base);
        let mut i: usize = 0;
        proof {
            assert(asts_view(exprs@).skip(0) =~= asts_view(exprs@));
            assert(pre + full =~= pre + compile_concat(asts_view(exprs@).skip(0), base));
        }
        while i < exprs.len()
            invariant
                old(self).wf(),
                self.wf(),
                i <= exprs@.len(),
                pre == old(self).insts@,
                base == old(self).pc as int,
                full == compile_concat(asts_view(exprs@), base),
                pre + full == self.insts@ + compile_concat(
                    asts_view(exprs@).skip(i as int),
                    self.pc as int,
                ),
            decreases exprs@.len() - i,
        {
            let ghost rem = asts_view(exprs@).skip(i as int);
            let ghost cur_insts = self.insts@;
            let ghost cur_pc = self.pc as int;
            proof {
                assert(rem[0] == ast_view(exprs@[i as int]));
                assert(rem.drop_first() =~= asts_view(exprs@).skip(i as int + 1));
                lemma_asts_size_elem(exprs@, i as int);
                assert(compile_concat(rem, cur_pc) == compile_expr(rem[0], cur_pc)
                    + compile_concat(
                    rem.drop_first(),
                    cur_pc + compile_expr(rem[0], cur_pc).len(),
                ));
            }
            match self.gen_expr(&exprs[i]) {
                Ok(()) => {
                    proof {
                        assert(self.insts@ == cur_insts + compile_expr(rem[0], cur_pc));
                        assert(pre + full =~= self.insts@ + compile_concat(
                            asts_view(exprs@).skip(i as int + 1),
                            self.pc as int,
                        ));
                    }
                },
                Err(err) => {
                    proof {
                        if old(self).pc + full.len() <= usize::MAX {
                            assert(pre + full == cur_insts + compile_concat(rem, cur_pc));
                            assert((pre + full).len() == pre.len() + full.len());
                            assert((cur_insts + compile_concat(rem, cur_pc)).len() == cur_insts.len()
                                + compile_concat(rem, cur_pc).len());
                            assert(cur_pc + compile_expr(rem[0], cur_pc).len() <= usize::MAX);
                            assert(false);
                        }
                    }
                    return Err(err);
                },
            }
            i = i + 1;
        }
        proof {
            assert(asts_view(exprs@).skip(exprs@.len() as int) =~= Seq::<SpecAst>::empty());
            assert(self.insts@ =~= pre + full);
        }
        Ok(())
    }

    /// The whole program: the tree's block at the current address, then the
    /// terminal `Accept`.
    fn gen_code(&mut self, ast: &AST) -> (r: Result<(), CodeGenError>)
        requires
            old(self).wf(),
        ensures
            r is Ok ==> final(self).wf() && final(self).insts@ == old(self).insts@ + compile_expr(
                ast_view(*ast),
                old(self).pc as int,
            ).push(Instruction::Accept),
            r is Err ==> r == Err::<(), CodeGenError>(CodeGenError::AddressOverflow),
            old(self).pc + compile_expr(ast_view(*ast), old(self).pc as int).len() + 1
                <= usize::MAX ==> r is Ok,
    {
        match self.gen_expr(ast) {
            Ok(()) => {},
            Err(err) => {
                return Err(err);
            },
        }
        self.insts.push(Instruction::Accept);
        match self.inc_pc() {
            Ok(()) => {},
            Err(err) => {
                return Err(err);
            },
        }
        Ok(())
    }
}

/// Compiles a syntax tree into a bytecode program. On success the program
/// is exactly the specification compiler's output, every branch and jump
/// target is a valid address, and the final instruction is `Accept`.
/// Failure is possible only when the program would exhaust the address
/// range.
pub fn get_code(ast: &AST) -> (r: Result<Vec<Instruction>, CodeGenError>)
    ensures
        r matches Ok(code) ==> code@ == compiled(ast_view(*ast)) && code_wf(code@),
        r matches Err(e) ==> e == CodeGenError::AddressOverflow,
        compile_expr(ast_view(*ast), 0).len() + 1 <= usize::MAX ==> r is Ok,
{
    let mut generator = Generator { pc: 0, insts: Vec::new() };
    match generator.gen_code(ast) {
        Ok(()) => {},
        Err(err) => {
            return Err(err);
        },
    }
    proof {
        lemma_compiled_wf(ast_view(*ast));
    }
    Ok(generator.insts)
}

} // verus!
