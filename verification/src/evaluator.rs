//! The virtual machine: acceptance semantics of a compiled program, and two
//! interchangeable execution strategies — an exhaustive depth-first
//! backtracking search and a breadth-first thread-set simulation. Each
//! strategy is proved to return exactly the acceptance of the program, which
//! makes the two semantically equivalent on every program and input.

use vstd::prelude::*;

use crate::engine::Instruction;

verus! {

/// An error during evaluation: a defensive guard only, unreachable for
/// programs produced by the compiler.
#[derive(Debug, Clone, Copy, PartialEq, Eq, Structural)]
pub enum EvalError {
    /// A program counter left the program's address range.
    PcOutOfRange,
}

/// The targets of one instruction lie inside a program of length `len`.
pub open spec fn inst_targets_ok(inst: Instruction, len: int) -> bool {
    match inst {
        Instruction::Literal(_) => true,
        Instruction::Accept => true,
        Instruction::Jump(t) => t < len,
        Instruction::Branch(t1, t2) => t1 < len && t2 < len,
    }
}

/// A well-formed program: non-empty, every jump and branch target in range,
/// and the final instruction is `Accept`.
pub open spec fn code_wf(code: Seq<Instruction>) -> bool {
    &&& code.len() > 0
    &&& code.last() == Instruction::Accept
    &&& forall|i: int| 0 <= i < code.len() ==> inst_targets_ok(#[trigger] code[i], code.len() as int)
}

/// One small step of the machine between two (program counter, input
/// position) states. `Accept` has no successor; a `Literal` consumes the
/// input character under the position.
pub open spec fn step(
    code: Seq<Instruction>,
    line: Seq<char>,
    s1: (int, int),
    s2: (int, int),
) -> bool {
    &&& 0 <= s1.0 < code.len()
    &&& match code[s1.0] {
        Instruction::Literal(c) => {
            &&& 0 <= s1.1 < line.len()
            &&& line[s1.1] == c
            &&& s2 == ((s1.0 + 1) as int, (s1.1 + 1) as int)
        },
        Instruction::Accept => false,
        Instruction::Jump(t) => s2 == (t as int, s1.1),
        Instruction::Branch(t1, t2) => s2 == (t1 as int, s1.1) || s2 == (t2 as int, s1.1),
    }
}

/// A non-empty run of consecutive steps whose last state sits on an
/// `Accept` instruction.
pub open spec fn is_accepting_path(
    code: Seq<Instruction>,
    line: Seq<char>,
    p: Seq<(int, int)>,
) -> bool {
    &&& p.len() >= 1
    &&& forall|i: int| 0 <= i < p.len() - 1 ==> step(code, line, #[trigger] p[i], p[i + 1])
    &&& 0 <= p.last().0 < code.len()
    &&& code[p.last().0] is Accept
}

/// The program accepts from the given program counter and input position:
/// some finite execution path reaches `Accept`. Input left unconsumed at
/// that point is irrelevant (anchored prefix match).
pub open spec fn accepts(code: Seq<Instruction>, line: Seq<char>, pc: int, sp: int) -> bool {
    exists|p: Seq<(int, int)>| is_accepting_path(code, line, p) && p[0] == (pc, sp)
}

/// Prepending a state that steps to a path's head keeps the path accepting.
proof fn lemma_path_cons(code: Seq<Instruction>, line: Seq<char>, s: (int, int), p: Seq<(int, int)>)
    requires
        is_accepting_path(code, line, p),
        step(code, line, s, p[0]),
    ensures
        is_accepting_path(code, line, seq![s] + p),
        (seq![s] + p)[0] == s,
{
    let q = seq![s] + p;
    assert(q.last() == p.last());
    assert forall|i: int| 0 <= i < q.len() - 1 implies step(code, line, #[trigger] q[i], q[i + 1]) by {
        if i == 0 {
            assert(q[0] == s && q[1] == p[0]);
        } else {
            assert(q[i] == p[i - 1] && q[i + 1] == p[i]);
            assert(step(code, line, p[i - 1], p[i - 1 + 1]));
        }
    }
}

/// A path of length at least two stays accepting after its head is dropped.
proof fn lemma_path_uncons(code: Seq<Instruction>, line: Seq<char>, p: Seq<(int, int)>)
    requires
        is_accepting_path(code, line, p),
        p.len() >= 2,
    ensures
        is_accepting_path(code, line, p.drop_first()),
        p.drop_first()[0] == p[1],
        step(code, line, p[0], p[1]),
{
    let q = p.drop_first();
    assert(q.last() == p.last());
    assert forall|i: int| 0 <= i < q.len() - 1 implies step(code, line, #[trigger] q[i], q[i + 1]) by {
        assert(q[i] == p[i + 1] && q[i + 1] == p[i + 1 + 1]);
        assert(step(code, line, p[i + 1], p[i + 1 + 1]));
    }
    assert(step(code, line, p[0], p[1]));
}

/// Every state of an accepting path carries an in-range program counter.
proof fn lemma_path_states_valid(code: Seq<Instruction>, line: Seq<char>, p: Seq<(int, int)>)
    requires
        is_accepting_path(code, line, p),
    ensures
        forall|i: int| 0 <= i < p.len() ==> 0 <= (#[trigger] p[i]).0 < code.len(),
{
    assert forall|i: int| 0 <= i < p.len() implies 0 <= (#[trigger] p[i]).0 < code.len() by {
        if i < p.len() - 1 {
            assert(step(code, line, p[i], p[i + 1]));
        } else {
            assert(p[i] == p.last());
        }
    }
}

/// Input positions never decrease along an accepting path.
proof fn lemma_path_sp_monotonic(code: Seq<Instruction>, line: Seq<char>, p: Seq<(int, int)>)
    requires
        is_accepting_path(code, line, p),
    ensures
        forall|i: int| 0 <= i < p.len() ==> p[0].1 <= (#[trigger] p[i]).1,
    decreases p.len(),
{
    if p.len() >= 2 {
        lemma_path_uncons(code, line, p);
        lemma_path_sp_monotonic(code, line, p.drop_first());
        assert forall|i: int| 0 <= i < p.len() implies p[0].1 <= (#[trigger] p[i]).1 by {
            if i >= 1 {
                assert(p.drop_first()[i - 1] == p[i]);
                assert(p.drop_first()[0].1 <= p.drop_first()[i - 1].1);
                assert(step(code, line, p[0], p[1]));
            }
        }
    }
}

/// Acceptance unfolds along the instruction under the program counter: an
/// `Accept` accepts outright, a `Jump` accepts as its target does, a
/// `Branch` as either target does, and a `Literal` demands its character
/// under the input position and acceptance one step further.
pub proof fn lemma_accepts_unfold(code: Seq<Instruction>, line: Seq<char>, pc: int, sp: int)
    requires
        0 <= pc < code.len(),
    ensures
        accepts(code, line, pc, sp) == match code[pc] {
            Instruction::Literal(c) => 0 <= sp < line.len() && line[sp] == c && accepts(
                code,
                line,
                pc + 1,
                sp + 1,
            ),
            Instruction::Accept => true,
            Instruction::Jump(t) => accepts(code, line, t as int, sp),
            Instruction::Branch(t1, t2) => accepts(code, line, t1 as int, sp) || accepts(
                code,
                line,
                t2 as int,
                sp,
            ),
        },
{
    let s = (pc, sp);
    if code[pc] is Accept {
        let p = seq![s];
        assert(is_accepting_path(code, line, p) && p[0] == (pc, sp));
    } else {
        // Forward: a path from (pc, sp) passes through a step successor.
        if accepts(code, line, pc, sp) {
            let p = choose|p: Seq<(int, int)>|
                is_accepting_path(code, line, p) && p[0] == (pc, sp);
            assert(p.len() != 1) by {
                if p.len() == 1 {
                    assert(p.last() == p[0]);
                }
            }
            lemma_path_uncons(code, line, p);
            assert(accepts(code, line, p[1].0, p[1].1)) by {
                let q = p.drop_first();
                assert(is_accepting_path(code, line, q) && q[0] == (p[1].0, p[1].1));
            }
            match code[pc] {
                Instruction::Literal(c) => {
                    assert(p[1] == ((pc + 1) as int, (sp + 1) as int));
                },
                Instruction::Accept => {},
                Instruction::Jump(t) => {
                    assert(p[1] == (t as int, sp));
                },
                Instruction::Branch(t1, t2) => {
                    assert(p[1] == (t1 as int, sp) || p[1] == (t2 as int, sp));
                },
            }
        }
        // Backward: acceptance of a step successor extends to (pc, sp).
        match code[pc] {
            Instruction::Literal(c) => {
                if 0 <= sp < line.len() && line[sp] == c && accepts(code, line, pc + 1, sp + 1) {
                    let r = choose|r: Seq<(int, int)>|
                        is_accepting_path(code, line, r) && r[0] == (pc + 1, sp + 1);
                    assert(step(code, line, s, r[0]));
                    lemma_path_cons(code, line, s, r);
                    assert(accepts(code, line, pc, sp));
                }
            },
            Instruction::Accept => {},
            Instruction::Jump(t) => {
                if accepts(code, line, t as int, sp) {
                    let r = choose|r: Seq<(int, int)>|
                        is_accepting_path(code, line, r) && r[0] == (t as int, sp);
                    assert(step(code, line, s, r[0]));
                    lemma_path_cons(code, line, s, r);
                    assert(accepts(code, line, pc, sp));
                }
            },
            Instruction::Branch(t1, t2) => {
                if accepts(code, line, t1 as int, sp) {
                    let r = choose|r: Seq<(int, int)>|
                        is_accepting_path(code, line, r) && r[0] == (t1 as int, sp);
                    assert(step(code, line, s, r[0]));
                    lemma_path_cons(code, line, s, r);
                    assert(accepts(code, line, pc, sp));
                } else if accepts(code, line, t2 as int, sp) {
                    let r = choose|r: Seq<(int, int)>|
                        is_accepting_path(code, line, r) && r[0] == (t2 as int, sp);
                    assert(step(code, line, s, r[0]));
                    lemma_path_cons(code, line, s, r);
                    assert(accepts(code, line, pc, sp));
                }
            },
        }
    }
}

/// No two states of the path share a program counter within the generation
/// at input position `sp`.
pub open spec fn gen_distinct(p: Seq<(int, int)>, sp: int) -> bool {
    forall|i: int, j: int|
        0 <= i < j < p.len() && (#[trigger] p[i]).1 == sp && (#[trigger] p[j]).1 == sp ==> p[i].0
            != p[j].0
}

/// No state of the path within the generation at input position `sp` sits
/// on a marked program counter.
pub open spec fn avoids(p: Seq<(int, int)>, sp: int, seen: Seq<bool>) -> bool {
    forall|i: int|
        0 <= i < p.len() && (#[trigger] p[i]).1 == sp && 0 <= p[i].0 < seen.len() ==> !seen[p[i].0]
}

/// Acceptance through a path that, within the current generation, visits no
/// marked program counter and no program counter twice. The depth-first
/// search prunes exactly the paths excluded here.
pub open spec fn accepts_avoiding(
    code: Seq<Instruction>,
    line: Seq<char>,
    pc: int,
    sp: int,
    seen: Seq<bool>,
) -> bool {
    exists|p: Seq<(int, int)>|
        is_accepting_path(code, line, p) && p[0] == (pc, sp) && gen_distinct(p, sp) && avoids(
            p,
            sp,
            seen,
        )
}

/// Any accepting path can be shortened to one that repeats no program
/// counter within the generation at `sp`: cutting out a revisit removes a
/// zero-progress cycle and keeps the path accepting.
proof fn lemma_gen_distinct_path(
    code: Seq<Instruction>,
    line: Seq<char>,
    p: Seq<(int, int)>,
    sp: int,
)
    requires
        is_accepting_path(code, line, p),
    ensures
        exists|q: Seq<(int, int)>|
            is_accepting_path(code, line, q) && q[0] == p[0] && gen_distinct(q, sp),
    decreases p.len(),
{
    if gen_distinct(p, sp) {
        assert(is_accepting_path(code, line, p) && p[0] == p[0] && gen_distinct(p, sp));
    } else {
        let (i, j) = choose|i: int, j: int|
            0 <= i < j < p.len() && (#[trigger] p[i]).1 == sp && (#[trigger] p[j]).1 == sp
                && p[i].0 == p[j].0;
        assert(p[i] == p[j]);
        let q = p.subrange(0, i) + p.subrange(j, p.len() as int);
        assert(q.len() == p.len() - (j - i));
        assert(q.last() == p.last());
        assert(q[0] == p[0]) by {
            if i == 0 {
                assert(q[0] == p[j]);
            }
        }
        assert forall|k: int| 0 <= k < q.len() - 1 implies step(code, line, #[trigger] q[k], q[k + 1]) by {
            if k + 1 < i {
                assert(q[k] == p[k] && q[k + 1] == p[k + 1]);
                assert(step(code, line, p[k], p[k + 1]));
            } else if k + 1 == i {
                assert(q[k] == p[k] && q[k + 1] == p[j]);
                assert(p[j] == p[i]);
                assert(step(code, line, p[k], p[k + 1]));
            } else {
                assert(q[k] == p[j + (k - i)] && q[k + 1] == p[j + (k - i) + 1]);
                assert(step(code, line, p[j + (k - i)], p[j + (k - i) + 1]));
            }
        }
        assert(is_accepting_path(code, line, q));
        lemma_gen_distinct_path(code, line, q, sp);
        let r = choose|r: Seq<(int, int)>|
            is_accepting_path(code, line, r) && r[0] == q[0] && gen_distinct(r, sp);
        assert(is_accepting_path(code, line, r) && r[0] == p[0] && gen_distinct(r, sp));
    }
}

/// With nothing marked, pruned acceptance and plain acceptance coincide.
proof fn lemma_accepts_iff_avoiding(
    code: Seq<Instruction>,
    line: Seq<char>,
    pc: int,
    sp: int,
    seen: Seq<bool>,
)
    requires
        forall|i: int| 0 <= i < seen.len() ==> !(#[trigger] seen[i]),
    ensures
        accepts_avoiding(code, line, pc, sp, seen) == accepts(code, line, pc, sp),
{
    if accepts(code, line, pc, sp) {
        let p = choose|p: Seq<(int, int)>|
            is_accepting_path(code, line, p) && p[0] == (pc, sp);
        lemma_gen_distinct_path(code, line, p, sp);
        let q = choose|q: Seq<(int, int)>|
            is_accepting_path(code, line, q) && q[0] == p[0] && gen_distinct(q, sp);
        assert(avoids(q, sp, seen));
        assert(is_accepting_path(code, line, q) && q[0] == (pc, sp) && gen_distinct(q, sp)
            && avoids(q, sp, seen));
    }
}

/// Pruned acceptance unfolds along the instruction under the program
/// counter, marking the program counter before the generation continues.
/// A `Literal` opens a fresh generation, so plain acceptance resumes.
proof fn lemma_avoiding_unfold(
    code: Seq<Instruction>,
    line: Seq<char>,
    pc: int,
    sp: int,
    seen: Seq<bool>,
)
    requires
        0 <= pc < code.len(),
        seen.len() == code.len(),
    ensures
        accepts_avoiding(code, line, pc, sp, seen) == (!seen[pc] && match code[pc] {
            Instruction::Literal(c) => 0 <= sp < line.len() && line[sp] == c && accepts(
                code,
                line,
                pc + 1,
                sp + 1,
            ),
            Instruction::Accept => true,
            Instruction::Jump(t) => accepts_avoiding(
                code,
                line,
                t as int,
                sp,
                seen.update(pc, true),
            ),
            Instruction::Branch(t1, t2) => accepts_avoiding(
                code,
                line,
                t1 as int,
                sp,
                seen.update(pc, true),
            ) || accepts_avoiding(code, line, t2 as int, sp, seen.update(pc, true)),
        }),
{
    let s = (pc, sp);
    let marked = seen.update(pc, true);
    // Forward: a pruned witness yields the unmarked head and a successor
    // witness.
    if accepts_avoiding(code, line, pc, sp, seen) {
        let p = choose|p: Seq<(int, int)>|
            is_accepting_path(code, line, p) && p[0] == (pc, sp) && gen_distinct(p, sp) && avoids(
                p,
                sp,
                seen,
            );
        assert(!seen[pc]);
        if !(code[pc] is Accept) {
            assert(p.len() != 1) by {
                if p.len() == 1 {
                    assert(p.last() == p[0]);
                }
            }
            lemma_path_uncons(code, line, p);
            lemma_path_states_valid(code, line, p);
            let q = p.drop_first();
            assert forall|i: int| 0 <= i < q.len() implies q[i] == p[i + 1] by {}
            assert(gen_distinct(q, sp)) by {
                assert forall|i: int, j: int|
                    0 <= i < j < q.len() && (#[trigger] q[i]).1 == sp && (#[trigger] q[j]).1 == sp
                    implies q[i].0 != q[j].0 by {
                    assert(q[i] == p[i + 1] && q[j] == p[j + 1]);
                }
            }
            assert(avoids(q, sp, marked)) by {
                assert forall|i: int|
                    0 <= i < q.len() && (#[trigger] q[i]).1 == sp && 0 <= q[i].0 < marked.len()
                    implies !marked[q[i].0] by {
                    assert(q[i] == p[i + 1]);
                    assert(!seen[p[i + 1].0]);
                    assert(p[0].1 == sp && p[i + 1].1 == sp);
                    assert(p[0].0 != p[i + 1].0);
                }
            }
            match code[pc] {
                Instruction::Literal(c) => {
                    assert(accepts(code, line, p[1].0, p[1].1));
                },
                Instruction::Accept => {},
                Instruction::Jump(t) => {
                    assert(q[0] == (t as int, sp));
                    assert(accepts_avoiding(code, line, t as int, sp, marked));
                },
                Instruction::Branch(t1, t2) => {
                    if p[1] == (t1 as int, sp) {
                        assert(accepts_avoiding(code, line, t1 as int, sp, marked));
                    } else {
                        assert(accepts_avoiding(code, line, t2 as int, sp, marked));
                    }
                },
            }
        }
    }
    // Backward: rebuild a pruned witness from the head and a successor
    // witness.
    if !seen[pc] {
        match code[pc] {
            Instruction::Accept => {
                let p = seq![s];
                assert(is_accepting_path(code, line, p) && p[0] == (pc, sp) && gen_distinct(p, sp)
                    && avoids(p, sp, seen));
            },
            Instruction::Literal(c) => {
                if 0 <= sp < line.len() && line[sp] == c && accepts(code, line, pc + 1, sp + 1) {
                    let r = choose|r: Seq<(int, int)>|
                        is_accepting_path(code, line, r) && r[0] == (pc + 1, sp + 1);
                    lemma_path_sp_monotonic(code, line, r);
                    assert(step(code, line, s, r[0]));
                    lemma_path_cons(code, line, s, r);
                    let p = seq![s] + r;
                    assert forall|i: int| 1 <= i < p.len() implies (#[trigger] p[i]).1 != sp by {
                        assert(p[i] == r[i - 1]);
                        assert(r[0].1 <= r[i - 1].1);
                    }
                    assert(gen_distinct(p, sp));
                    assert(avoids(p, sp, seen));
                    assert(is_accepting_path(code, line, p) && p[0] == (pc, sp));
                }
            },
            Instruction::Jump(t) => {
                if accepts_avoiding(code, line, t as int, sp, marked) {
                    lemma_avoiding_extend(code, line, pc, sp, seen, (t as int, sp));
                }
            },
            Instruction::Branch(t1, t2) => {
                if accepts_avoiding(code, line, t1 as int, sp, marked) {
                    lemma_avoiding_extend(code, line, pc, sp, seen, (t1 as int, sp));
                } else if accepts_avoiding(code, line, t2 as int, sp, marked) {
                    lemma_avoiding_extend(code, line, pc, sp, seen, (t2 as int, sp));
                }
            },
        }
    }
}

/// A pruned witness from an epsilon successor, avoiding the head's mark,
/// extends backwards over the head.
proof fn lemma_avoiding_extend(
    code: Seq<Instruction>,
    line: Seq<char>,
    pc: int,
    sp: int,
    seen: Seq<bool>,
    nxt: (int, int),
)
    requires
        0 <= pc < code.len(),
        seen.len() == code.len(),
        !seen[pc],
        step(code, line, (pc, sp), nxt),
        nxt.1 == sp,
        accepts_avoiding(code, line, nxt.0, nxt.1, seen.update(pc, true)),
    ensures
        accepts_avoiding(code, line, pc, sp, seen),
{
    let s = (pc, sp);
    let marked = seen.update(pc, true);
    let q = choose|q: Seq<(int, int)>|
        is_accepting_path(code, line, q) && q[0] == (nxt.0, nxt.1) && gen_distinct(q, sp)
            && avoids(q, sp, marked);
    assert(q[0] == nxt);
    lemma_path_cons(code, line, s, q);
    lemma_path_states_valid(code, line, q);
    let p = seq![s] + q;
    assert forall|i: int| 1 <= i < p.len() implies p[i] == q[i - 1] by {}
    assert(gen_distinct(p, sp)) by {
        assert forall|i: int, j: int|
            0 <= i < j < p.len() && (#[trigger] p[i]).1 == sp && (#[trigger] p[j]).1 == sp
            implies p[i].0 != p[j].0 by {
            if i == 0 {
                assert(p[j] == q[j - 1]);
                assert(0 <= q[j - 1].0 < code.len());
                assert(!marked[q[j - 1].0]);
            } else {
                assert(p[i] == q[i - 1] && p[j] == q[j - 1]);
            }
        }
    }
    assert(avoids(p, sp, seen)) by {
        assert forall|i: int|
            0 <= i < p.len() && (#[trigger] p[i]).1 == sp && 0 <= p[i].0 < seen.len()
            implies !seen[p[i].0] by {
            if i >= 1 {
                assert(p[i] == q[i - 1]);
                assert(!marked[q[i - 1].0]);
            }
        }
    }
    assert(is_accepting_path(code, line, p) && p[0] == (pc, sp));
}

/// The number of unmarked entries of a marker array; the termination
/// measure of one closure generation.
pub open spec fn num_unmarked(s: Seq<bool>) -> int
    decreases s.len(),
{
    if s.len() <= 0 {
        0
    } else {
        num_unmarked(s.drop_last()) + if s.last() {
            0int
        } else {
            1int
        }
    }
}

proof fn lemma_num_unmarked_bounds(s: Seq<bool>)
    ensures
        0 <= num_unmarked(s) <= s.len(),
    decreases s.len(),
{
    if s.len() > 0 {
        lemma_num_unmarked_bounds(s.drop_last());
    }
}

proof fn lemma_num_unmarked_update(s: Seq<bool>, i: int)
    requires
        0 <= i < s.len(),
        !s[i],
    ensures
        num_unmarked(s.update(i, true)) == num_unmarked(s) - 1,
    decreases s.len(),
{
    let t = s.update(i, true);
    if i == s.len() - 1 {
        assert(t.drop_last() =~= s.drop_last());
    } else {
        assert(t.drop_last() =~= s.drop_last().update(i, true));
        assert(t.last() == s.last());
        lemma_num_unmarked_update(s.drop_last(), i);
    }
}

/// A fresh all-unmarked marker array of the given length.
fn make_falses(n: usize) -> (r: Vec<bool>)
    ensures
        r@.len() == n,
        forall|i: int| 0 <= i < n ==> !(#[trigger] r@[i]),
{
    let mut r: Vec<bool> = Vec::new();
    while r.len() < n
        invariant
            r@.len() <= n,
            forall|i: int| 0 <= i < r@.len() ==> !(#[trigger] r@[i]),
        decreases n - r@.len(),
    {
        r.push(false);
    }
    r
}

/// A plain copy of a marker array.
fn copy_bools(v: &Vec<bool>) -> (r: Vec<bool>)
    ensures
        r@ == v@,
{
    let mut r: Vec<bool> = Vec::new();
    let mut i: usize = 0;
    while i < v.len()
        invariant
            i <= v@.len(),
            r@ == v@.subrange(0, i as int),
        decreases v@.len() - i,
    {
        r.push(v[i]);
        proof {
            assert(r@ =~= v@.subrange(0, i + 1));
        }
        i = i + 1;
    }
    proof {
        assert(r@ =~= v@);
    }
    r
}

/// The recursive core of the depth-first strategy: an exhaustive
/// backtracking search, exploring the first branch target fully before the
/// second, with no memoization across alternatives — intentionally the
/// naive, worst-case exponential algorithm. The only paths pruned are those
/// that revisit a program counter without having consumed input since, a
/// zero-progress cycle that can never contribute an acceptance; the pruning
/// is what bounds the recursion.
fn dfs(insts: &Vec<Instruction>, line: &Vec<char>, pc: usize, sp: usize, seen: Vec<bool>) -> (r:
    Result<bool, EvalError>)
    requires
        seen@.len() == insts@.len(),
        sp <= line@.len(),
        code_wf(insts@) ==> (pc as int) < insts@.len(),
    ensures
        r matches Ok(b) ==> b == accepts_avoiding(insts@, line@, pc as int, sp as int, seen@),
        code_wf(insts@) ==> r is Ok,
    decreases line@.len() - sp, num_unmarked(seen@),
{
    let n = insts.len();
    if pc >= n {
        // reachable only on a malformed program
        return Err(EvalError::PcOutOfRange);
    }
    proof {
        lemma_avoiding_unfold(insts@, line@, pc as int, sp as int, seen@);
    }
    if seen[pc] {
        return Ok(false);
    }
    let ghost seen0 = seen@;
    let mut seen = seen;
    seen[pc] = true;
    proof {
        lemma_num_unmarked_update(seen0, pc as int);
        lemma_num_unmarked_bounds(seen@);
    }
    match insts[pc] {
        Instruction::Accept => Ok(true),
        Instruction::Literal(c) => {
            if sp < line.len() && line[sp] == c {
                let fresh = make_falses(n);
                proof {
                    lemma_accepts_iff_avoiding(
                        insts@,
                        line@,
                        pc + 1,
                        sp + 1,
                        fresh@,
                    );
                    if code_wf(insts@) {
                        assert(insts@.last() is Accept);
                        assert(insts@[n - 1] is Accept);
                    }
                }
                dfs(insts, line, pc + 1, sp + 1, fresh)
            } else {
                Ok(false)
            }
        },
        Instruction::Jump(t) => dfs(insts, line, t, sp, seen),
        Instruction::Branch(t1, t2) => {
            let seen2 = copy_bools(&seen);
            let r1 = match dfs(insts, line, t1, sp, seen2) {
                Ok(b) => b,
                Err(e) => {
                    return Err(e);
                },
            };
            if r1 {
                Ok(true)
            } else {
                dfs(insts, line, t2, sp, seen)
            }
        },
    }
}

/// The depth-first strategy: the result is the acceptance of the program.
fn eval_depth(insts: &Vec<Instruction>, line: &Vec<char>) -> (r: Result<bool, EvalError>)
    ensures
        r matches Ok(b) ==> b == accepts(insts@, line@, 0, 0),
        code_wf(insts@) ==> r is Ok,
{
    let seen = make_falses(insts.len());
    proof {
        lemma_accepts_iff_avoiding(insts@, line@, 0, 0, seen@);
    }
    dfs(insts, line, 0, 0, seen)
}

/// The integer `t` occurs in the list.
pub open spec fn in_list(s: Seq<usize>, t: int) -> bool {
    exists|k: int| 0 <= k < s.len() && (#[trigger] s[k]) as int == t
}

proof fn lemma_in_list_push(s: Seq<usize>, x: usize, t: int)
    ensures
        in_list(s.push(x), t) == (in_list(s, t) || x as int == t),
{
    let g = s.push(x);
    if in_list(g, t) {
        let k = choose|k: int| 0 <= k < g.len() && (#[trigger] g[k]) as int == t;
        if k < s.len() {
            assert(g[k] == s[k]);
        } else {
            assert(g[k] == x);
        }
    }
    if in_list(s, t) {
        let k = choose|k: int| 0 <= k < s.len() && (#[trigger] s[k]) as int == t;
        assert(g[k] == s[k]);
    }
    if x as int == t {
        assert(g[s.len() as int] == x);
    }
}

proof fn lemma_in_list_drop_last(s: Seq<usize>, t: int)
    requires
        in_list(s, t),
        s.len() > 0,
    ensures
        in_list(s.drop_last(), t) || s.last() as int == t,
{
    let k = choose|k: int| 0 <= k < s.len() && (#[trigger] s[k]) as int == t;
    if k < s.len() - 1 {
        assert(s.drop_last()[k] == s[k]);
    }
}

/// Some program counter of the list accepts at input position `sp`.
pub open spec fn some_pc_accepts(
    code: Seq<Instruction>,
    line: Seq<char>,
    pcs: Seq<usize>,
    sp: int,
) -> bool {
    exists|k: int|
        0 <= k < pcs.len() && accepts(code, line, (#[trigger] pcs[k]) as int, sp)
}

/// A marked or queued program counter.
spec fn reachable_mark(visited: Seq<bool>, work: Seq<usize>, t: int) -> bool {
    (0 <= t < visited.len() && visited[t]) || in_list(work, t)
}

/// A visited program counter has been fully processed: it is no `Accept`
/// (that would have ended the run), a `Literal` is recorded as a candidate,
/// and every epsilon successor is itself marked or still queued.
spec fn closed_at(
    code: Seq<Instruction>,
    visited: Seq<bool>,
    work: Seq<usize>,
    cands: Seq<usize>,
    q: int,
) -> bool {
    match code[q] {
        Instruction::Accept => false,
        Instruction::Literal(_) => in_list(cands, q),
        Instruction::Jump(t) => reachable_mark(visited, work, t as int),
        Instruction::Branch(t1, t2) => reachable_mark(visited, work, t1 as int) && reachable_mark(
            visited,
            work,
            t2 as int,
        ),
    }
}

/// Once the worklist is drained, any acceptance from a visited program
/// counter must pass through a recorded literal candidate that consumes the
/// character under the current input position.
proof fn lemma_closed_visited(
    code: Seq<Instruction>,
    line: Seq<char>,
    sp: int,
    visited: Seq<bool>,
    cands: Seq<usize>,
    p: Seq<(int, int)>,
)
    requires
        visited.len() == code.len(),
        forall|q: int|
            0 <= q < code.len() && visited[q] ==> closed_at(
                code,
                visited,
                Seq::<usize>::empty(),
                cands,
                q,
            ),
        is_accepting_path(code, line, p),
        p[0].1 == sp,
        0 <= p[0].0 < code.len(),
        visited[p[0].0],
    ensures
        exists|j: int|
            0 <= j < cands.len() && (((#[trigger] cands[j]) as int) < code.len()) && (code[
                cands[j] as int
            ] matches Instruction::Literal(c) && 0 <= sp < line.len() && line[sp] == c && accepts(
                code,
                line,
                cands[j] as int + 1,
                sp + 1,
            )),
    decreases p.len(),
{
    let pc = p[0].0;
    assert(closed_at(code, visited, Seq::<usize>::empty(), cands, pc));
    assert(!(code[pc] is Accept));
    assert(p.len() != 1) by {
        if p.len() == 1 {
            assert(p.last() == p[0]);
        }
    }
    lemma_path_uncons(code, line, p);
    let q = p.drop_first();
    match code[pc] {
        Instruction::Accept => {},
        Instruction::Literal(c) => {
            let j = choose|j: int| 0 <= j < cands.len() && (#[trigger] cands[j]) as int == pc;
            assert(p[1] == (pc + 1, sp + 1));
            assert(accepts(code, line, pc + 1, sp + 1));
            assert(code[cands[j] as int] matches Instruction::Literal(cc) && line[sp] == cc
                && accepts(code, line, cands[j] as int + 1, sp + 1));
        },
        Instruction::Jump(t) => {
            assert(p[1] == (t as int, sp));
            assert(!in_list(Seq::<usize>::empty(), t as int));
            assert(0 <= t < visited.len() && visited[t as int]);
            lemma_closed_visited(code, line, sp, visited, cands, q);
        },
        Instruction::Branch(t1, t2) => {
            assert(!in_list(Seq::<usize>::empty(), t1 as int));
            assert(!in_list(Seq::<usize>::empty(), t2 as int));
            if p[1] == (t1 as int, sp) {
                assert(visited[t1 as int]);
            } else {
                assert(p[1] == (t2 as int, sp));
                assert(visited[t2 as int]);
            }
            lemma_closed_visited(code, line, sp, visited, cands, q);
        },
    }
}

/// The breadth-first strategy: per input position, the epsilon closure of
/// the set of live program counters is computed with a visited marker that
/// admits each program counter once; literal candidates seed the next
/// generation; reaching `Accept` during closure ends the run at once. Work
/// is bounded by program length times input length. The result is the
/// acceptance of the program.
fn eval_width(insts: &Vec<Instruction>, line: &Vec<char>) -> (r: Result<bool, EvalError>)
    ensures
        r matches Ok(b) ==> b == accepts(insts@, line@, 0, 0),
        code_wf(insts@) ==> r is Ok,
{
    let ghost goal = accepts(insts@, line@, 0, 0);
    let n = insts.len();
    let mut current: Vec<usize> = Vec::new();
    current.push(0);
    let mut sp: usize = 0;
    proof {
        assert(current@[0] == 0usize);
        if goal {
            assert(accepts(insts@, line@, current@[0] as int, 0));
        }
    }
    loop
        invariant
            n == insts@.len(),
            sp <= line@.len(),
            goal == accepts(insts@, line@, 0, 0),
            goal == some_pc_accepts(insts@, line@, current@, sp as int),
            code_wf(insts@) ==> forall|k: int|
                0 <= k < current@.len() ==> (((#[trigger] current@[k]) as int) < n),
        decreases line@.len() - sp,
    {
        let mut visited = make_falses(n);
        let ghost cur0 = current@;
        let mut work = current;
        let mut cands: Vec<usize> = Vec::new();
        proof {
            assert(work@ == cur0);
            if goal {
                let k = choose|k: int|
                    0 <= k < cur0.len() && accepts(insts@, line@, (#[trigger] cur0[k]) as int, sp as int);
                assert(in_list(work@, cur0[k] as int));
                assert(reachable_mark(visited@, work@, cur0[k] as int) && accepts(
                    insts@,
                    line@,
                    cur0[k] as int,
                    sp as int,
                ));
            }
        }
        while work.len() > 0
            invariant
                n == insts@.len(),
                sp <= line@.len(),
                visited@.len() == n,
                goal == accepts(insts@, line@, 0, 0),
                forall|k: int|
                    0 <= k < work@.len() ==> (accepts(
                        insts@,
                        line@,
                        (#[trigger] work@[k]) as int,
                        sp as int,
                    ) ==> goal),
                forall|k: int|
                    0 <= k < cands@.len() ==> (((#[trigger] cands@[k]) as int) < n)
                        && insts@[cands@[k] as int] is Literal && (accepts(
                        insts@,
                        line@,
                        cands@[k] as int,
                        sp as int,
                    ) ==> goal),
                forall|q: int|
                    0 <= q < n && visited@[q] ==> closed_at(insts@, visited@, work@, cands@, q),
                goal ==> exists|q: int|
                    reachable_mark(visited@, work@, q) && accepts(insts@, line@, q, sp as int),
                code_wf(insts@) ==> forall|k: int|
                    0 <= k < work@.len() ==> (((#[trigger] work@[k]) as int) < n),
            decreases num_unmarked(visited@), work@.len(),
        {
            let ghost prev_work = work@;
            let ghost prev_visited = visited@;
            let pc = match work.pop() {
                Some(pc) => pc,
                None => {
                    proof {
                        assert(false);
                    }
                    return Err(EvalError::PcOutOfRange);
                },
            };
            proof {
                assert(work@ =~= prev_work.drop_last());
                assert(prev_work.last() == pc);
            }
            if pc >= n {
                proof {
                    if code_wf(insts@) {
                        assert((prev_work[prev_work.len() - 1] as int) < n);
                    }
                }
                return Err(EvalError::PcOutOfRange);
            }
            if visited[pc] {
                proof {
                    lemma_work_shrunk(insts@, prev_visited, prev_work, cands@, n as int);
                    if goal {
                        let q = choose|q: int|
                            reachable_mark(prev_visited, prev_work, q) && accepts(
                                insts@,
                                line@,
                                q,
                                sp as int,
                            );
                        if in_list(prev_work, q) {
                            lemma_in_list_drop_last(prev_work, q);
                        }
                        assert(reachable_mark(visited@, work@, q));
                    }
                }
            } else {
                proof {
                    lemma_accepts_unfold(insts@, line@, pc as int, sp as int);
                }
                match insts[pc] {
                    Instruction::Accept => {
                        proof {
                            assert(accepts(insts@, line@, pc as int, sp as int));
                            assert(prev_work[prev_work.len() - 1] == pc);
                        }
                        return Ok(true);
                    },
                    Instruction::Literal(_) => {
                        let ghost prev_cands = cands@;
                        visited[pc] = true;
                        cands.push(pc);
                        proof {
                            lemma_num_unmarked_update(prev_visited, pc as int);
                            lemma_num_unmarked_bounds(visited@);
                            assert(cands@.drop_last() =~= prev_cands);
                            assert(cands_before(insts@, pc as int, cands@) == prev_cands);
                            lemma_closure_step(
                                insts@,
                                line@,
                                sp as int,
                                prev_visited,
                                prev_work,
                                visited@,
                                work@,
                                cands@,
                                pc,
                                goal,
                            );
                        }
                    },
                    Instruction::Jump(t) => {
                        visited[pc] = true;
                        work.push(t);
                        proof {
                            lemma_num_unmarked_update(prev_visited, pc as int);
                            lemma_num_unmarked_bounds(visited@);
                            assert(work@ =~= prev_work.drop_last().push(t));
                            lemma_closure_step(
                                insts@,
                                line@,
                                sp as int,
                                prev_visited,
                                prev_work,
                                visited@,
                                work@,
                                cands@,
                                pc,
                                goal,
                            );
                        }
                    },
                    Instruction::Branch(t1, t2) => {
                        visited[pc] = true;
                        work.push(t1);
                        work.push(t2);
                        proof {
                            lemma_num_unmarked_update(prev_visited, pc as int);
                            lemma_num_unmarked_bounds(visited@);
                            assert(work@ =~= prev_work.drop_last().push(t1).push(t2));
                            lemma_closure_step(
                                insts@,
                                line@,
                                sp as int,
                                prev_visited,
                                prev_work,
                                visited@,
                                work@,
                                cands@,
                                pc,
                                goal,
                            );
                        }
                    },
                }
            }
        }
        // The closure is complete: the worklist is drained.
        if sp >= line.len() {
            proof {
                if goal {
                    let q = choose|q: int|
                        reachable_mark(visited@, work@, q) && accepts(insts@, line@, q, sp as int);
                    assert(work@ =~= Seq::<usize>::empty());
                    let p = choose|p: Seq<(int, int)>|
                        is_accepting_path(insts@, line@, p) && p[0] == (q, sp as int);
                    lemma_closed_visited(insts@, line@, sp as int, visited@, cands@, p);
                }
            }
            return Ok(false);
        }
        let ch = line[sp];
        let mut next: Vec<usize> = Vec::new();
        let mut k: usize = 0;
        while k < cands.len()
            invariant
                n == insts@.len(),
                sp < line@.len(),
                ch == line@[sp as int],
                k <= cands@.len(),
                goal == accepts(insts@, line@, 0, 0),
                forall|m: int|
                    0 <= m < cands@.len() ==> (((#[trigger] cands@[m]) as int) < n)
                        && insts@[cands@[m] as int] is Literal && (accepts(
                        insts@,
                        line@,
                        cands@[m] as int,
                        sp as int,
                    ) ==> goal),
                forall|m: int|
                    0 <= m < next@.len() ==> (accepts(
                        insts@,
                        line@,
                        (#[trigger] next@[m]) as int,
                        sp + 1,
                    ) ==> goal),
                forall|j: int|
                    0 <= j < k && (insts@[(#[trigger] cands@[j]) as int] matches Instruction::Literal(c)
                        && c == line@[sp as int]) ==> in_list(next@, cands@[j] as int + 1),
                code_wf(insts@) ==> forall|m: int|
                    0 <= m < next@.len() ==> (((#[trigger] next@[m]) as int) < n),
            decreases cands@.len() - k,
        {
            let c = cands[k];
            let ghost prev_next = next@;
            let fire = match insts[c] {
                Instruction::Literal(d) => d == ch,
                _ => false,
            };
            if fire {
                next.push(c + 1);
                proof {
                    lemma_accepts_unfold(insts@, line@, c as int, sp as int);
                    assert(next@[next@.len() - 1] == c + 1);
                    assert forall|j: int|
                        0 <= j < k + 1 && (insts@[(#[trigger] cands@[j]) as int]
                            matches Instruction::Literal(cc) && cc == line@[sp as int])
                        implies in_list(next@, cands@[j] as int + 1) by {
                        if j < k {
                            lemma_in_list_push(prev_next, (c + 1) as usize, cands@[j] as int + 1);
                        } else {
                            lemma_in_list_push(prev_next, (c + 1) as usize, c as int + 1);
                        }
                    }
                    if code_wf(insts@) {
                        assert(insts@[n - 1] is Accept);
                    }
                }
            }
            k = k + 1;
        }
        proof {
            if goal {
                let q = choose|q: int|
                    reachable_mark(visited@, work@, q) && accepts(insts@, line@, q, sp as int);
                assert(work@ =~= Seq::<usize>::empty());
                let p = choose|p: Seq<(int, int)>|
                    is_accepting_path(insts@, line@, p) && p[0] == (q, sp as int);
                lemma_closed_visited(insts@, line@, sp as int, visited@, cands@, p);
                let j = choose|j: int|
                    0 <= j < cands@.len() && (((#[trigger] cands@[j]) as int) < n)
                        && (insts@[cands@[j] as int] matches Instruction::Literal(c) && 0 <= sp
                        < line@.len() && line@[sp as int] == c && accepts(
                        insts@,
                        line@,
                        cands@[j] as int + 1,
                        sp + 1,
                    ));
                assert(in_list(next@, cands@[j] as int + 1));
                let m = choose|m: int|
                    0 <= m < next@.len() && (#[trigger] next@[m]) as int == cands@[j] as int + 1;
                assert(accepts(insts@, line@, next@[m] as int, sp + 1));
            }
            if some_pc_accepts(insts@, line@, next@, sp + 1) {
                assert(goal);
            }
        }
        current = next;
        sp = sp + 1;
    }
}

/// After one program counter is taken from the worklist, marked, and its
/// consequences recorded, every closure invariant is restored.
proof fn lemma_closure_step(
    code: Seq<Instruction>,
    line: Seq<char>,
    sp: int,
    prev_visited: Seq<bool>,
    prev_work: Seq<usize>,
    visited: Seq<bool>,
    work: Seq<usize>,
    cands: Seq<usize>,
    pc: usize,
    goal: bool,
)
    requires
        prev_visited.len() == code.len(),
        0 <= (pc as int) < code.len(),
        prev_work.len() > 0,
        prev_work.last() == pc,
        !prev_visited[pc as int],
        !(code[pc as int] is Accept),
        visited == prev_visited.update(pc as int, true),
        // the new worklist extends the popped one with pc's epsilon successors,
        // and cands extends the previous candidates with pc when it is a literal
        match code[pc as int] {
            Instruction::Literal(_) => work == prev_work.drop_last() && cands.len() > 0
                && cands.last() == pc,
            Instruction::Jump(t) => work == prev_work.drop_last().push(t),
            Instruction::Branch(t1, t2) => work == prev_work.drop_last().push(t1).push(t2),
            Instruction::Accept => false,
        },
        // previous invariants
        forall|q: int|
            0 <= q < code.len() && prev_visited[q] ==> closed_at(
                code,
                prev_visited,
                prev_work,
                cands_before(code, pc as int, cands),
                q,
            ),
        goal ==> exists|q: int|
            reachable_mark(prev_visited, prev_work, q) && accepts(code, line, q, sp),
        forall|k: int|
            0 <= k < prev_work.len() ==> (accepts(code, line, (#[trigger] prev_work[k]) as int, sp)
                ==> goal),
    ensures
        forall|q: int| 0 <= q < code.len() && visited[q] ==> closed_at(code, visited, work, cands, q),
        goal ==> exists|q: int| reachable_mark(visited, work, q) && accepts(code, line, q, sp),
        forall|k: int|
            0 <= k < work.len() ==> (accepts(code, line, (#[trigger] work[k]) as int, sp) ==> goal),
{
    lemma_closure_sound(code, line, sp, prev_visited, prev_work, visited, work, cands, pc, goal);
    lemma_closure_closed(code, prev_visited, prev_work, visited, work, cands, pc);
    lemma_closure_complete(code, line, sp, prev_visited, prev_work, visited, work, cands, pc, goal);
}

/// Soundness of the new worklist: acceptance of any queued program counter
/// still implies the overall goal.
proof fn lemma_closure_sound(
    code: Seq<Instruction>,
    line: Seq<char>,
    sp: int,
    prev_visited: Seq<bool>,
    prev_work: Seq<usize>,
    visited: Seq<bool>,
    work: Seq<usize>,
    cands: Seq<usize>,
    pc: usize,
    goal: bool,
)
    requires
        prev_visited.len() == code.len(),
        0 <= (pc as int) < code.len(),
        prev_work.len() > 0,
        prev_work.last() == pc,
        !prev_visited[pc as int],
        !(code[pc as int] is Accept),
        visited == prev_visited.update(pc as int, true),
        match code[pc as int] {
            Instruction::Literal(_) => work == prev_work.drop_last() && cands.len() > 0
                && cands.last() == pc,
            Instruction::Jump(t) => work == prev_work.drop_last().push(t),
            Instruction::Branch(t1, t2) => work == prev_work.drop_last().push(t1).push(t2),
            Instruction::Accept => false,
        },
        forall|k: int|
            0 <= k < prev_work.len() ==> (accepts(code, line, (#[trigger] prev_work[k]) as int, sp)
                ==> goal),
    ensures
        forall|k: int|
            0 <= k < work.len() ==> (accepts(code, line, (#[trigger] work[k]) as int, sp) ==> goal),
{
    let shrunk = prev_work.drop_last();
    lemma_accepts_unfold(code, line, pc as int, sp);
    assert forall|k: int|
        0 <= k < work.len() && accepts(code, line, (#[trigger] work[k]) as int, sp) implies goal by {
        if k < shrunk.len() {
            assert(work[k] == prev_work[k]);
        } else {
            // a pushed successor of pc: acceptance flows back to pc
            match code[pc as int] {
                Instruction::Literal(_) => {},
                Instruction::Jump(t) => {
                    assert(work[k] == t);
                    assert(accepts(code, line, pc as int, sp));
                    assert(prev_work[prev_work.len() - 1] == pc);
                },
                Instruction::Branch(t1, t2) => {
                    assert(work[k] == t1 || work[k] == t2);
                    assert(accepts(code, line, pc as int, sp));
                    assert(prev_work[prev_work.len() - 1] == pc);
                },
                Instruction::Accept => {},
            }
        }
    }
}

/// Closedness: every visited program counter remains fully processed after
/// the step.
proof fn lemma_closure_closed(
    code: Seq<Instruction>,
    prev_visited: Seq<bool>,
    prev_work: Seq<usize>,
    visited: Seq<bool>,
    work: Seq<usize>,
    cands: Seq<usize>,
    pc: usize,
)
    requires
        prev_visited.len() == code.len(),
        0 <= (pc as int) < code.len(),
        prev_work.len() > 0,
        prev_work.last() == pc,
        !prev_visited[pc as int],
        !(code[pc as int] is Accept),
        visited == prev_visited.update(pc as int, true),
        match code[pc as int] {
            Instruction::Literal(_) => work == prev_work.drop_last() && cands.len() > 0
                && cands.last() == pc,
            Instruction::Jump(t) => work == prev_work.drop_last().push(t),
            Instruction::Branch(t1, t2) => work == prev_work.drop_last().push(t1).push(t2),
            Instruction::Accept => false,
        },
        forall|q: int|
            0 <= q < code.len() && prev_visited[q] ==> closed_at(
                code,
                prev_visited,
                prev_work,
                cands_before(code, pc as int, cands),
                q,
            ),
    ensures
        forall|q: int| 0 <= q < code.len() && visited[q] ==> closed_at(code, visited, work, cands, q),
{
    let shrunk = prev_work.drop_last();
    assert forall|q: int| 0 <= q < code.len() && visited[q] implies closed_at(
        code,
        visited,
        work,
        cands,
        q,
    ) by {
        if q == pc as int {
            match code[q] {
                Instruction::Accept => {},
                Instruction::Literal(_) => {
                    assert(cands[cands.len() - 1] == pc);
                    assert(in_list(cands, q));
                },
                Instruction::Jump(t) => {
                    lemma_mark_push(prev_visited, visited, shrunk, work, pc, t as int, code[q]);
                },
                Instruction::Branch(t1, t2) => {
                    lemma_mark_push(prev_visited, visited, shrunk, work, pc, t1 as int, code[q]);
                    lemma_mark_push(prev_visited, visited, shrunk, work, pc, t2 as int, code[q]);
                },
            }
        } else {
            assert(prev_visited[q]);
            assert(closed_at(code, prev_visited, prev_work, cands_before(code, pc as int, cands), q));
            match code[q] {
                Instruction::Accept => {},
                Instruction::Literal(_) => {
                    assert(in_list(cands_before(code, pc as int, cands), q));
                    let k = choose|k: int|
                        0 <= k < cands_before(code, pc as int, cands).len() && (
                        #[trigger] cands_before(code, pc as int, cands)[k]) as int == q;
                    assert(cands[k] as int == q);
                    assert(in_list(cands, q));
                },
                Instruction::Jump(t) => {
                    lemma_mark_transfer(prev_visited, visited, prev_work, work, pc, t as int, code[pc as int]);
                },
                Instruction::Branch(t1, t2) => {
                    lemma_mark_transfer(prev_visited, visited, prev_work, work, pc, t1 as int, code[pc as int]);
                    lemma_mark_transfer(prev_visited, visited, prev_work, work, pc, t2 as int, code[pc as int]);
                },
            }
        }
    }
}

/// Completeness: the accepting witness survives the step, marked or still
/// queued.
proof fn lemma_closure_complete(
    code: Seq<Instruction>,
    line: Seq<char>,
    sp: int,
    prev_visited: Seq<bool>,
    prev_work: Seq<usize>,
    visited: Seq<bool>,
    work: Seq<usize>,
    cands: Seq<usize>,
    pc: usize,
    goal: bool,
)
    requires
        prev_visited.len() == code.len(),
        0 <= (pc as int) < code.len(),
        prev_work.len() > 0,
        prev_work.last() == pc,
        !prev_visited[pc as int],
        !(code[pc as int] is Accept),
        visited == prev_visited.update(pc as int, true),
        match code[pc as int] {
            Instruction::Literal(_) => work == prev_work.drop_last() && cands.len() > 0
                && cands.last() == pc,
            Instruction::Jump(t) => work == prev_work.drop_last().push(t),
            Instruction::Branch(t1, t2) => work == prev_work.drop_last().push(t1).push(t2),
            Instruction::Accept => false,
        },
        goal ==> exists|q: int|
            reachable_mark(prev_visited, prev_work, q) && accepts(code, line, q, sp),
    ensures
        goal ==> exists|q: int| reachable_mark(visited, work, q) && accepts(code, line, q, sp),
{
    let shrunk = prev_work.drop_last();
    if goal {
        let q = choose|q: int|
            reachable_mark(prev_visited, prev_work, q) && accepts(code, line, q, sp);
        if 0 <= q < prev_visited.len() && prev_visited[q] {
            assert(visited[q]);
            assert(reachable_mark(visited, work, q));
        } else {
            lemma_in_list_drop_last(prev_work, q);
            if in_list(shrunk, q) {
                lemma_shrunk_in_work(shrunk, work, q, code[pc as int]);
                assert(reachable_mark(visited, work, q));
            } else {
                assert(q == pc as int);
                assert(visited[q]);
                assert(reachable_mark(visited, work, q));
            }
        }
    }
}

/// The candidate list as it stood before the step: unchanged unless the
/// processed instruction is a literal, which appended itself.
spec fn cands_before(code: Seq<Instruction>, pc: int, cands: Seq<usize>) -> Seq<usize> {
    if code[pc] is Literal {
        cands.drop_last()
    } else {
        cands
    }
}

/// A mark or queue membership for a target freshly pushed onto the
/// worklist.
proof fn lemma_mark_push(
    prev_visited: Seq<bool>,
    visited: Seq<bool>,
    shrunk: Seq<usize>,
    work: Seq<usize>,
    pc: usize,
    t: int,
    inst: Instruction,
)
    requires
        visited == prev_visited.update(pc as int, true),
        0 <= (pc as int) < prev_visited.len(),
        match inst {
            Instruction::Jump(tt) => work == shrunk.push(tt) && tt as int == t,
            Instruction::Branch(t1, t2) => work == shrunk.push(t1).push(t2) && (t1 as int == t
                || t2 as int == t),
            _ => false,
        },
    ensures
        reachable_mark(visited, work, t),
{
    match inst {
        Instruction::Jump(tt) => {
            assert(work[work.len() - 1] == tt);
            assert(in_list(work, t));
        },
        Instruction::Branch(t1, t2) => {
            assert(work[work.len() - 1] == t2);
            assert(work[work.len() - 2] == t1);
            assert(in_list(work, t));
        },
        _ => {},
    }
}

/// A previously marked-or-queued target stays marked or queued after the
/// step: only the processed program counter left the worklist, and it is
/// now marked.
proof fn lemma_mark_transfer(
    prev_visited: Seq<bool>,
    visited: Seq<bool>,
    prev_work: Seq<usize>,
    work: Seq<usize>,
    pc: usize,
    t: int,
    inst_pc: Instruction,
)
    requires
        visited == prev_visited.update(pc as int, true),
        0 <= (pc as int) < prev_visited.len(),
        prev_work.len() > 0,
        prev_work.last() == pc,
        match inst_pc {
            Instruction::Literal(_) => work == prev_work.drop_last(),
            Instruction::Jump(tt) => work == prev_work.drop_last().push(tt),
            Instruction::Branch(t1, t2) => work == prev_work.drop_last().push(t1).push(t2),
            Instruction::Accept => false,
        },
        reachable_mark(prev_visited, prev_work, t),
    ensures
        reachable_mark(visited, work, t),
{
    let shrunk = prev_work.drop_last();
    if 0 <= t < prev_visited.len() && prev_visited[t] {
        assert(visited[t]);
    } else {
        assert(in_list(prev_work, t));
        lemma_in_list_drop_last(prev_work, t);
        if in_list(shrunk, t) {
            lemma_shrunk_in_work(shrunk, work, t, inst_pc);
        } else {
            assert(t == pc as int);
            assert(visited[t]);
        }
    }
}

/// Membership in the shrunken worklist carries over to the new worklist,
/// which extends it by pushes.
proof fn lemma_shrunk_in_work(shrunk: Seq<usize>, work: Seq<usize>, t: int, inst_pc: Instruction)
    requires
        in_list(shrunk, t),
        match inst_pc {
            Instruction::Literal(_) => work == shrunk,
            Instruction::Jump(tt) => work == shrunk.push(tt),
            Instruction::Branch(t1, t2) => work == shrunk.push(t1).push(t2),
            Instruction::Accept => false,
        },
    ensures
        in_list(work, t),
{
    let k = choose|k: int| 0 <= k < shrunk.len() && (#[trigger] shrunk[k]) as int == t;
    match inst_pc {
        Instruction::Literal(_) => {},
        Instruction::Jump(tt) => {
            assert(work[k] == shrunk[k]);
        },
        Instruction::Branch(t1, t2) => {
            assert(work[k] == shrunk[k]);
        },
        Instruction::Accept => {},
    }
}

/// After a visited program counter is popped and skipped, the closure
/// invariants survive: everything it guaranteed through the worklist is
/// guaranteed through its mark.
proof fn lemma_work_shrunk(
    code: Seq<Instruction>,
    visited: Seq<bool>,
    prev_work: Seq<usize>,
    cands: Seq<usize>,
    n: int,
)
    requires
        visited.len() == n,
        n == code.len(),
        prev_work.len() > 0,
        0 <= (prev_work.last() as int) < n,
        visited[prev_work.last() as int],
        forall|q: int|
            0 <= q < n && visited[q] ==> closed_at(code, visited, prev_work, cands, q),
    ensures
        forall|q: int|
            0 <= q < n && visited[q] ==> closed_at(code, visited, prev_work.drop_last(), cands, q),
{
    let shrunk = prev_work.drop_last();
    assert forall|q: int| 0 <= q < n && visited[q] implies closed_at(
        code,
        visited,
        shrunk,
        cands,
        q,
    ) by {
        assert(closed_at(code, visited, prev_work, cands, q));
        match code[q] {
            Instruction::Accept => {},
            Instruction::Literal(_) => {},
            Instruction::Jump(t) => {
                lemma_mark_drop(visited, prev_work, t as int);
            },
            Instruction::Branch(t1, t2) => {
                lemma_mark_drop(visited, prev_work, t1 as int);
                lemma_mark_drop(visited, prev_work, t2 as int);
            },
        }
    }
}

/// Dropping the last worklist entry keeps a target marked-or-queued when
/// that entry is itself marked.
proof fn lemma_mark_drop(visited: Seq<bool>, prev_work: Seq<usize>, t: int)
    requires
        prev_work.len() > 0,
        0 <= (prev_work.last() as int) < visited.len(),
        visited[prev_work.last() as int],
        reachable_mark(visited, prev_work, t),
    ensures
        reachable_mark(visited, prev_work.drop_last(), t),
{
    if !(0 <= t < visited.len() && visited[t]) {
        lemma_in_list_drop_last(prev_work, t);
        if !in_list(prev_work.drop_last(), t) {
            assert(t == prev_work.last() as int);
        }
    }
}

/// Evaluates the program against the input, anchored at the input's start.
/// The result is the acceptance of the program, whichever strategy runs:
/// the two strategies are semantically equivalent. On a well-formed program
/// (every target in range, final instruction `Accept`) no error is
/// possible.
pub fn eval(insts: &Vec<Instruction>, line: &Vec<char>, is_depth: bool) -> (r: Result<
    bool,
    EvalError,
>)
    ensures
        r matches Ok(b) ==> b == accepts(insts@, line@, 0, 0),
        code_wf(insts@) ==> r is Ok,
{
    if is_depth {
        eval_depth(insts, line)
    } else {
        eval_width(insts, line)
    }
}

} // verus!
