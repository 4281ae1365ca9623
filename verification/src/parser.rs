//! The pattern parser: a single left-to-right scan with an escape state, a
//! concatenation buffer, a list of alternatives, and a stack of saved
//! contexts for group nesting. Its result is pinned to an operational
//! specification of the same scan over the pattern's character sequence.

use vstd::prelude::*;

verus! {

/// An error from parsing, carrying the character index (not byte offset) of
/// the offending position where one exists.
#[derive(Debug, Clone, Copy, PartialEq, Eq, Structural)]
pub enum ParseError {
    /// A quantifier or alternation with nothing before it.
    NoPrecedingExpression(usize),
    /// A `)` with no open group.
    UnmatchedRightParen(usize),
    /// End of pattern with a group still open.
    UnclosedGroup,
    /// The pattern denotes nothing at all.
    EmptyExpression,
    /// A `\` followed by a character that is no metacharacter.
    InvalidEscape(usize, char),
}

/// The abstract syntax tree of a pattern. Every quantifier wraps exactly
/// one previously parsed sub-expression.
#[derive(Debug)]
pub enum AST {
    /// One character, matched exactly.
    Literal(char),
    /// Sequential composition of the children, in order.
    Concat(Vec<AST>),
    /// Right-associative choice.
    Alternate(Box<AST>, Box<AST>),
    /// Zero or more repetitions.
    Repeat0(Box<AST>),
    /// One or more repetitions.
    Repeat1(Box<AST>),
    /// Zero or one occurrence.
    Repeat01(Box<AST>),
}

/// The mathematical shape of a syntax tree: the view of `AST`.
pub enum SpecAst {
    Literal(char),
    Concat(Seq<SpecAst>),
    Alternate(Box<SpecAst>, Box<SpecAst>),
    Repeat0(Box<SpecAst>),
    Repeat1(Box<SpecAst>),
    Repeat01(Box<SpecAst>),
}

/// The view of one syntax tree.
pub open spec fn ast_view(a: AST) -> SpecAst
    decreases a,
    via ast_view_decreases
{
    match a {
        AST::Literal(c) => SpecAst::Literal(c),
        AST::Concat(v) => SpecAst::Concat(asts_view(v@)),
        AST::Alternate(a1, a2) => SpecAst::Alternate(
            Box::new(ast_view(*a1)),
            Box::new(ast_view(*a2)),
        ),
        AST::Repeat0(a1) => SpecAst::Repeat0(Box::new(ast_view(*a1))),
        AST::Repeat1(a1) => SpecAst::Repeat1(Box::new(ast_view(*a1))),
        AST::Repeat01(a1) => SpecAst::Repeat01(Box::new(ast_view(*a1))),
    }
}

#[via_fn]
proof fn ast_view_decreases(a: AST) {
    match a {
        AST::Concat(v) => {
            assert(decreases_to!(a => v));
            assert(decreases_to!(v => v@));
        },
        _ => {},
    }
}

/// The views of a sequence of syntax trees, elementwise.
pub open spec fn asts_view(s: Seq<AST>) -> Seq<SpecAst>
    decreases s,
{
    if s.len() == 0 {
        Seq::empty()
    } else {
        asts_view(s.drop_last()).push(ast_view(s.last()))
    }
}

/// The elementwise view has the same length and views each element.
pub broadcast proof fn lemma_asts_view(s: Seq<AST>)
    ensures
        (#[trigger] asts_view(s)).len() == s.len(),
        forall|i: int| 0 <= i < s.len() ==> #[trigger] asts_view(s)[i] == ast_view(s[i]),
    decreases s.len(),
{
    if s.len() > 0 {
        lemma_asts_view(s.drop_last());
        assert forall|i: int| 0 <= i < s.len() implies #[trigger] asts_view(s)[i] == ast_view(
            s[i],
        ) by {
            if i < s.len() - 1 {
                assert(s.drop_last()[i] == s[i]);
            }
        }
    }
}

/// The size of a syntax tree: the number of its nodes, at least one. The
/// termination measure of the code generator's recursion.
pub open spec fn ast_size(a: AST) -> nat
    decreases a,
    via ast_size_decreases
{
    match a {
        AST::Literal(_) => 1,
        AST::Concat(v) => 1 + asts_size(v@),
        AST::Alternate(a1, a2) => 1 + ast_size(*a1) + ast_size(*a2),
        AST::Repeat0(a1) => 1 + ast_size(*a1),
        AST::Repeat1(a1) => 1 + ast_size(*a1),
        AST::Repeat01(a1) => 1 + ast_size(*a1),
    }
}

#[via_fn]
proof fn ast_size_decreases(a: AST) {
    match a {
        AST::Concat(v) => {
            assert(decreases_to!(a => v));
            assert(decreases_to!(v => v@));
        },
        _ => {},
    }
}

/// The total size of a sequence of syntax trees.
pub open spec fn asts_size(s: Seq<AST>) -> nat
    decreases s,
{
    if s.len() == 0 {
        0
    } else {
        asts_size(s.drop_last()) + ast_size(s.last())
    }
}

/// Each element's size is bounded by the total, and a shorter prefix has a
/// smaller total.
pub proof fn lemma_asts_size_elem(s: Seq<AST>, i: int)
    requires
        0 <= i < s.len(),
    ensures
        ast_size(s[i]) <= asts_size(s),
    decreases s.len(),
{
    if i < s.len() - 1 {
        lemma_asts_size_elem(s.drop_last(), i);
        assert(s.drop_last()[i] == s[i]);
    }
}

impl View for AST {
    type V = SpecAst;

    open spec fn view(&self) -> SpecAst {
        ast_view(*self)
    }
}

/// The elementwise view of a sequence extended by one tree.
pub proof fn lemma_asts_view_push(s: Seq<AST>, x: AST)
    ensures
        asts_view(s.push(x)) == asts_view(s).push(ast_view(x)),
{
    lemma_asts_view(s);
    lemma_asts_view(s.push(x));
    assert forall|j: int| 0 <= j < s.push(x).len() implies #[trigger] asts_view(s.push(x))[j]
        == asts_view(s).push(ast_view(x))[j] by {
        if j < s.len() {
            assert(s.push(x)[j] == s[j]);
        } else {
            assert(s.push(x)[j] == x);
        }
    }
    assert(asts_view(s.push(x)) =~= asts_view(s).push(ast_view(x)));
}

/// A character that may follow a backslash.
pub open spec fn is_escapable(c: char) -> bool {
    c == '\\' || c == '(' || c == ')' || c == '|' || c == '+' || c == '*' || c == '?'
}

/// Folds completed alternatives into a right-leaning chain of `Alternate`
/// nodes; a single alternative passes through unchanged, none at all is
/// nothing.
pub open spec fn fold_alts(alts: Seq<SpecAst>) -> Option<SpecAst>
    decreases alts.len(),
{
    if alts.len() == 0 {
        None
    } else if alts.len() == 1 {
        Some(alts[0])
    } else {
        match fold_alts(alts.drop_first()) {
            Some(rest) => Some(SpecAst::Alternate(Box::new(alts[0]), Box::new(rest))),
            None => None,
        }
    }
}

proof fn lemma_fold_alts_some(alts: Seq<SpecAst>)
    requires
        alts.len() > 0,
    ensures
        fold_alts(alts) is Some,
    decreases alts.len(),
{
    if alts.len() > 1 {
        lemma_fold_alts_some(alts.drop_first());
    }
}

/// Folding with the two last alternatives merged into one `Alternate` node
/// folds to the same tree: the identity behind the right-to-left loop.
proof fn lemma_fold_alts_merge(w: Seq<SpecAst>, s: SpecAst, a: SpecAst)
    ensures
        fold_alts(w.push(s).push(a)) == fold_alts(
            w.push(SpecAst::Alternate(Box::new(s), Box::new(a))),
        ),
    decreases w.len(),
{
    let lhs = w.push(s).push(a);
    let rhs = w.push(SpecAst::Alternate(Box::new(s), Box::new(a)));
    if w.len() == 0 {
        assert(lhs.drop_first() =~= seq![a]);
        assert(lhs[0] == s);
        assert(fold_alts(seq![a]) == Some(a));
        assert(rhs.len() == 1);
        assert(rhs[0] == SpecAst::Alternate(Box::new(s), Box::new(a)));
    } else {
        lemma_fold_alts_merge(w.drop_first(), s, a);
        assert(lhs.drop_first() =~= w.drop_first().push(s).push(a));
        assert(rhs.drop_first() =~= w.drop_first().push(
            SpecAst::Alternate(Box::new(s), Box::new(a)),
        ));
        assert(lhs[0] == w[0] && rhs[0] == w[0]);
        lemma_fold_alts_some(w.drop_first().push(s).push(a));
        lemma_fold_alts_some(w.drop_first().push(SpecAst::Alternate(Box::new(s), Box::new(a))));
        match fold_alts(w.drop_first().push(s).push(a)) {
            Some(r1) => {
                assert(fold_alts(lhs) == Some(
                    SpecAst::Alternate(Box::new(w[0]), Box::new(r1)),
                ));
                match fold_alts(w.drop_first().push(SpecAst::Alternate(Box::new(s), Box::new(a)))) {
                    Some(r2) => {
                        assert(r1 == r2);
                        assert(fold_alts(rhs) == Some(
                            SpecAst::Alternate(Box::new(w[0]), Box::new(r2)),
                        ));
                    },
                    None => {
                        assert(false);
                    },
                }
            },
            None => {
                assert(false);
            },
        }
    }
}

/// The scanner's state: the current concatenation buffer, the completed
/// alternatives of the current nesting level, the saved contexts of open
/// groups, and whether a backslash is pending.
#[verifier::ext_equal]
pub struct PState {
    pub cur: Seq<SpecAst>,
    pub alts: Seq<SpecAst>,
    pub stack: Seq<(Seq<SpecAst>, Seq<SpecAst>)>,
    pub escaped: bool,
}

/// The scanner's starting state.
pub open spec fn initial_pstate() -> PState {
    PState { cur: Seq::empty(), alts: Seq::empty(), stack: Seq::empty(), escaped: false }
}

/// Wraps a tree in the quantifier written as `c`.
pub open spec fn quantified(c: char, a: SpecAst) -> SpecAst {
    if c == '+' {
        SpecAst::Repeat1(Box::new(a))
    } else if c == '*' {
        SpecAst::Repeat0(Box::new(a))
    } else {
        SpecAst::Repeat01(Box::new(a))
    }
}

/// One scanner transition on the character `c` at position `i`.
pub open spec fn pstep(st: PState, c: char, i: usize) -> Result<PState, ParseError> {
    if st.escaped {
        if is_escapable(c) {
            Ok(
                PState {
                    cur: st.cur.push(SpecAst::Literal(c)),
                    alts: st.alts,
                    stack: st.stack,
                    escaped: false,
                },
            )
        } else {
            Err(ParseError::InvalidEscape(i, c))
        }
    } else if c == '+' || c == '*' || c == '?' {
        if st.cur.len() == 0 {
            Err(ParseError::NoPrecedingExpression(i))
        } else {
            Ok(
                PState {
                    cur: st.cur.drop_last().push(quantified(c, st.cur.last())),
                    alts: st.alts,
                    stack: st.stack,
                    escaped: false,
                },
            )
        }
    } else if c == '(' {
        Ok(
            PState {
                cur: Seq::empty(),
                alts: Seq::empty(),
                stack: st.stack.push((st.cur, st.alts)),
                escaped: false,
            },
        )
    } else if c == ')' {
        if st.stack.len() == 0 {
            Err(ParseError::UnmatchedRightParen(i))
        } else {
            let grouped = if st.cur.len() > 0 {
                st.alts.push(SpecAst::Concat(st.cur))
            } else {
                st.alts
            };
            let restored = match fold_alts(grouped) {
                Some(a) => st.stack.last().0.push(a),
                None => st.stack.last().0,
            };
            Ok(
                PState {
                    cur: restored,
                    alts: st.stack.last().1,
                    stack: st.stack.drop_last(),
                    escaped: false,
                },
            )
        }
    } else if c == '|' {
        if st.cur.len() == 0 {
            Err(ParseError::NoPrecedingExpression(i))
        } else {
            Ok(
                PState {
                    cur: Seq::empty(),
                    alts: st.alts.push(SpecAst::Concat(st.cur)),
                    stack: st.stack,
                    escaped: false,
                },
            )
        }
    } else if c == '\\' {
        Ok(PState { cur: st.cur, alts: st.alts, stack: st.stack, escaped: true })
    } else {
        Ok(
            PState {
                cur: st.cur.push(SpecAst::Literal(c)),
                alts: st.alts,
                stack: st.stack,
                escaped: false,
            },
        )
    }
}

/// The scan's finish: a still-open group fails; otherwise the final buffer
/// closes into the alternatives and the fold is the tree, or the pattern
/// denotes nothing.
pub open spec fn pfinish(st: PState) -> Result<SpecAst, ParseError> {
    if st.stack.len() > 0 {
        Err(ParseError::UnclosedGroup)
    } else {
        let grouped = if st.cur.len() > 0 {
            st.alts.push(SpecAst::Concat(st.cur))
        } else {
            st.alts
        };
        match fold_alts(grouped) {
            Some(a) => Ok(a),
            None => Err(ParseError::EmptyExpression),
        }
    }
}

/// The scan of the pattern from position `i` onward, started in state `st`.
pub open spec fn parse_from(chars: Seq<char>, i: int, st: PState) -> Result<SpecAst, ParseError>
    decreases chars.len() - i,
{
    if i < 0 || i >= chars.len() {
        pfinish(st)
    } else {
        match pstep(st, chars[i], i as usize) {
            Ok(st2) => parse_from(chars, i + 1, st2),
            Err(e) => Err(e),
        }
    }
}

/// What parsing a pattern yields: the scan of its whole character sequence
/// from the starting state.
pub open spec fn spec_parse(chars: Seq<char>) -> Result<SpecAst, ParseError> {
    parse_from(chars, 0, initial_pstate())
}

/// The views of a stack of saved contexts, elementwise.
pub open spec fn stack_view(s: Seq<(Vec<AST>, Vec<AST>)>) -> Seq<(Seq<SpecAst>, Seq<SpecAst>)> {
    Seq::new(s.len(), |i: int| (asts_view(s[i].0@), asts_view(s[i].1@)))
}

/// Which quantifier a metacharacter denotes.
enum PSQ {
    Plus,
    Star,
    Question,
}

impl PSQ {
    /// The metacharacter written for this quantifier.
    spec fn as_char(self) -> char {
        match self {
            PSQ::Plus => '+',
            PSQ::Star => '*',
            PSQ::Question => '?',
        }
    }
}

/// Pops the last tree of the buffer and wraps it in the quantifier; fails
/// when nothing precedes the quantifier.
fn parse_plus_star_question(buf: &mut Vec<AST>, ast_type: PSQ, pos: usize) -> (r: Result<
    (),
    ParseError,
>)
    ensures
        match r {
            Ok(()) => old(buf)@.len() > 0 && asts_view(final(buf)@) == asts_view(
                old(buf)@,
            ).drop_last().push(quantified(ast_type.as_char(), asts_view(old(buf)@).last())),
            Err(e) => old(buf)@.len() == 0 && e == ParseError::NoPrecedingExpression(pos)
                && final(buf)@ == old(buf)@,
        },
{
    broadcast use lemma_asts_view;

    match buf.pop() {
        Some(prev) => {
            let ast = match ast_type {
                PSQ::Plus => AST::Repeat1(Box::new(prev)),
                PSQ::Star => AST::Repeat0(Box::new(prev)),
                PSQ::Question => AST::Repeat01(Box::new(prev)),
            };
            let ghost vast = ast_view(ast);
            buf.push(ast);
            proof {
                assert(vast == quantified(ast_type.as_char(), ast_view(old(buf)@.last())));
                assert(asts_view(old(buf)@).last() == ast_view(old(buf)@.last()));
                lemma_asts_view_push(old(buf)@.drop_last(), ast);
                assert(asts_view(old(buf)@).drop_last() =~= asts_view(old(buf)@.drop_last()));
                assert(asts_view(buf@) == asts_view(old(buf)@.drop_last()).push(vast));
            }
            Ok(())
        },
        None => Err(ParseError::NoPrecedingExpression(pos)),
    }
}

/// Turns an escaped character into a literal; only metacharacters may be
/// escaped.
fn parse_escape(pos: usize, c: char) -> (r: Result<AST, ParseError>)
    ensures
        match r {
            Ok(a) => is_escapable(c) && ast_view(a) == SpecAst::Literal(c),
            Err(e) => !is_escapable(c) && e == ParseError::InvalidEscape(pos, c),
        },
{
    match c {
        '\\' | '(' | ')' | '|' | '+' | '*' | '?' => Ok(AST::Literal(c)),
        _ => {
            let err = ParseError::InvalidEscape(pos, c);
            Err(err)
        },
    }
}

/// Folds the completed alternatives right to left into nested `Alternate`
/// nodes; the result is exactly the fold of their views.
fn fold_or(seq_or: Vec<AST>) -> (r: Option<AST>)
    ensures
        match r {
            Some(a) => fold_alts(asts_view(seq_or@)) == Some(ast_view(a)),
            None => fold_alts(asts_view(seq_or@)) is None,
        },
{
    broadcast use lemma_asts_view;

    let ghost orig = seq_or@;
    let mut v = seq_or;
    if v.len() > 1 {
        let mut ast = match v.pop() {
            Some(a) => a,
            None => {
                proof {
                    assert(false);
                }
                return None;
            },
        };
        proof {
            assert(v@.push(ast) =~= orig);
            lemma_asts_view_push(v@, ast);
        }
        while v.len() > 0
            invariant
                fold_alts(asts_view(v@).push(ast_view(ast))) == fold_alts(asts_view(orig)),
            decreases v@.len(),
        {
            let ghost pre_v = v@;
            let ghost pre_ast = ast;
            let s = match v.pop() {
                Some(s) => s,
                None => {
                    proof {
                        assert(false);
                    }
                    return None;
                },
            };
            ast = AST::Alternate(Box::new(s), Box::new(ast));
            proof {
                lemma_fold_alts_merge(asts_view(v@), ast_view(pre_v.last()), ast_view(pre_ast));
                assert(v@.push(pre_v.last()) =~= pre_v);
                lemma_asts_view_push(v@, pre_v.last());
                assert(asts_view(pre_v) == asts_view(v@).push(ast_view(pre_v.last())));
                assert(ast_view(ast) == SpecAst::Alternate(
                    Box::new(ast_view(pre_v.last())),
                    Box::new(ast_view(pre_ast)),
                ));
            }
        }
        proof {
            assert(asts_view(v@).push(ast_view(ast)) =~= seq![ast_view(ast)]);
            assert(fold_alts(seq![ast_view(ast)]) == Some(ast_view(ast)));
        }
        Some(ast)
    } else {
        proof {
            if orig.len() == 1 {
                assert(asts_view(orig)[0] == ast_view(orig[0]));
            } else {
                assert(asts_view(orig).len() == 0);
            }
        }
        v.pop()
    }
}

/// Parses a pattern into its syntax tree; the result is exactly what the
/// operational scan specification yields, error or tree, position for
/// position.
pub fn parse(expr: &str) -> (r: Result<AST, ParseError>)
    ensures
        match r {
            Ok(a) => spec_parse(expr@) == Ok::<SpecAst, ParseError>(ast_view(a)),
            Err(e) => spec_parse(expr@) == Err::<SpecAst, ParseError>(e),
        },
{
    broadcast use lemma_asts_view;

    let n = expr.unicode_len();
    let mut cur: Vec<AST> = Vec::new();
    let mut seq_or: Vec<AST> = Vec::new();
    let mut stack: Vec<(Vec<AST>, Vec<AST>)> = Vec::new();
    let mut escaped: bool = false;
    let mut i: usize = 0;
    proof {
        let st0 = PState {
            cur: asts_view(cur@),
            alts: asts_view(seq_or@),
            stack: stack_view(stack@),
            escaped: escaped,
        };
        assert(st0 =~= initial_pstate());
    }
    while i < n
        invariant
            n == expr@.len(),
            i <= n,
            parse_from(
                expr@,
                i as int,
                (PState {
                    cur: asts_view(cur@),
                    alts: asts_view(seq_or@),
                    stack: stack_view(stack@),
                    escaped: escaped,
                }),
            ) == spec_parse(expr@),
        decreases n - i,
    {
        let ghost st = PState {
            cur: asts_view(cur@),
            alts: asts_view(seq_or@),
            stack: stack_view(stack@),
            escaped: escaped,
        };
        let c = expr.get_char(i);
        proof {
            assert(expr@[i as int] == c);
        }
        if escaped {
            match parse_escape(i, c) {
                Ok(ast) => {
                    let ghost pre_cur = cur@;
                    let ghost vast = ast_view(ast);
                    cur.push(ast);
                    escaped = false;
                    proof {
                        let st2 = PState {
                            cur: asts_view(cur@),
                            alts: asts_view(seq_or@),
                            stack: stack_view(stack@),
                            escaped: escaped,
                        };
                        lemma_asts_view_push(pre_cur, ast);
                        assert(asts_view(cur@) == asts_view(pre_cur).push(vast));
                        assert(pstep(st, c, i) == Ok::<PState, ParseError>(st2));
                    }
                },
                Err(e) => {
                    proof {
                        assert(pstep(st, c, i) == Err::<PState, ParseError>(e));
                    }
                    return Err(e);
                },
            }
        } else if c == '+' || c == '*' || c == '?' {
            let psq = if c == '+' {
                PSQ::Plus
            } else if c == '*' {
                PSQ::Star
            } else {
                PSQ::Question
            };
            proof {
                assert(psq.as_char() == c);
            }
            match parse_plus_star_question(&mut cur, psq, i) {
                Ok(()) => {
                    proof {
                        let st2 = PState {
                            cur: asts_view(cur@),
                            alts: asts_view(seq_or@),
                            stack: stack_view(stack@),
                            escaped: escaped,
                        };
                        assert(pstep(st, c, i) == Ok::<PState, ParseError>(st2));
                    }
                },
                Err(e) => {
                    proof {
                        assert(pstep(st, c, i) == Err::<PState, ParseError>(e));
                    }
                    return Err(e);
                },
            }
        } else if c == '(' {
            let prev = cur;
            let prev_or = seq_or;
            stack.push((prev, prev_or));
            cur = Vec::new();
            seq_or = Vec::new();
            proof {
                let st2 = PState {
                    cur: asts_view(cur@),
                    alts: asts_view(seq_or@),
                    stack: stack_view(stack@),
                    escaped: escaped,
                };
                assert(asts_view(cur@) =~= Seq::<SpecAst>::empty());
                assert(asts_view(seq_or@) =~= Seq::<SpecAst>::empty());
                assert(stack_view(stack@) =~= st.stack.push((st.cur, st.alts)));
                assert(pstep(st, c, i) == Ok::<PState, ParseError>(st2));
            }
        } else if c == ')' {
            match stack.pop() {
                Some(prev_pair) => {
                    let (prev, prev_or) = prev_pair;
                    let mut prev = prev;
                    proof {
                        assert(st.stack.last() == (asts_view(prev@), asts_view(prev_or@)));
                        assert(stack_view(stack@) =~= st.stack.drop_last());
                    }
                    let ghost grouped = if st.cur.len() > 0 {
                        st.alts.push(SpecAst::Concat(st.cur))
                    } else {
                        st.alts
                    };
                    let ghost pre_cur = cur@;
                    let ghost pre_or = seq_or@;
                    if cur.len() > 0 {
                        let closed = AST::Concat(cur);
                        proof {
                            assert(ast_view(closed) == SpecAst::Concat(asts_view(pre_cur)));
                        }
                        seq_or.push(closed);
                        proof {
                            lemma_asts_view_push(pre_or, closed);
                            assert(asts_view(seq_or@) == asts_view(pre_or).push(
                                ast_view(closed),
                            ));
                        }
                    }
                    proof {
                        assert(asts_view(seq_or@) =~= grouped);
                    }
                    match fold_or(seq_or) {
                        Some(folded) => {
                            let ghost pre_prev = prev@;
                            let ghost vfolded = ast_view(folded);
                            prev.push(folded);
                            proof {
                                lemma_asts_view_push(pre_prev, folded);
                                assert(asts_view(prev@) == asts_view(pre_prev).push(vfolded));
                            }
                        },
                        None => {},
                    }
                    cur = prev;
                    seq_or = prev_or;
                    proof {
                        let st2 = PState {
                            cur: asts_view(cur@),
                            alts: asts_view(seq_or@),
                            stack: stack_view(stack@),
                            escaped: escaped,
                        };
                        assert(pstep(st, c, i) == Ok::<PState, ParseError>(st2));
                    }
                },
                None => {
                    proof {
                        assert(pstep(st, c, i) == Err::<PState, ParseError>(
                            ParseError::UnmatchedRightParen(i),
                        ));
                    }
                    return Err(ParseError::UnmatchedRightParen(i));
                },
            }
        } else if c == '|' {
            if cur.len() == 0 {
                proof {
                    assert(pstep(st, c, i) == Err::<PState, ParseError>(
                        ParseError::NoPrecedingExpression(i),
                    ));
                }
                return Err(ParseError::NoPrecedingExpression(i));
            } else {
                let ghost pre_cur = cur@;
                let ghost pre_or = seq_or@;
                let prev = cur;
                let closed = AST::Concat(prev);
                proof {
                    assert(ast_view(closed) == SpecAst::Concat(asts_view(pre_cur)));
                }
                proof {
                    lemma_asts_view_push(pre_or, closed);
                }
                seq_or.push(closed);
                cur = Vec::new();
                proof {
                    let st2 = PState {
                        cur: asts_view(cur@),
                        alts: asts_view(seq_or@),
                        stack: stack_view(stack@),
                        escaped: escaped,
                    };
                    assert(asts_view(cur@) =~= Seq::<SpecAst>::empty());
                    assert(asts_view(seq_or@) == asts_view(pre_or).push(ast_view(closed)));
                    assert(pstep(st, c, i) == Ok::<PState, ParseError>(st2));
                }
            }
        } else if c == '\\' {
            escaped = true;
            proof {
                let st2 = PState {
                    cur: asts_view(cur@),
                    alts: asts_view(seq_or@),
                    stack: stack_view(stack@),
                    escaped: escaped,
                };
                assert(pstep(st, c, i) == Ok::<PState, ParseError>(st2));
            }
        } else {
            let ghost pre_cur = cur@;
            let lit = AST::Literal(c);
            proof {
                assert(ast_view(lit) == SpecAst::Literal(c));
            }
            cur.push(lit);
            proof {
                let st2 = PState {
                    cur: asts_view(cur@),
                    alts: asts_view(seq_or@),
                    stack: stack_view(stack@),
                    escaped: escaped,
                };
                lemma_asts_view_push(pre_cur, lit);
                assert(asts_view(cur@) == asts_view(pre_cur).push(ast_view(lit)));
                assert(pstep(st, c, i) == Ok::<PState, ParseError>(st2));
            }
        }
        i = i + 1;
    }
    let ghost st = PState {
        cur: asts_view(cur@),
        alts: asts_view(seq_or@),
        stack: stack_view(stack@),
        escaped: escaped,
    };
    proof {
        assert(parse_from(expr@, i as int, st) == pfinish(st));
    }
    if stack.len() > 0 {
        return Err(ParseError::UnclosedGroup);
    }
    let ghost grouped = if st.cur.len() > 0 {
        st.alts.push(SpecAst::Concat(st.cur))
    } else {
        st.alts
    };
    let ghost pre_cur = cur@;
    let ghost pre_or = seq_or@;
    if cur.len() > 0 {
        let closed = AST::Concat(cur);
        proof {
            assert(ast_view(closed) == SpecAst::Concat(asts_view(pre_cur)));
        }
        seq_or.push(closed);
        proof {
            lemma_asts_view_push(pre_or, closed);
            assert(asts_view(seq_or@) == asts_view(pre_or).push(ast_view(closed)));
        }
    }
    proof {
        assert(asts_view(seq_or@) =~= grouped);
    }
    match fold_or(seq_or) {
        Some(ast) => Ok(ast),
        None => Err(ParseError::EmptyExpression),
    }
}

} // verus!
