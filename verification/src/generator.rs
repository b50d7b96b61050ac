use vstd::hash_map::StringHashMap;
use vstd::prelude::*;

use crate::parser::{Op, Tree};

verus! {

/// A RISC-V register used by the generated code.
#[derive(Debug, Clone, Copy, PartialEq, Eq)]
pub enum Reg {
    T0,
    T1,
    Sp,
    Fp,
}

/// A RISC-V instruction of the generated code.
#[derive(Debug, Clone, Copy, PartialEq, Eq)]
pub enum Instr {
    /// `li rd, imm`
    Li(Reg, isize),
    /// `addi rd, rs, imm`
    Addi(Reg, Reg, i64),
    /// `sd rs, offset(base)`
    Sd(Reg, i64, Reg),
    /// `ld rd, offset(base)`
    Ld(Reg, i64, Reg),
    /// `add rd, rs1, rs2`
    Add(Reg, Reg, Reg),
    /// `sub rd, rs1, rs2`
    Sub(Reg, Reg, Reg),
    /// `mul rd, rs1, rs2`
    Mul(Reg, Reg, Reg),
    /// `div rd, rs1, rs2`
    Div(Reg, Reg, Reg),
    /// `slt rd, rs1, rs2`
    Slt(Reg, Reg, Reg),
    /// `seqz rd, rs`
    Seqz(Reg, Reg),
    /// `snez rd, rs`
    Snez(Reg, Reg),
    /// `xori rd, rs, imm`
    Xori(Reg, Reg, i64),
}

/// Why a tree cannot be compiled.
#[derive(Debug, Clone, Copy, PartialEq, Eq)]
pub enum GenError {
    /// The left-hand side of an assignment is not a variable.
    UnexpectedLeftHand,
    /// A variable is read before any assignment declared it.
    NotDeclared,
    /// A variable must be declared while no scope is open.
    NoScope,
    /// Declaring one more variable would move the frame offset below `i64::MIN`.
    OffsetOverflow,
}

/// The variables of one scope and their frame offsets.
pub type ScopeMap = Map<Seq<char>, i64>;

/// The offset of `name` in the innermost scope that binds it.
pub open spec fn lookup_in(scopes: Seq<ScopeMap>, name: Seq<char>) -> Option<i64>
    decreases scopes.len(),
{
    if scopes.len() == 0 {
        None
    } else if scopes.last().contains_key(name) {
        Some(scopes.last()[name])
    } else {
        lookup_in(scopes.drop_last(), name)
    }
}

/// Every variable of `scopes` lies at `offset` or above it in the frame.
pub open spec fn offsets_at_or_above(scopes: Seq<ScopeMap>, offset: i64) -> bool {
    forall|i: int, k: Seq<char>|
        0 <= i < scopes.len() && #[trigger] scopes[i].contains_key(k) ==> scopes[i][k] >= offset
}

/// The frame offset is a multiple of 8 at or below 0, and every variable has a slot of
/// its own below the frame pointer: a multiple of 8 at or below -8.
pub open spec fn slots_aligned(scopes: Seq<ScopeMap>, offset: i64) -> bool {
    &&& offset <= 0
    &&& offset % 8 == 0
    &&& forall|i: int, k: Seq<char>|
        0 <= i < scopes.len() && #[trigger] scopes[i].contains_key(k) ==> scopes[i][k] <= -8
            && scopes[i][k] % 8 == 0
}

/// The scopes after binding `name` to `offset` in the innermost one.
pub open spec fn bind_innermost(scopes: Seq<ScopeMap>, name: Seq<char>, offset: i64) -> Seq<
    ScopeMap,
> {
    scopes.update(scopes.len() - 1, scopes.last().insert(name, offset))
}

/// The code that pushes `reg` onto the stack.
pub open spec fn push_code(reg: Reg) -> Seq<Instr> {
    seq![Instr::Addi(Reg::Sp, Reg::Sp, -8i64), Instr::Sd(reg, 0i64, Reg::Sp)]
}

/// The code that pops the top of the stack into `reg`.
pub open spec fn pop_code(reg: Reg) -> Seq<Instr> {
    seq![Instr::Ld(reg, 0i64, Reg::Sp), Instr::Addi(Reg::Sp, Reg::Sp, 8i64)]
}

/// The code that combines `t0` (left operand) and `t1` (right operand) into `t0`.
pub open spec fn op_code(op: Op) -> Seq<Instr> {
    match op {
        Op::Add => seq![Instr::Add(Reg::T0, Reg::T0, Reg::T1)],
        Op::Sub => seq![Instr::Sub(Reg::T0, Reg::T0, Reg::T1)],
        Op::Mul => seq![Instr::Mul(Reg::T0, Reg::T0, Reg::T1)],
        Op::Div => seq![Instr::Div(Reg::T0, Reg::T0, Reg::T1)],
        Op::Eq => seq![Instr::Sub(Reg::T0, Reg::T0, Reg::T1), Instr::Seqz(Reg::T0, Reg::T0)],
        Op::NotEq => seq![Instr::Sub(Reg::T0, Reg::T0, Reg::T1), Instr::Snez(Reg::T0, Reg::T0)],
        Op::GreaterThan => seq![Instr::Slt(Reg::T0, Reg::T1, Reg::T0)],
        Op::LessThan => seq![Instr::Slt(Reg::T0, Reg::T0, Reg::T1)],
        Op::GreaterThanOrEq => seq![
            Instr::Slt(Reg::T0, Reg::T0, Reg::T1),
            Instr::Xori(Reg::T0, Reg::T0, 1i64),
        ],
        Op::LessThanOrEq => seq![
            Instr::Slt(Reg::T0, Reg::T1, Reg::T0),
            Instr::Xori(Reg::T0, Reg::T0, 1i64),
        ],
    }
}

/// The code emitted, and the generator's state, after compiling a tree (or a list of
/// trees); `error` is the reason compilation stopped, if it did, and `code` is then what
/// was emitted before it stopped.
pub struct GenOutcome {
    pub code: Seq<Instr>,
    pub scopes: Seq<ScopeMap>,
    pub offset: i64,
    pub error: Option<GenError>,
}

/// Compiles `tree` with the variables of `scopes` and the frame offset `offset`: the code
/// leaves the tree's value pushed on the stack.
pub open spec fn gen_tree(tree: Tree, scopes: Seq<ScopeMap>, offset: i64) -> GenOutcome
    decreases tree,
{
    match tree {
        Tree::Integer(n) => GenOutcome {
            code: seq![Instr::Li(Reg::T0, n)] + push_code(Reg::T0),
            scopes,
            offset,
            error: None,
        },
        Tree::BinOp(op, lhs, rhs) => {
            let a = gen_tree(*lhs, scopes, offset);
            if a.error is Some {
                a
            } else {
                let b = gen_tree(*rhs, a.scopes, a.offset);
                if b.error is Some {
                    GenOutcome { code: a.code + b.code, ..b }
                } else {
                    GenOutcome {
                        code: a.code + b.code + pop_code(Reg::T1) + pop_code(Reg::T0) + op_code(op)
                            + push_code(Reg::T0),
                        ..b
                    }
                }
            }
        },
        Tree::Assign(lhs, rhs) => match *lhs {
            Tree::Var(name) => {
                let a = gen_tree(*rhs, scopes, offset);
                if a.error is Some {
                    a
                } else {
                    let code = a.code + pop_code(Reg::T0);
                    match lookup_in(a.scopes, name@) {
                        Some(o) => GenOutcome {
                            code: code + seq![Instr::Sd(Reg::T0, o, Reg::Fp)] + push_code(Reg::T0),
                            ..a
                        },
                        None => if a.scopes.len() == 0 {
                            GenOutcome { code, error: Some(GenError::NoScope), ..a }
                        } else if a.offset < i64::MIN + 8 {
                            GenOutcome { code, error: Some(GenError::OffsetOverflow), ..a }
                        } else {
                            let o = (a.offset - 8) as i64;
                            GenOutcome {
                                code: code + seq![Instr::Sd(Reg::T0, o, Reg::Fp)] + push_code(
                                    Reg::T0,
                                ),
                                scopes: bind_innermost(a.scopes, name@, o),
                                offset: o,
                                error: None,
                            }
                        },
                    }
                }
            },
            _ => GenOutcome {
                code: Seq::empty(),
                scopes,
                offset,
                error: Some(GenError::UnexpectedLeftHand),
            },
        },
        Tree::Var(name) => match lookup_in(scopes, name@) {
            Some(o) => GenOutcome {
                code: seq![Instr::Ld(Reg::T0, o, Reg::Fp)] + push_code(Reg::T0),
                scopes,
                offset,
                error: None,
            },
            None => GenOutcome {
                code: Seq::empty(),
                scopes,
                offset,
                error: Some(GenError::NotDeclared),
            },
        },
    }
}

/// Compiles the statements `trees` in order; the value of each is popped into `t0` after it.
pub open spec fn gen_trees(trees: Seq<Tree>, scopes: Seq<ScopeMap>, offset: i64) -> GenOutcome
    decreases trees.len(),
{
    if trees.len() == 0 {
        GenOutcome { code: Seq::empty(), scopes, offset, error: None }
    } else {
        let a = gen_tree(trees[0], scopes, offset);
        if a.error is Some {
            a
        } else {
            let b = gen_trees(trees.drop_first(), a.scopes, a.offset);
            GenOutcome { code: a.code + pop_code(Reg::T0) + b.code, ..b }
        }
    }
}

/// Compiles a whole program: its statements run in a scope of their own, which is closed
/// at the end.
pub open spec fn gen_program(trees: Seq<Tree>, scopes: Seq<ScopeMap>, offset: i64) -> GenOutcome {
    let r = gen_trees(trees, scopes.push(Map::empty()), offset);
    if r.error is Some {
        r
    } else {
        GenOutcome { scopes: r.scopes.drop_last(), ..r }
    }
}

/// The outcome of a step seen as a `Result`.
pub open spec fn gen_result(error: Option<GenError>) -> Result<(), GenError> {
    match error {
        Some(e) => Err(e),
        None => Ok(()),
    }
}

} // verus!

verus! {

/// Compiling a tree, whether or not it succeeds, neither opens nor closes scopes and
/// changes none but the innermost.
proof fn lemma_gen_tree_scopes_len(tree: Tree, scopes: Seq<ScopeMap>, offset: i64)
    ensures
        gen_tree(tree, scopes, offset).scopes.len() == scopes.len(),
        forall|j: int|
            0 <= j < scopes.len() - 1 ==> #[trigger] gen_tree(tree, scopes, offset).scopes[j]
                == scopes[j],
    decreases tree,
{
    match tree {
        Tree::BinOp(op, lhs, rhs) => {
            lemma_gen_tree_scopes_len(*lhs, scopes, offset);
            let a = gen_tree(*lhs, scopes, offset);
            lemma_gen_tree_scopes_len(*rhs, a.scopes, a.offset);
            assert forall|j: int| 0 <= j < scopes.len() - 1 implies #[trigger] gen_tree(
                tree,
                scopes,
                offset,
            ).scopes[j] == scopes[j] by {
                assert(a.scopes[j] == scopes[j]);
            }
        },
        Tree::Assign(lhs, rhs) => {
            lemma_gen_tree_scopes_len(*rhs, scopes, offset);
        },
        _ => {},
    }
}

/// Emits RISC-V code for syntax trees, keeping the frame offsets of the variables.
pub struct Generator {
    trees: Vec<Tree>,
    env: Vec<StringHashMap<i64>>,
    stack_offset: i64,
}

impl Generator {
    /// The statements to compile.
    pub closed spec fn trees(&self) -> Seq<Tree> {
        self.trees@
    }

    /// The open scopes, outermost first, each mapping names to frame offsets.
    pub closed spec fn scopes(&self) -> Seq<ScopeMap> {
        Seq::new(self.env@.len(), |i: int| self.env@[i]@)
    }

    /// The frame offset of the most recently declared variable.
    pub closed spec fn offset(&self) -> i64 {
        self.stack_offset
    }

    /// Every variable has an 8-byte slot of its own at or above the frame offset.
    pub closed spec fn wf(&self) -> bool {
        &&& offsets_at_or_above(self.scopes(), self.offset())
        &&& slots_aligned(self.scopes(), self.offset())
    }

    /// What `wf` promises of the frame: the offset is a multiple of 8 at or below 0, and
    /// every variable lies in a slot that is a multiple of 8 between the offset and -8.
    pub proof fn lemma_wf_slots(&self)
        requires
            self.wf(),
        ensures
            self.offset() <= 0,
            self.offset() % 8 == 0,
            forall|i: int, k: Seq<char>|
                0 <= i < self.scopes().len() && #[trigger] self.scopes()[i].contains_key(k) ==> {
                    &&& self.offset() <= self.scopes()[i][k] <= -8
                    &&& self.scopes()[i][k] % 8 == 0
                },
    {
    }

    /// A generator for `trees`, with no scope open and no variable declared.
    pub fn new(trees: Vec<Tree>) -> (g: Self)
        ensures
            g.trees() == trees@,
            g.scopes() == Seq::<ScopeMap>::empty(),
            g.offset() == 0,
            g.wf(),
    {
        let g = Generator { trees, env: Vec::new(), stack_offset: 0 };
        assert(g.scopes() =~= Seq::<ScopeMap>::empty());
        assert(offsets_at_or_above(g.scopes(), 0));
        assert(slots_aligned(g.scopes(), 0));
        g
    }

    /// Declares `name` in the innermost scope, 8 bytes below the previous variable, and
    /// returns its frame offset.
    pub fn declare(&mut self, name: String) -> (offset: i64)
        requires
            old(self).wf(),
            old(self).scopes().len() > 0,
            old(self).offset() >= i64::MIN + 8,
        ensures
            final(self).wf(),
            final(self).trees() == old(self).trees(),
            final(self).offset() <= old(self).offset(),
            offset == old(self).offset() - 8,
            offset <= -8,
            offset % 8 == 0,
            final(self).offset() == offset,
            final(self).scopes() == bind_innermost(old(self).scopes(), name@, offset),
            forall|i: int, k: Seq<char>|
                0 <= i < old(self).scopes().len() && #[trigger] old(self).scopes()[i].contains_key(k)
                    ==> old(self).scopes()[i][k] > offset,
            lookup_in(final(self).scopes(), name@) == Some(offset),
            forall|other: Seq<char>|
                other != name@ ==> #[trigger] lookup_in(final(self).scopes(), other) == lookup_in(
                    old(self).scopes(),
                    other,
                ),
    {
        let ghost old_env = self.env@;
        self.stack_offset = self.stack_offset - 8;
        let offset = self.stack_offset;
        let mut scope = match self.env.pop() {
            Some(s) => s,
            None => {
                proof {
                    assert(false);
                }
                StringHashMap::new()
            },
        };
        assert(scope@ == old_env[old_env.len() - 1]@);
        scope.insert(name, offset);
        self.env.push(scope);
        proof {
            let before = Seq::new(old_env.len(), |i: int| old_env[i]@);
            assert(self.scopes() =~= bind_innermost(before, name@, offset));
            assert forall|i: int, k: Seq<char>|
                0 <= i < self.scopes().len() && #[trigger] self.scopes()[i].contains_key(
                    k,
                ) implies self.scopes()[i][k] >= offset by {
                if i < before.len() - 1 || k != name@ {
                    assert(before[i].contains_key(k));
                }
            }
            assert forall|i: int, k: Seq<char>|
                0 <= i < self.scopes().len() && #[trigger] self.scopes()[i].contains_key(
                    k,
                ) implies self.scopes()[i][k] <= -8 && self.scopes()[i][k] % 8 == 0 by {
                if i < before.len() - 1 || k != name@ {
                    assert(before[i].contains_key(k));
                }
            }
            lemma_lookup_after_bind(before, name@, offset, name@);
            assert forall|other: Seq<char>| other != name@ implies #[trigger] lookup_in(
                self.scopes(),
                other,
            ) == lookup_in(before, other) by {
                lemma_lookup_after_bind(before, name@, offset, other);
            }
        }
        offset
    }

    /// The frame offset of `name` in the innermost scope that declares it.
    pub fn lookup(&self, name: &str) -> (r: Option<i64>)
        ensures
            r == lookup_in(self.scopes(), name@),
    {
        let mut k = self.env.len();
        proof {
            assert(self.scopes().take(k as int) =~= self.scopes());
        }
        while k > 0
            invariant
                k <= self.env@.len(),
                lookup_in(self.scopes(), name@) == lookup_in(self.scopes().take(k as int), name@),
            decreases k,
        {
            let ghost pre = self.scopes().take(k as int);
            assert(pre.last() == self.env@[k - 1]@);
            match self.env[k - 1].get(name) {
                Some(o) => {
                    return Some(*o);
                },
                None => {
                    proof {
                        assert(pre.drop_last() =~= self.scopes().take(k - 1));
                    }
                    k = k - 1;
                },
            }
        }
        None
    }

    /// Emits the code of `tree`, which must compile: the code leaves the tree's value pushed
    /// on the stack, and the first assignment to a variable declares it in the innermost
    /// scope.
    pub fn generate_tree(&mut self, tree: &Tree, out: &mut Vec<Instr>)
        requires
            old(self).wf(),
            gen_tree(*tree, old(self).scopes(), old(self).offset()).error is None,
        ensures
            ({
                let g = gen_tree(*tree, old(self).scopes(), old(self).offset());
                &&& final(out)@ == old(out)@ + g.code
                &&& final(self).scopes() == g.scopes
                &&& final(self).offset() == g.offset
            }),
            final(self).wf(),
            final(self).trees() == old(self).trees(),
            final(self).offset() <= old(self).offset(),
    {
        let r = self.try_generate_tree(tree, out);
        assert(r is Ok);
    }

    /// Emits the code of `tree`, which leaves the tree's value pushed on the stack; the
    /// first assignment to a variable declares it in the innermost scope. On an error, `out`
    /// holds the code emitted before it.
    pub fn try_generate_tree(&mut self, tree: &Tree, out: &mut Vec<Instr>) -> (res: Result<(), GenError>)
        requires
            old(self).wf(),
        ensures
            ({
                let g = gen_tree(*tree, old(self).scopes(), old(self).offset());
                &&& final(out)@ == old(out)@ + g.code
                &&& res == gen_result(g.error)
                &&& final(self).scopes() == g.scopes
                &&& final(self).offset() == g.offset
            }),
            final(self).wf(),
            final(self).trees() == old(self).trees(),
            final(self).offset() <= old(self).offset(),
        decreases tree,
    {
        let ghost out0 = out@;
        match tree {
            Tree::Integer(n) => {
                out.push(Instr::Li(Reg::T0, *n));
                self.push(Reg::T0, out);
                assert(out@ =~= out0 + (seq![Instr::Li(Reg::T0, *n)] + push_code(Reg::T0)));
                Ok(())
            },
            Tree::BinOp(op, lhs, rhs) => {
                let ghost a = gen_tree(**lhs, self.scopes(), self.offset());
                match self.try_generate_tree(lhs, out) {
                    Ok(()) => {},
                    Err(e) => {
                        return Err(e);
                    },
                }
                let ghost out1 = out@;
                let ghost b = gen_tree(**rhs, self.scopes(), self.offset());
                match self.try_generate_tree(rhs, out) {
                    Ok(()) => {},
                    Err(e) => {
                        assert(out@ =~= out0 + (a.code + b.code));
                        return Err(e);
                    },
                }
                self.pop(Reg::T1, out);
                self.pop(Reg::T0, out);
                self.emit_op(*op, out);
                self.push(Reg::T0, out);
                assert(out@ =~= out0 + (a.code + b.code + pop_code(Reg::T1) + pop_code(Reg::T0)
                    + op_code(*op) + push_code(Reg::T0)));
                Ok(())
            },
            Tree::Assign(lhs, rhs) => {
                match &**lhs {
                    Tree::Var(name) => {
                        let ghost a = gen_tree(**rhs, self.scopes(), self.offset());
                        match self.try_generate_tree(rhs, out) {
                            Ok(()) => {},
                            Err(e) => {
                                return Err(e);
                            },
                        }
                        self.pop(Reg::T0, out);
                        let ghost code = a.code + pop_code(Reg::T0);
                        assert(out@ =~= out0 + code);
                        proof {
                            lemma_gen_tree_scopes_len(**rhs, old(self).scopes(), old(self).offset());
                        }
                        let offset = match self.lookup(name.as_str()) {
                            Some(o) => o,
                            None => {
                                if self.env.len() == 0 {
                                    return Err(GenError::NoScope);
                                }
                                if self.stack_offset < i64::MIN + 8 {
                                    return Err(GenError::OffsetOverflow);
                                }
                                self.declare(name.clone())
                            },
                        };
                        out.push(Instr::Sd(Reg::T0, offset, Reg::Fp));
                        self.push(Reg::T0, out);
                        assert(out@ =~= out0 + (code + seq![Instr::Sd(Reg::T0, offset, Reg::Fp)]
                            + push_code(Reg::T0)));
                        Ok(())
                    },
                    _ => Err(GenError::UnexpectedLeftHand),
                }
            },
            Tree::Var(name) => {
                match self.lookup(name.as_str()) {
                    Some(o) => {
                        out.push(Instr::Ld(Reg::T0, o, Reg::Fp));
                        self.push(Reg::T0, out);
                        assert(out@ =~= out0 + (seq![Instr::Ld(Reg::T0, o, Reg::Fp)] + push_code(
                            Reg::T0,
                        )));
                        Ok(())
                    },
                    None => {
                        assert(out@ =~= out0 + Seq::<Instr>::empty());
                        Err(GenError::NotDeclared)
                    },
                }
            },
        }
    }

    /// Emits the code of all statements in a scope of their own; the value of each
    /// statement is popped into `t0` after it. On an error, `out` holds the code emitted
    /// before it.
    pub fn try_generate(&mut self, out: &mut Vec<Instr>) -> (res: Result<(), GenError>)
        requires
            old(self).wf(),
        ensures
            ({
                let g = gen_program(old(self).trees(), old(self).scopes(), old(self).offset());
                &&& final(out)@ == old(out)@ + g.code
                &&& res == gen_result(g.error)
                &&& final(self).offset() == g.offset
                &&& res is Ok ==> final(self).scopes() == g.scopes
            }),
            final(self).scopes() == old(self).scopes(),
            final(self).wf(),
            final(self).trees() == old(self).trees(),
            final(self).offset() <= old(self).offset(),
    {
        let ghost s0 = self.scopes().push(Map::empty());
        let ghost o0 = self.offset();
        self.env.push(StringHashMap::new());
        proof {
            assert(self.scopes() =~= s0);
            assert forall|i: int, k: Seq<char>|
                0 <= i < self.scopes().len() && #[trigger] self.scopes()[i].contains_key(
                    k,
                ) implies self.scopes()[i][k] >= self.offset() by {
                assert(i < s0.len() - 1);
                assert(old(self).scopes()[i].contains_key(k));
            }
            assert forall|i: int, k: Seq<char>|
                0 <= i < self.scopes().len() && #[trigger] self.scopes()[i].contains_key(
                    k,
                ) implies self.scopes()[i][k] <= -8 && self.scopes()[i][k] % 8 == 0 by {
                assert(i < s0.len() - 1);
                assert(old(self).scopes()[i].contains_key(k));
            }
        }
        let mut trees: Vec<Tree> = Vec::new();
        std::mem::swap(&mut trees, &mut self.trees);
        let ghost all = trees@;
        let ghost out0 = out@;
        let ghost full = gen_trees(all, s0, o0);
        let mut i: usize = 0;
        proof {
            assert(all.skip(0) =~= all);
            assert(out@.subrange(out0.len() as int, out@.len() as int) =~= Seq::<Instr>::empty());
            assert(out@.subrange(0, out0.len() as int) =~= out0);
            assert(full.code =~= Seq::<Instr>::empty() + full.code);
        }
        while i < trees.len()
            invariant
                trees@ == all,
                all == old(self).trees(),
                full == gen_trees(all, s0, o0),
                s0 == old(self).scopes().push(Map::empty()),
                o0 == old(self).offset(),
                self.scopes().len() == s0.len(),
                forall|j: int| 0 <= j < s0.len() - 1 ==> #[trigger] self.scopes()[j] == s0[j],
                self.offset() <= o0,
                self.wf(),
                self.trees@.len() == 0,
                0 <= i <= all.len(),
                out0 == old(out)@,
                ({
                    let rest = gen_trees(all.skip(i as int), self.scopes(), self.offset());
                    &&& full.error == rest.error
                    &&& full.scopes == rest.scopes
                    &&& full.offset == rest.offset
                    &&& full.code == out@.subrange(out0.len() as int, out@.len() as int) + rest.code
                    &&& out@.len() >= out0.len()
                    &&& out@.subrange(0, out0.len() as int) == out0
                }),
            decreases all.len() - i,
        {
            let ghost before = out@;
            let ghost cur = self.scopes();
            let ghost cur_off = self.offset();
            let ghost a = gen_tree(all[i as int], cur, cur_off);
            proof {
                assert(all.skip(i as int)[0] == all[i as int]);
                assert(all.skip(i as int).drop_first() =~= all.skip(i as int + 1));
                lemma_gen_tree_scopes_len(all[i as int], cur, cur_off);
            }
            match self.try_generate_tree(&trees[i], out) {
                Ok(()) => {},
                Err(e) => {
                    std::mem::swap(&mut trees, &mut self.trees);
                    proof {
                        assert(gen_trees(all.skip(i as int), cur, cur_off) == a);
                        assert(out@.subrange(out0.len() as int, out@.len() as int) =~= before.subrange(
                            out0.len() as int,
                            before.len() as int,
                        ) + a.code);
                        assert(out@ =~= out0 + full.code);
                        assert(full.error == Some(e));
                        assert(gen_program(all, old(self).scopes(), o0) == full);
                        assert(full.offset == self.offset());
                    }
                    let ghost inner = self.scopes();
                    self.close_scope();
                    proof {
                        assert(self.scopes() =~= old(self).scopes()) by {
                            assert forall|j: int| 0 <= j < old(self).scopes().len() implies self.scopes()[j]
                                == old(self).scopes()[j] by {
                                assert(inner[j] == s0[j]);
                            }
                        }
                    }
                    return Err(e);
                },
            }
            self.pop(Reg::T0, out);
            proof {
                assert(out@.subrange(out0.len() as int, out@.len() as int) =~= before.subrange(
                    out0.len() as int,
                    before.len() as int,
                ) + a.code + pop_code(Reg::T0));
                assert(out@.subrange(0, out0.len() as int) =~= out0);
            }
            i = i + 1;
        }
        std::mem::swap(&mut trees, &mut self.trees);
        let ghost inner = self.scopes();
        self.close_scope();
        proof {
            assert(all.skip(i as int) =~= Seq::<Tree>::empty());
            assert(out@ =~= out0 + full.code);
            assert(self.scopes() =~= old(self).scopes()) by {
                assert forall|j: int| 0 <= j < old(self).scopes().len() implies self.scopes()[j]
                    == old(self).scopes()[j] by {
                    assert(inner[j] == s0[j]);
                }
            }
        }
        Ok(())
    }

    /// Closes the innermost scope.
    fn close_scope(&mut self)
        requires
            old(self).wf(),
            old(self).scopes().len() > 0,
        ensures
            final(self).wf(),
            final(self).scopes() == old(self).scopes().drop_last(),
            final(self).offset() == old(self).offset(),
            final(self).trees() == old(self).trees(),
    {
        let ghost inner = self.scopes();
        let _ = self.env.pop();
        proof {
            assert(self.scopes() =~= inner.drop_last());
            assert forall|i: int, k: Seq<char>|
                0 <= i < self.scopes().len() && #[trigger] self.scopes()[i].contains_key(
                    k,
                ) implies self.scopes()[i][k] >= self.offset() by {
                assert(inner[i].contains_key(k));
            }
            assert forall|i: int, k: Seq<char>|
                0 <= i < self.scopes().len() && #[trigger] self.scopes()[i].contains_key(
                    k,
                ) implies self.scopes()[i][k] <= -8 && self.scopes()[i][k] % 8 == 0 by {
                assert(inner[i].contains_key(k));
            }
        }
    }

    /// Emits the code of all statements, which must all compile.
    pub fn generate(&mut self, out: &mut Vec<Instr>)
        requires
            old(self).wf(),
            gen_program(old(self).trees(), old(self).scopes(), old(self).offset()).error is None,
        ensures
            ({
                let g = gen_program(old(self).trees(), old(self).scopes(), old(self).offset());
                &&& final(out)@ == old(out)@ + g.code
                &&& final(self).scopes() == g.scopes
                &&& final(self).offset() == g.offset
            }),
            final(self).wf(),
            final(self).trees() == old(self).trees(),
            final(self).offset() <= old(self).offset(),
            final(self).scopes() == old(self).scopes(),
            final(self).offset() == old(self).offset() - 8 * unbound_in(
                assigned_in(old(self).trees()),
                old(self).scopes(),
            ).len(),
    {
        proof {
            lemma_gen_program_declarations(self.trees(), self.scopes(), self.offset());
        }
        let r = self.try_generate(out);
        assert(r is Ok);
    }

    /// Emits the code that pushes `reg` onto the stack.
    pub fn push(&self, reg: Reg, out: &mut Vec<Instr>)
        ensures
            final(out)@ == old(out)@ + push_code(reg),
    {
        out.push(Instr::Addi(Reg::Sp, Reg::Sp, -8));
        out.push(Instr::Sd(reg, 0, Reg::Sp));
        assert(out@ =~= old(out)@ + push_code(reg));
    }

    /// Emits the code that pops the top of the stack into `reg`.
    pub fn pop(&self, reg: Reg, out: &mut Vec<Instr>)
        ensures
            final(out)@ == old(out)@ + pop_code(reg),
    {
        out.push(Instr::Ld(reg, 0, Reg::Sp));
        out.push(Instr::Addi(Reg::Sp, Reg::Sp, 8));
        assert(out@ =~= old(out)@ + pop_code(reg));
    }

    fn emit_op(&self, op: Op, out: &mut Vec<Instr>)
        ensures
            final(out)@ == old(out)@ + op_code(op),
    {
        match op {
            Op::Add => out.push(Instr::Add(Reg::T0, Reg::T0, Reg::T1)),
            Op::Sub => out.push(Instr::Sub(Reg::T0, Reg::T0, Reg::T1)),
            Op::Mul => out.push(Instr::Mul(Reg::T0, Reg::T0, Reg::T1)),
            Op::Div => out.push(Instr::Div(Reg::T0, Reg::T0, Reg::T1)),
            Op::Eq => {
                out.push(Instr::Sub(Reg::T0, Reg::T0, Reg::T1));
                out.push(Instr::Seqz(Reg::T0, Reg::T0));
            },
            Op::NotEq => {
                out.push(Instr::Sub(Reg::T0, Reg::T0, Reg::T1));
                out.push(Instr::Snez(Reg::T0, Reg::T0));
            },
            Op::GreaterThan => out.push(Instr::Slt(Reg::T0, Reg::T1, Reg::T0)),
            Op::LessThan => out.push(Instr::Slt(Reg::T0, Reg::T0, Reg::T1)),
            Op::GreaterThanOrEq => {
                out.push(Instr::Slt(Reg::T0, Reg::T0, Reg::T1));
                out.push(Instr::Xori(Reg::T0, Reg::T0, 1));
            },
            Op::LessThanOrEq => {
                out.push(Instr::Slt(Reg::T0, Reg::T1, Reg::T0));
                out.push(Instr::Xori(Reg::T0, Reg::T0, 1));
            },
        }
        assert(out@ =~= old(out)@ + op_code(op));
    }
}

} // verus!

verus! {

/// Read after write of a variable: once `name` is bound to `offset` in the innermost scope,
/// looking `name` up finds `offset`, and every other name is found where it was before.
pub proof fn lemma_lookup_after_bind(
    scopes: Seq<ScopeMap>,
    name: Seq<char>,
    offset: i64,
    other: Seq<char>,
)
    requires
        scopes.len() > 0,
    ensures
        lookup_in(bind_innermost(scopes, name, offset), name) == Some(offset),
        other != name ==> lookup_in(bind_innermost(scopes, name, offset), other) == lookup_in(
            scopes,
            other,
        ),
{
    let b = bind_innermost(scopes, name, offset);
    assert(b.drop_last() =~= scopes.drop_last());
    assert(b.last() == scopes.last().insert(name, offset));
}

} // verus!

verus! {

/// How far an instruction moves the stack pointer (in bytes; negative is a push).
pub open spec fn sp_delta(i: Instr) -> int {
    match i {
        Instr::Addi(Reg::Sp, Reg::Sp, imm) => imm as int,
        _ => 0,
    }
}

/// How far a run of code moves the stack pointer in all.
pub open spec fn sp_change(code: Seq<Instr>) -> int
    decreases code.len(),
{
    if code.len() == 0 {
        0
    } else {
        sp_change(code.drop_last()) + sp_delta(code.last())
    }
}

/// At no point of the code does the stack pointer rise more than `b` bytes above where
/// it started.
pub open spec fn sp_bounded(code: Seq<Instr>, b: int) -> bool {
    forall|k: int| 0 <= k <= code.len() ==> #[trigger] sp_change(code.take(k)) <= b
}

proof fn lemma_sp_change_concat(x: Seq<Instr>, y: Seq<Instr>)
    ensures
        sp_change(x + y) == sp_change(x) + sp_change(y),
    decreases y.len(),
{
    if y.len() == 0 {
        assert(x + y =~= x);
    } else {
        assert((x + y).drop_last() =~= x + y.drop_last());
        lemma_sp_change_concat(x, y.drop_last());
    }
}

proof fn lemma_sp_bounded_concat(x: Seq<Instr>, y: Seq<Instr>, b: int)
    requires
        sp_bounded(x, b),
        sp_bounded(y, b - sp_change(x)),
    ensures
        sp_bounded(x + y, b),
{
    assert forall|k: int| 0 <= k <= (x + y).len() implies #[trigger] sp_change((x + y).take(k))
        <= b by {
        if k <= x.len() {
            assert((x + y).take(k) =~= x.take(k));
        } else {
            assert((x + y).take(k) =~= x + y.take(k - x.len()));
            lemma_sp_change_concat(x, y.take(k - x.len()));
        }
    }
}

proof fn lemma_sp_bounded_weaken(x: Seq<Instr>, b: int, c: int)
    requires
        sp_bounded(x, b),
        b <= c,
    ensures
        sp_bounded(x, c),
{
}

proof fn lemma_sp_two(a: Instr, b: Instr)
    ensures
        sp_change(seq![a, b]) == sp_delta(a) + sp_delta(b),
        sp_bounded(seq![a, b], 0) <==> (sp_delta(a) <= 0 && sp_delta(a) + sp_delta(b) <= 0),
        sp_change(seq![a]) == sp_delta(a),
        sp_bounded(seq![a], 0) <==> sp_delta(a) <= 0,
{
    let s = seq![a, b];
    let e = Seq::<Instr>::empty();
    assert(s.take(0) =~= e);
    assert(s.take(1) =~= seq![a]);
    assert(s.take(2) =~= s);
    assert(seq![a].drop_last() =~= e);
    assert(s.drop_last() =~= seq![a]);
    assert(seq![a].take(0) =~= e);
    assert(seq![a].take(1) =~= seq![a]);
    assert(sp_change(e) == 0);
    assert(sp_change(seq![a]) == sp_delta(a));
    assert(sp_change(s) == sp_delta(a) + sp_delta(b));
    if sp_delta(a) <= 0 && sp_delta(a) + sp_delta(b) <= 0 {
        assert forall|k: int| 0 <= k <= s.len() implies #[trigger] sp_change(s.take(k)) <= 0 by {
            if k == 0 {
            } else if k == 1 {
            } else {
            }
        }
    }
    if sp_delta(a) <= 0 {
        assert forall|k: int| 0 <= k <= seq![a].len() implies #[trigger] sp_change(
            seq![a].take(k),
        ) <= 0 by {
            if k == 0 {
            } else {
            }
        }
    }
    if sp_bounded(s, 0) {
        assert(sp_change(s.take(1)) <= 0);
        assert(sp_change(s.take(2)) <= 0);
    }
    if sp_bounded(seq![a], 0) {
        assert(sp_change(seq![a].take(1)) <= 0);
    }
}

proof fn lemma_sp_fixed_code(op: Op, reg: Reg, r: Reg, o: i64, n: isize)
    ensures
        sp_change(push_code(reg)) == -8,
        sp_bounded(push_code(reg), 0),
        sp_change(pop_code(reg)) == 8,
        sp_bounded(pop_code(reg), 8),
        sp_change(op_code(op)) == 0,
        sp_bounded(op_code(op), 0),
        sp_change(seq![Instr::Sd(reg, o, r)]) == 0,
        sp_bounded(seq![Instr::Sd(reg, o, r)], 0),
        sp_change(seq![Instr::Ld(reg, o, Reg::Fp)]) == 0,
        sp_bounded(seq![Instr::Ld(reg, o, Reg::Fp)], 0),
        sp_change(seq![Instr::Li(reg, n)]) == 0,
        sp_bounded(seq![Instr::Li(reg, n)], 0),
{
    lemma_sp_two(Instr::Addi(Reg::Sp, Reg::Sp, -8i64), Instr::Sd(reg, 0i64, Reg::Sp));
    lemma_sp_two(Instr::Sd(reg, 0i64, Reg::Sp), Instr::Addi(Reg::Sp, Reg::Sp, -8i64));
    lemma_sp_two(Instr::Ld(reg, 0i64, Reg::Sp), Instr::Addi(Reg::Sp, Reg::Sp, 8i64));
    let p = pop_code(reg);
    assert(p.take(0) =~= Seq::<Instr>::empty());
    assert(p.take(1) =~= seq![Instr::Ld(reg, 0i64, Reg::Sp)]);
    assert(p.take(2) =~= p);
    lemma_sp_two(Instr::Sd(reg, o, r), Instr::Sd(reg, o, r));
    lemma_sp_two(Instr::Ld(reg, o, Reg::Fp), Instr::Ld(reg, o, Reg::Fp));
    lemma_sp_two(Instr::Li(reg, n), Instr::Li(reg, n));
    let c = op_code(op);
    match op {
        Op::Eq => lemma_sp_two(Instr::Sub(Reg::T0, Reg::T0, Reg::T1), Instr::Seqz(Reg::T0, Reg::T0)),
        Op::NotEq => lemma_sp_two(Instr::Sub(Reg::T0, Reg::T0, Reg::T1), Instr::Snez(Reg::T0, Reg::T0)),
        Op::GreaterThanOrEq => lemma_sp_two(
            Instr::Slt(Reg::T0, Reg::T0, Reg::T1),
            Instr::Xori(Reg::T0, Reg::T0, 1i64),
        ),
        Op::LessThanOrEq => lemma_sp_two(
            Instr::Slt(Reg::T0, Reg::T1, Reg::T0),
            Instr::Xori(Reg::T0, Reg::T0, 1i64),
        ),
        _ => lemma_sp_two(c[0], c[0]),
    }
}

/// Stack discipline of the code of one tree: when it compiles, its code leaves exactly one
/// more 8-byte slot on the stack than it found, and never pops below the stack it found.
pub proof fn lemma_gen_tree_stack(tree: Tree, scopes: Seq<ScopeMap>, offset: i64)
    requires
        gen_tree(tree, scopes, offset).error is None,
    ensures
        sp_change(gen_tree(tree, scopes, offset).code) == -8,
        sp_bounded(gen_tree(tree, scopes, offset).code, 0),
    decreases tree,
{
    let g = gen_tree(tree, scopes, offset);
    match tree {
        Tree::Integer(n) => {
            lemma_sp_fixed_code(Op::Add, Reg::T0, Reg::Sp, 0i64, n);
            lemma_sp_change_concat(seq![Instr::Li(Reg::T0, n)], push_code(Reg::T0));
            lemma_sp_bounded_concat(seq![Instr::Li(Reg::T0, n)], push_code(Reg::T0), 0);
        },
        Tree::BinOp(op, lhs, rhs) => {
            let a = gen_tree(*lhs, scopes, offset);
            let b = gen_tree(*rhs, a.scopes, a.offset);
            lemma_gen_tree_stack(*lhs, scopes, offset);
            lemma_gen_tree_stack(*rhs, a.scopes, a.offset);
            lemma_sp_fixed_code(op, Reg::T1, Reg::Sp, 0i64, 0isize);
            lemma_sp_fixed_code(op, Reg::T0, Reg::Sp, 0i64, 0isize);
            let c1 = a.code + b.code;
            let c2 = c1 + pop_code(Reg::T1);
            let c3 = c2 + pop_code(Reg::T0);
            let c4 = c3 + op_code(op);
            lemma_sp_change_concat(a.code, b.code);
            lemma_sp_bounded_weaken(b.code, 0, 8);
            lemma_sp_bounded_concat(a.code, b.code, 0);
            lemma_sp_change_concat(c1, pop_code(Reg::T1));
            lemma_sp_bounded_weaken(pop_code(Reg::T1), 8, 16);
            lemma_sp_bounded_concat(c1, pop_code(Reg::T1), 0);
            lemma_sp_change_concat(c2, pop_code(Reg::T0));
            lemma_sp_bounded_concat(c2, pop_code(Reg::T0), 0);
            lemma_sp_change_concat(c3, op_code(op));
            lemma_sp_bounded_concat(c3, op_code(op), 0);
            lemma_sp_change_concat(c4, push_code(Reg::T0));
            lemma_sp_bounded_concat(c4, push_code(Reg::T0), 0);
        },
        Tree::Assign(lhs, rhs) => {
            if let Tree::Var(name) = *lhs {
                let a = gen_tree(*rhs, scopes, offset);
                lemma_gen_tree_stack(*rhs, scopes, offset);
                let o: i64 = match lookup_in(a.scopes, name@) {
                    Some(o) => o,
                    None => (a.offset - 8) as i64,
                };
                lemma_sp_fixed_code(Op::Add, Reg::T0, Reg::Fp, o, 0isize);
                let c1 = a.code + pop_code(Reg::T0);
                let c2 = c1 + seq![Instr::Sd(Reg::T0, o, Reg::Fp)];
                lemma_sp_change_concat(a.code, pop_code(Reg::T0));
                lemma_sp_bounded_weaken(pop_code(Reg::T0), 8, 8);
                lemma_sp_bounded_concat(a.code, pop_code(Reg::T0), 0);
                lemma_sp_change_concat(c1, seq![Instr::Sd(Reg::T0, o, Reg::Fp)]);
                lemma_sp_bounded_concat(c1, seq![Instr::Sd(Reg::T0, o, Reg::Fp)], 0);
                lemma_sp_change_concat(c2, push_code(Reg::T0));
                lemma_sp_bounded_concat(c2, push_code(Reg::T0), 0);
                assert(g.code == c2 + push_code(Reg::T0));
            }
        },
        Tree::Var(name) => {
            let o = lookup_in(scopes, name@)->0;
            lemma_sp_fixed_code(Op::Add, Reg::T0, Reg::Fp, o, 0isize);
            lemma_sp_change_concat(seq![Instr::Ld(Reg::T0, o, Reg::Fp)], push_code(Reg::T0));
            lemma_sp_bounded_concat(seq![Instr::Ld(Reg::T0, o, Reg::Fp)], push_code(Reg::T0), 0);
        },
    }
}


proof fn lemma_gen_trees_stack(trees: Seq<Tree>, scopes: Seq<ScopeMap>, offset: i64)
    requires
        gen_trees(trees, scopes, offset).error is None,
    ensures
        sp_change(gen_trees(trees, scopes, offset).code) == 0,
        sp_bounded(gen_trees(trees, scopes, offset).code, 0),
    decreases trees.len(),
{
    if trees.len() == 0 {
        let e = Seq::<Instr>::empty();
        assert(e.take(0) =~= e);
    } else {
        let a = gen_tree(trees[0], scopes, offset);
        let b = gen_trees(trees.drop_first(), a.scopes, a.offset);
        lemma_gen_tree_stack(trees[0], scopes, offset);
        lemma_gen_trees_stack(trees.drop_first(), a.scopes, a.offset);
        lemma_sp_fixed_code(Op::Add, Reg::T0, Reg::Sp, 0i64, 0isize);
        let c1 = a.code + pop_code(Reg::T0);
        lemma_sp_change_concat(a.code, pop_code(Reg::T0));
        lemma_sp_bounded_concat(a.code, pop_code(Reg::T0), 0);
        lemma_sp_change_concat(c1, b.code);
        lemma_sp_bounded_concat(c1, b.code, 0);
    }
}

/// Stack discipline of a whole program: when it compiles, its code leaves the stack
/// pointer where it found it, and never pops below the stack it found.
pub proof fn lemma_gen_program_stack(trees: Seq<Tree>, scopes: Seq<ScopeMap>, offset: i64)
    requires
        gen_program(trees, scopes, offset).error is None,
    ensures
        sp_change(gen_program(trees, scopes, offset).code) == 0,
        sp_bounded(gen_program(trees, scopes, offset).code, 0),
{
    lemma_gen_trees_stack(trees, scopes.push(Map::empty()), offset);
}


/// The number of `addi sp, sp, -8` instructions (pushes of one slot) in `code`.
pub open spec fn pushes(code: Seq<Instr>) -> int
    decreases code.len(),
{
    if code.len() == 0 {
        0
    } else {
        pushes(code.drop_last()) + if code.last() == Instr::Addi(Reg::Sp, Reg::Sp, -8i64) {
            1int
        } else {
            0int
        }
    }
}

/// The number of `addi sp, sp, 8` instructions (pops of one slot) in `code`.
pub open spec fn pops(code: Seq<Instr>) -> int
    decreases code.len(),
{
    if code.len() == 0 {
        0
    } else {
        pops(code.drop_last()) + if code.last() == Instr::Addi(Reg::Sp, Reg::Sp, 8i64) {
            1int
        } else {
            0int
        }
    }
}

/// Every instruction of `code` moves the stack pointer by one slot or not at all.
pub open spec fn slot_moves(code: Seq<Instr>) -> bool {
    forall|i: int|
        0 <= i < code.len() ==> sp_delta(#[trigger] code[i]) == 0 || sp_delta(code[i]) == 8
            || sp_delta(code[i]) == -8
}

proof fn lemma_slot_moves_count(code: Seq<Instr>)
    requires
        slot_moves(code),
    ensures
        sp_change(code) == 8 * pops(code) - 8 * pushes(code),
    decreases code.len(),
{
    if code.len() > 0 {
        let d = code.drop_last();
        assert forall|i: int| 0 <= i < d.len() implies sp_delta(#[trigger] d[i]) == 0 || sp_delta(
            d[i],
        ) == 8 || sp_delta(d[i]) == -8 by {
            assert(d[i] == code[i]);
        }
        lemma_slot_moves_count(d);
        assert(sp_delta(code[code.len() - 1]) == 0 || sp_delta(code[code.len() - 1]) == 8
            || sp_delta(code[code.len() - 1]) == -8);
    }
}

proof fn lemma_slot_moves_concat(x: Seq<Instr>, y: Seq<Instr>)
    requires
        slot_moves(x),
        slot_moves(y),
    ensures
        slot_moves(x + y),
{
    assert forall|i: int| 0 <= i < (x + y).len() implies sp_delta(#[trigger] (x + y)[i]) == 0
        || sp_delta((x + y)[i]) == 8 || sp_delta((x + y)[i]) == -8 by {
        if i < x.len() {
            assert((x + y)[i] == x[i]);
        } else {
            assert((x + y)[i] == y[i - x.len()]);
        }
    }
}

proof fn lemma_slot_moves_take(code: Seq<Instr>, k: int)
    requires
        slot_moves(code),
        0 <= k <= code.len(),
    ensures
        slot_moves(code.take(k)),
{
    assert forall|i: int| 0 <= i < code.take(k).len() implies sp_delta(#[trigger] code.take(k)[i])
        == 0 || sp_delta(code.take(k)[i]) == 8 || sp_delta(code.take(k)[i]) == -8 by {
        assert(code.take(k)[i] == code[i]);
    }
}

proof fn lemma_slot_moves_fixed(op: Op, reg: Reg, r: Reg, o: i64, n: isize)
    ensures
        slot_moves(push_code(reg)),
        slot_moves(pop_code(reg)),
        slot_moves(op_code(op)),
        slot_moves(seq![Instr::Sd(reg, o, r)]),
        slot_moves(seq![Instr::Ld(reg, o, Reg::Fp)]),
        slot_moves(seq![Instr::Li(reg, n)]),
{
    assert forall|i: int| 0 <= i < op_code(op).len() implies sp_delta(#[trigger] op_code(op)[i])
        == 0 by {
        match op {
            Op::Eq => {
                assert(i == 0 || i == 1);
            },
            Op::NotEq => {
                assert(i == 0 || i == 1);
            },
            Op::GreaterThanOrEq => {
                assert(i == 0 || i == 1);
            },
            Op::LessThanOrEq => {
                assert(i == 0 || i == 1);
            },
            _ => {
                assert(i == 0);
            },
        }
    }
}

proof fn lemma_gen_tree_slot_moves(tree: Tree, scopes: Seq<ScopeMap>, offset: i64)
    ensures
        slot_moves(gen_tree(tree, scopes, offset).code),
    decreases tree,
{
    match tree {
        Tree::Integer(n) => {
            lemma_slot_moves_fixed(Op::Add, Reg::T0, Reg::Sp, 0i64, n);
            lemma_slot_moves_concat(seq![Instr::Li(Reg::T0, n)], push_code(Reg::T0));
        },
        Tree::BinOp(op, lhs, rhs) => {
            let a = gen_tree(*lhs, scopes, offset);
            let b = gen_tree(*rhs, a.scopes, a.offset);
            lemma_gen_tree_slot_moves(*lhs, scopes, offset);
            lemma_gen_tree_slot_moves(*rhs, a.scopes, a.offset);
            lemma_slot_moves_fixed(op, Reg::T1, Reg::Sp, 0i64, 0isize);
            lemma_slot_moves_fixed(op, Reg::T0, Reg::Sp, 0i64, 0isize);
            let c1 = a.code + b.code;
            let c2 = c1 + pop_code(Reg::T1);
            let c3 = c2 + pop_code(Reg::T0);
            let c4 = c3 + op_code(op);
            lemma_slot_moves_concat(a.code, b.code);
            lemma_slot_moves_concat(c1, pop_code(Reg::T1));
            lemma_slot_moves_concat(c2, pop_code(Reg::T0));
            lemma_slot_moves_concat(c3, op_code(op));
            lemma_slot_moves_concat(c4, push_code(Reg::T0));
        },
        Tree::Assign(lhs, rhs) => {
            if let Tree::Var(name) = *lhs {
                let a = gen_tree(*rhs, scopes, offset);
                lemma_gen_tree_slot_moves(*rhs, scopes, offset);
                let o: i64 = match lookup_in(a.scopes, name@) {
                    Some(o) => o,
                    None => (a.offset - 8) as i64,
                };
                lemma_slot_moves_fixed(Op::Add, Reg::T0, Reg::Fp, o, 0isize);
                let c1 = a.code + pop_code(Reg::T0);
                let c2 = c1 + seq![Instr::Sd(Reg::T0, o, Reg::Fp)];
                lemma_slot_moves_concat(a.code, pop_code(Reg::T0));
                lemma_slot_moves_concat(c1, seq![Instr::Sd(Reg::T0, o, Reg::Fp)]);
                lemma_slot_moves_concat(c2, push_code(Reg::T0));
            } else {
                assert(gen_tree(tree, scopes, offset).code =~= Seq::<Instr>::empty());
            }
        },
        Tree::Var(name) => {
            match lookup_in(scopes, name@) {
                Some(o) => {
                    lemma_slot_moves_fixed(Op::Add, Reg::T0, Reg::Fp, o, 0isize);
                    lemma_slot_moves_concat(seq![Instr::Ld(Reg::T0, o, Reg::Fp)], push_code(Reg::T0));
                },
                None => {
                    assert(gen_tree(tree, scopes, offset).code =~= Seq::<Instr>::empty());
                },
            }
        },
    }
}

/// Stack discipline counted in instructions: the code of a tree that compiles holds exactly
/// one more `addi sp, sp, -8` than `addi sp, sp, 8`, and no prefix of it holds more of the
/// second than of the first.
pub proof fn lemma_gen_tree_push_pop_counts(tree: Tree, scopes: Seq<ScopeMap>, offset: i64)
    requires
        gen_tree(tree, scopes, offset).error is None,
    ensures
        pushes(gen_tree(tree, scopes, offset).code) == pops(gen_tree(tree, scopes, offset).code)
            + 1,
        forall|k: int|
            0 <= k <= gen_tree(tree, scopes, offset).code.len() ==> pops(
                #[trigger] gen_tree(tree, scopes, offset).code.take(k),
            ) <= pushes(gen_tree(tree, scopes, offset).code.take(k)),
{
    let code = gen_tree(tree, scopes, offset).code;
    lemma_gen_tree_stack(tree, scopes, offset);
    lemma_gen_tree_slot_moves(tree, scopes, offset);
    lemma_slot_moves_count(code);
    assert forall|k: int| 0 <= k <= code.len() implies pops(#[trigger] code.take(k)) <= pushes(
        code.take(k),
    ) by {
        lemma_slot_moves_take(code, k);
        lemma_slot_moves_count(code.take(k));
        assert(sp_change(code.take(k)) <= 0);
    }
}

} // verus!

verus! {

/// The names that `tree` assigns to.
pub open spec fn assigned_names(t: Tree) -> Set<Seq<char>>
    decreases t,
{
    match t {
        Tree::Assign(l, r) => match *l {
            Tree::Var(x) => assigned_names(*r).insert(x@),
            _ => Set::empty(),
        },
        Tree::BinOp(_, l, r) => assigned_names(*l).union(assigned_names(*r)),
        _ => Set::empty(),
    }
}

/// The names that the statements `trees` assign to.
pub open spec fn assigned_in(trees: Seq<Tree>) -> Set<Seq<char>>
    decreases trees.len(),
{
    if trees.len() == 0 {
        Set::empty()
    } else {
        assigned_names(trees[0]).union(assigned_in(trees.drop_first()))
    }
}

/// The names of `names` that no scope of `scopes` binds.
pub open spec fn unbound_in(names: Set<Seq<char>>, scopes: Seq<ScopeMap>) -> Set<Seq<char>> {
    Set::new(|x: Seq<char>| names.contains(x) && lookup_in(scopes, x) is None)
}

/// `r` is `s` with the names of `names` that `s` does not bind added to its innermost scope,
/// every other scope left alone.
pub open spec fn declares(s: Seq<ScopeMap>, r: Seq<ScopeMap>, names: Set<Seq<char>>) -> bool {
    &&& s.len() > 0
    &&& r.len() == s.len()
    &&& forall|i: int| 0 <= i < s.len() - 1 ==> #[trigger] r[i] == s[i]
    &&& r.last().dom() == s.last().dom().union(unbound_in(names, s))
}

/// A name is unbound in scopes that only grew innermost exactly when it was unbound before
/// and the innermost scope did not gain it.
proof fn lemma_lookup_none_grown(s: Seq<ScopeMap>, a: Seq<ScopeMap>, x: Seq<char>)
    requires
        s.len() > 0,
        a.len() == s.len(),
        forall|i: int| 0 <= i < s.len() - 1 ==> #[trigger] a[i] == s[i],
        s.last().dom().subset_of(a.last().dom()),
    ensures
        (lookup_in(a, x) is None) == (lookup_in(s, x) is None && !a.last().contains_key(x)),
{
    assert(a.drop_last() =~= s.drop_last());
    if !a.last().contains_key(x) {
        assert(!s.last().dom().contains(x));
    }
}

proof fn lemma_declares_nothing(s: Seq<ScopeMap>)
    requires
        s.len() > 0,
    ensures
        declares(s, s, Set::empty()),
{
    assert(s.last().dom().union(unbound_in(Set::empty(), s)) =~= s.last().dom());
}

proof fn lemma_declares_compose(
    s: Seq<ScopeMap>,
    a: Seq<ScopeMap>,
    b: Seq<ScopeMap>,
    n1: Set<Seq<char>>,
    n2: Set<Seq<char>>,
)
    requires
        declares(s, a, n1),
        declares(a, b, n2),
    ensures
        declares(s, b, n1.union(n2)),
{
    assert forall|i: int| 0 <= i < s.len() - 1 implies #[trigger] b[i] == s[i] by {
        assert(a[i] == s[i]);
    }
    let lhs = b.last().dom();
    let rhs = s.last().dom().union(unbound_in(n1.union(n2), s));
    assert forall|x: Seq<char>| lhs.contains(x) <==> rhs.contains(x) by {
        lemma_lookup_none_grown(s, a, x);
    }
    assert(lhs =~= rhs);
}

/// Binding `name` in the innermost scope, or finding it bound, declares `name`.
proof fn lemma_declares_one(a: Seq<ScopeMap>, name: Seq<char>, o: i64)
    requires
        a.len() > 0,
    ensures
        lookup_in(a, name) is Some ==> declares(a, a, set![name]),
        lookup_in(a, name) is None ==> declares(a, bind_innermost(a, name, o), set![name]),
        lookup_in(a, name) is None ==> !a.last().contains_key(name),
{
    let b = bind_innermost(a, name, o);
    assert forall|i: int| 0 <= i < a.len() - 1 implies #[trigger] b[i] == a[i] by {}
    if lookup_in(a, name) is Some {
        assert(a.last().dom().union(unbound_in(set![name], a)) =~= a.last().dom());
    } else {
        assert(b.last().dom() =~= a.last().dom().union(unbound_in(set![name], a)));
    }
}

/// What compiling a tree declares: the names it assigns that no scope binds go into the
/// innermost scope, one 8-byte slot each.
proof fn lemma_gen_tree_declares(tree: Tree, scopes: Seq<ScopeMap>, offset: i64)
    requires
        scopes.len() > 0,
        scopes.last().dom().finite(),
        gen_tree(tree, scopes, offset).error is None,
    ensures
        ({
            let g = gen_tree(tree, scopes, offset);
            &&& declares(scopes, g.scopes, assigned_names(tree))
            &&& g.scopes.last().dom().finite()
            &&& g.offset == offset - 8 * (g.scopes.last().dom().len() - scopes.last().dom().len())
        }),
    decreases tree,
{
    match tree {
        Tree::BinOp(op, lhs, rhs) => {
            let a = gen_tree(*lhs, scopes, offset);
            lemma_gen_tree_declares(*lhs, scopes, offset);
            lemma_gen_tree_declares(*rhs, a.scopes, a.offset);
            let b = gen_tree(*rhs, a.scopes, a.offset);
            lemma_declares_compose(scopes, a.scopes, b.scopes, assigned_names(*lhs), assigned_names(*rhs));
        },
        Tree::Assign(lhs, rhs) => {
            if let Tree::Var(name) = *lhs {
                let a = gen_tree(*rhs, scopes, offset);
                lemma_gen_tree_declares(*rhs, scopes, offset);
                let o = (a.offset - 8) as i64;
                lemma_declares_one(a.scopes, name@, o);
                let g = gen_tree(tree, scopes, offset);
                lemma_declares_compose(scopes, a.scopes, g.scopes, assigned_names(*rhs), set![name@]);
                assert(assigned_names(*rhs).union(set![name@]) =~= assigned_names(tree));
                if lookup_in(a.scopes, name@) is None {
                    assert(g.scopes.last().dom() =~= a.scopes.last().dom().insert(name@));
                }
            }
        },
        _ => {
            lemma_declares_nothing(scopes);
        },
    }
}

proof fn lemma_gen_trees_declares(trees: Seq<Tree>, scopes: Seq<ScopeMap>, offset: i64)
    requires
        scopes.len() > 0,
        scopes.last().dom().finite(),
        gen_trees(trees, scopes, offset).error is None,
    ensures
        ({
            let g = gen_trees(trees, scopes, offset);
            &&& declares(scopes, g.scopes, assigned_in(trees))
            &&& g.scopes.last().dom().finite()
            &&& g.offset == offset - 8 * (g.scopes.last().dom().len() - scopes.last().dom().len())
        }),
    decreases trees.len(),
{
    if trees.len() == 0 {
        lemma_declares_nothing(scopes);
    } else {
        let a = gen_tree(trees[0], scopes, offset);
        lemma_gen_tree_declares(trees[0], scopes, offset);
        lemma_gen_trees_declares(trees.drop_first(), a.scopes, a.offset);
        let b = gen_trees(trees.drop_first(), a.scopes, a.offset);
        lemma_declares_compose(scopes, a.scopes, b.scopes, assigned_names(trees[0]), assigned_in(trees.drop_first()));
    }
}

/// A program closes the scope it opened: when it compiles, the scopes are as before, and
/// the frame offset has dropped by 8 for each name the program assigns that no scope bound
/// before, since each such name got a slot of its own.
pub proof fn lemma_gen_program_declarations(trees: Seq<Tree>, scopes: Seq<ScopeMap>, offset: i64)
    requires
        gen_program(trees, scopes, offset).error is None,
    ensures
        gen_program(trees, scopes, offset).scopes == scopes,
        unbound_in(assigned_in(trees), scopes).finite(),
        gen_program(trees, scopes, offset).offset == offset - 8 * unbound_in(
            assigned_in(trees),
            scopes,
        ).len(),
{
    let s = scopes.push(Map::empty());
    let r = gen_trees(trees, s, offset);
    assert(s.last().dom() =~= Set::<Seq<char>>::empty());
    lemma_gen_trees_declares(trees, s, offset);
    assert(r.scopes.drop_last() =~= scopes) by {
        assert forall|i: int| 0 <= i < scopes.len() implies r.scopes.drop_last()[i] == scopes[i] by {
            assert(r.scopes[i] == s[i]);
        }
    }
    assert(unbound_in(assigned_in(trees), s) =~= unbound_in(assigned_in(trees), scopes)) by {
        assert(s.drop_last() =~= scopes);
    }
    assert(r.scopes.last().dom() =~= unbound_in(assigned_in(trees), scopes));
}

} // verus!
