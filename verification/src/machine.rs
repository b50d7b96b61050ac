use vstd::prelude::*;

use crate::generator::{
    bind_innermost,
    gen_program,
    gen_tree,
    gen_trees,
    lemma_lookup_after_bind,
    lookup_in,
    op_code,
    pop_code,
    push_code,
    Instr,
    Reg,
    ScopeMap,
};
use crate::parser::{Op, Tree};

verus! {

/// The state of a RISC-V machine as far as the generated code touches it: the 64-bit
/// registers `t0` and `t1`, the stack and frame pointers, and the memory's 64-bit words.
pub struct MachineState {
    pub t0: i64,
    pub t1: i64,
    pub sp: int,
    pub fp: int,
    pub mem: Map<int, i64>,
}

/// The value of a register.
pub open spec fn get_reg(s: MachineState, r: Reg) -> int {
    match r {
        Reg::T0 => s.t0 as int,
        Reg::T1 => s.t1 as int,
        Reg::Sp => s.sp,
        Reg::Fp => s.fp,
    }
}

/// The state after writing `v` to a register; the 64-bit registers keep the low 64 bits.
pub open spec fn set_reg(s: MachineState, r: Reg, v: int) -> MachineState {
    match r {
        Reg::T0 => MachineState { t0: v as i64, ..s },
        Reg::T1 => MachineState { t1: v as i64, ..s },
        Reg::Sp => MachineState { sp: v, ..s },
        Reg::Fp => MachineState { fp: v, ..s },
    }
}

/// RISC-V `div`: signed division rounding toward zero; division by zero gives -1 and the
/// one overflowing case gives the dividend.
pub open spec fn div_toward_zero(a: int, b: int) -> int {
    if b == 0 {
        -1
    } else if a == i64::MIN && b == -1 {
        i64::MIN as int
    } else {
        let q = (if a < 0 { -a } else { a }) / (if b < 0 { -b } else { b });
        if (a < 0) != (b < 0) {
            -q
        } else {
            q
        }
    }
}

/// 1 if `b` holds, else 0.
pub open spec fn flag(b: bool) -> int {
    if b {
        1
    } else {
        0
    }
}

/// The effect of one instruction.
pub open spec fn step(i: Instr, s: MachineState) -> MachineState {
    match i {
        Instr::Li(rd, n) => set_reg(s, rd, n as int),
        Instr::Addi(rd, rs, imm) => set_reg(s, rd, get_reg(s, rs) + imm),
        Instr::Sd(rs, offset, base) => MachineState {
            mem: s.mem.insert(get_reg(s, base) + offset, get_reg(s, rs) as i64),
            ..s
        },
        Instr::Ld(rd, offset, base) => set_reg(s, rd, s.mem[get_reg(s, base) + offset] as int),
        Instr::Add(rd, a, b) => set_reg(s, rd, get_reg(s, a) + get_reg(s, b)),
        Instr::Sub(rd, a, b) => set_reg(s, rd, get_reg(s, a) - get_reg(s, b)),
        Instr::Mul(rd, a, b) => set_reg(s, rd, get_reg(s, a) * get_reg(s, b)),
        Instr::Div(rd, a, b) => set_reg(s, rd, div_toward_zero(get_reg(s, a), get_reg(s, b))),
        Instr::Slt(rd, a, b) => set_reg(s, rd, flag(get_reg(s, a) < get_reg(s, b))),
        Instr::Seqz(rd, rs) => set_reg(s, rd, flag(get_reg(s, rs) == 0)),
        Instr::Snez(rd, rs) => set_reg(s, rd, flag(get_reg(s, rs) != 0)),
        Instr::Xori(rd, rs, imm) => set_reg(s, rd, ((get_reg(s, rs) as i64) ^ imm) as int),
    }
}

/// The effect of running `code` from its first instruction to its last.
pub open spec fn run(code: Seq<Instr>, s: MachineState) -> MachineState
    decreases code.len(),
{
    if code.len() == 0 {
        s
    } else {
        step(code.last(), run(code.drop_last(), s))
    }
}

/// The tree holds no variable and no assignment.
pub open spec fn var_free(t: Tree) -> bool
    decreases t,
{
    match t {
        Tree::Integer(_) => true,
        Tree::BinOp(_, l, r) => var_free(*l) && var_free(*r),
        _ => false,
    }
}

/// The value of an operation on 64-bit integers, as the program means it: arithmetic
/// wraps around, comparisons give 1 for true and 0 for false.
pub open spec fn apply_op(op: Op, a: i64, b: i64) -> i64 {
    match op {
        Op::Add => (a + b) as i64,
        Op::Sub => (a - b) as i64,
        Op::Mul => (a * b) as i64,
        Op::Div => div_toward_zero(a as int, b as int) as i64,
        Op::Eq => flag(a == b) as i64,
        Op::NotEq => flag(a != b) as i64,
        Op::GreaterThan => flag(a > b) as i64,
        Op::LessThan => flag(a < b) as i64,
        Op::GreaterThanOrEq => flag(a >= b) as i64,
        Op::LessThanOrEq => flag(a <= b) as i64,
    }
}

/// The value of a variable-free expression.
pub open spec fn eval(t: Tree) -> i64
    decreases t,
{
    match t {
        Tree::Integer(n) => n as i64,
        Tree::BinOp(op, l, r) => apply_op(op, eval(*l), eval(*r)),
        _ => 0,
    }
}

/// The two memories hold the same words at every address from `bound` on.
pub open spec fn same_from(m1: Map<int, i64>, m2: Map<int, i64>, bound: int) -> bool {
    forall|a: int|
        bound <= a ==> (m1.contains_key(a) <==> m2.contains_key(a)) && (#[trigger] m1.contains_key(
            a,
        ) ==> m1[a] == m2[a])
}

} // verus!

verus! {

proof fn lemma_run_concat(x: Seq<Instr>, y: Seq<Instr>, s: MachineState)
    ensures
        run(x + y, s) == run(y, run(x, s)),
    decreases y.len(),
{
    if y.len() == 0 {
        assert(x + y =~= x);
    } else {
        assert((x + y).drop_last() =~= x + y.drop_last());
        assert((x + y).last() == y.last());
        lemma_run_concat(x, y.drop_last(), s);
    }
}

proof fn lemma_run_one(a: Instr, s: MachineState)
    ensures
        run(seq![a], s) == step(a, s),
{
    assert(seq![a].drop_last() =~= Seq::<Instr>::empty());
    assert(run(Seq::<Instr>::empty(), s) == s);
    assert(seq![a].last() == a);
}

proof fn lemma_run_two(a: Instr, b: Instr, s: MachineState)
    ensures
        run(seq![a, b], s) == step(b, step(a, s)),
{
    assert(seq![a, b].drop_last() =~= seq![a]);
    lemma_run_one(a, s);
}

/// Pushing a register stores its low 64 bits in the word below the stack pointer.
proof fn lemma_push_effect(reg: Reg, s: MachineState)
    requires
        reg != Reg::Sp,
    ensures
        run(push_code(reg), s) == (MachineState {
            sp: s.sp - 8,
            mem: s.mem.insert(s.sp - 8, get_reg(s, reg) as i64),
            ..s
        }),
{
    lemma_run_two(Instr::Addi(Reg::Sp, Reg::Sp, -8i64), Instr::Sd(reg, 0i64, Reg::Sp), s);
}

/// Popping into a register loads the word at the stack pointer.
proof fn lemma_pop_effect(reg: Reg, s: MachineState)
    requires
        reg != Reg::Sp,
    ensures
        run(pop_code(reg), s) == (MachineState {
            sp: s.sp + 8,
            ..set_reg(s, reg, s.mem[s.sp] as int)
        }),
{
    lemma_run_two(Instr::Ld(reg, 0i64, Reg::Sp), Instr::Addi(Reg::Sp, Reg::Sp, 8i64), s);
}

/// Pop undoes push: pushing `r1` and then popping into `r2`, neither of them the stack
/// pointer, moves the value of `r1` into `r2`, leaves every other register and the stack
/// pointer as they were, and changes memory only in the word just below the stack pointer.
/// The frame pointer, when pushed, holds a 64-bit value, as every register of the machine
/// does.
pub proof fn lemma_push_then_pop(r1: Reg, r2: Reg, s: MachineState)
    requires
        r1 != Reg::Sp,
        r2 != Reg::Sp,
        r1 == Reg::Fp ==> i64::MIN <= s.fp <= i64::MAX,
    ensures
        ({
            let e = run(push_code(r1) + pop_code(r2), s);
            &&& get_reg(e, r2) == get_reg(s, r1)
            &&& e.sp == s.sp
            &&& r2 != Reg::T0 ==> e.t0 == s.t0
            &&& r2 != Reg::T1 ==> e.t1 == s.t1
            &&& r2 != Reg::Fp ==> e.fp == s.fp
            &&& e.mem == s.mem.insert(s.sp - 8, get_reg(s, r1) as i64)
        }),
{
    lemma_run_concat(push_code(r1), pop_code(r2), s);
    lemma_push_effect(r1, s);
    let m = run(push_code(r1), s);
    lemma_pop_effect(r2, m);
    assert(m.mem[m.sp] == get_reg(s, r1) as i64);
}

proof fn lemma_sub_zero(a: i64, b: i64)
    ensures
        (((a - b) as i64) == 0) == (a == b),
{
    assert((((a - b) as i64) == 0) == (a == b)) by (bit_vector);
}

proof fn lemma_xor_one_flips(x: i64)
    requires
        x == 0 || x == 1,
    ensures
        (x ^ 1i64) == 1 - x,
{
    assert((x == 0 || x == 1) ==> (x ^ 1i64) == 1 - x) by (bit_vector);
}

/// The operator code combines `t0` (left) and `t1` (right) into `t0` as the operator means.
proof fn lemma_op_effect(op: Op, s: MachineState)
    ensures
        run(op_code(op), s) == (MachineState { t0: apply_op(op, s.t0, s.t1), ..s }),
{
    let a = s.t0;
    let b = s.t1;
    match op {
        Op::Add => lemma_run_one(Instr::Add(Reg::T0, Reg::T0, Reg::T1), s),
        Op::Sub => lemma_run_one(Instr::Sub(Reg::T0, Reg::T0, Reg::T1), s),
        Op::Mul => lemma_run_one(Instr::Mul(Reg::T0, Reg::T0, Reg::T1), s),
        Op::Div => lemma_run_one(Instr::Div(Reg::T0, Reg::T0, Reg::T1), s),
        Op::Eq => {
            lemma_run_two(Instr::Sub(Reg::T0, Reg::T0, Reg::T1), Instr::Seqz(Reg::T0, Reg::T0), s);
            lemma_sub_zero(a, b);
        },
        Op::NotEq => {
            lemma_run_two(Instr::Sub(Reg::T0, Reg::T0, Reg::T1), Instr::Snez(Reg::T0, Reg::T0), s);
            lemma_sub_zero(a, b);
        },
        Op::GreaterThan => lemma_run_one(Instr::Slt(Reg::T0, Reg::T1, Reg::T0), s),
        Op::LessThan => lemma_run_one(Instr::Slt(Reg::T0, Reg::T0, Reg::T1), s),
        Op::GreaterThanOrEq => {
            lemma_run_two(
                Instr::Slt(Reg::T0, Reg::T0, Reg::T1),
                Instr::Xori(Reg::T0, Reg::T0, 1i64),
                s,
            );
            lemma_xor_one_flips(flag(a < b) as i64);
        },
        Op::LessThanOrEq => {
            lemma_run_two(
                Instr::Slt(Reg::T0, Reg::T1, Reg::T0),
                Instr::Xori(Reg::T0, Reg::T0, 1i64),
                s,
            );
            lemma_xor_one_flips(flag(b < a) as i64);
        },
    }
}

} // verus!

verus! {

/// What running the code of an expression guarantees: one word pushed, holding `v`, which
/// is also left in `t0`; the frame pointer and the memory from the old stack pointer on are
/// untouched.
pub open spec fn pushes_value(s: MachineState, s2: MachineState, v: i64) -> bool {
    &&& s2.sp == s.sp - 8
    &&& s2.fp == s.fp
    &&& s2.t0 == v
    &&& s2.mem.contains_key(s.sp - 8)
    &&& s2.mem[s.sp - 8] == v
    &&& same_from(s2.mem, s.mem, s.sp)
}

/// Correctness of the code generator on expressions without variables: from any machine
/// state, the code of `t` pushes the value of `t` on the stack (and leaves it in `t0`),
/// touching neither the frame pointer nor the memory above the stack it found.
pub proof fn lemma_gen_tree_correct(t: Tree, scopes: Seq<ScopeMap>, offset: i64, s: MachineState)
    requires
        var_free(t),
    ensures
        gen_tree(t, scopes, offset).error is None,
        gen_tree(t, scopes, offset).scopes == scopes,
        gen_tree(t, scopes, offset).offset == offset,
        pushes_value(s, run(gen_tree(t, scopes, offset).code, s), eval(t)),
    decreases t,
{
    let g = gen_tree(t, scopes, offset);
    match t {
        Tree::Integer(n) => {
            lemma_run_concat(seq![Instr::Li(Reg::T0, n)], push_code(Reg::T0), s);
            lemma_run_one(Instr::Li(Reg::T0, n), s);
            let s1 = step(Instr::Li(Reg::T0, n), s);
            lemma_push_effect(Reg::T0, s1);
        },
        Tree::BinOp(op, lhs, rhs) => {
            let a = gen_tree(*lhs, scopes, offset);
            lemma_gen_tree_correct(*lhs, scopes, offset, s);
            let s1 = run(a.code, s);
            let b = gen_tree(*rhs, scopes, offset);
            lemma_gen_tree_correct(*rhs, scopes, offset, s1);
            let s2 = run(b.code, s1);
            let va = eval(*lhs);
            let vb = eval(*rhs);
            assert(s2.mem.contains_key(s.sp - 8) && s2.mem[s.sp - 8] == va) by {
                assert(s1.mem.contains_key(s.sp - 8));
                assert(s1.sp <= s.sp - 8);
                assert(s2.mem.contains_key(s.sp - 8) <==> s1.mem.contains_key(s.sp - 8));
            }
            lemma_pop_effect(Reg::T1, s2);
            let s3 = run(pop_code(Reg::T1), s2);
            lemma_pop_effect(Reg::T0, s3);
            let s4 = run(pop_code(Reg::T0), s3);
            assert(s4.t0 == va && s4.t1 == vb && s4.sp == s.sp);
            lemma_op_effect(op, s4);
            let s5 = run(op_code(op), s4);
            lemma_push_effect(Reg::T0, s5);
            let s6 = run(push_code(Reg::T0), s5);
            let c1 = a.code + b.code;
            let c2 = c1 + pop_code(Reg::T1);
            let c3 = c2 + pop_code(Reg::T0);
            let c4 = c3 + op_code(op);
            lemma_run_concat(a.code, b.code, s);
            lemma_run_concat(c1, pop_code(Reg::T1), s);
            lemma_run_concat(c2, pop_code(Reg::T0), s);
            lemma_run_concat(c3, op_code(op), s);
            lemma_run_concat(c4, push_code(Reg::T0), s);
            assert(g.code == c4 + push_code(Reg::T0));
            assert(run(g.code, s) == s6);
            assert(same_from(s6.mem, s.mem, s.sp)) by {
                assert forall|x: int| s.sp <= x implies (s6.mem.contains_key(x)
                    <==> s.mem.contains_key(x)) && (#[trigger] s6.mem.contains_key(x)
                    ==> s6.mem[x] == s.mem[x]) by {
                    assert(s1.mem.contains_key(x) == s.mem.contains_key(x));
                    assert(s2.mem.contains_key(x) == s1.mem.contains_key(x));
                }
            }
        },
        _ => {},
    }
}

} // verus!

verus! {

/// Every statement is free of variables.
pub open spec fn all_var_free(trees: Seq<Tree>) -> bool {
    forall|i: int| 0 <= i < trees.len() ==> var_free(#[trigger] trees[i])
}

/// What running the code of a program guarantees: the stack and frame pointers end where
/// they started, the memory from the stack pointer on is untouched, and `t0` holds the
/// value of the last statement (or what it held before, for an empty program).
pub open spec fn leaves_value(s: MachineState, s2: MachineState, trees: Seq<Tree>) -> bool {
    &&& s2.sp == s.sp
    &&& s2.fp == s.fp
    &&& same_from(s2.mem, s.mem, s.sp)
    &&& s2.t0 == (if trees.len() == 0 {
        s.t0
    } else {
        eval(trees.last())
    })
}

proof fn lemma_gen_trees_correct(
    trees: Seq<Tree>,
    scopes: Seq<ScopeMap>,
    offset: i64,
    s: MachineState,
)
    requires
        all_var_free(trees),
    ensures
        gen_trees(trees, scopes, offset).error is None,
        gen_trees(trees, scopes, offset).scopes == scopes,
        gen_trees(trees, scopes, offset).offset == offset,
        leaves_value(s, run(gen_trees(trees, scopes, offset).code, s), trees),
    decreases trees.len(),
{
    if trees.len() > 0 {
        let a = gen_tree(trees[0], scopes, offset);
        lemma_gen_tree_correct(trees[0], scopes, offset, s);
        let s1 = run(a.code, s);
        lemma_pop_effect(Reg::T0, s1);
        let s2 = run(pop_code(Reg::T0), s1);
        let rest = trees.drop_first();
        assert forall|i: int| 0 <= i < rest.len() implies var_free(#[trigger] rest[i]) by {
            assert(rest[i] == trees[i + 1]);
        }
        let b = gen_trees(rest, scopes, offset);
        lemma_gen_trees_correct(rest, scopes, offset, s2);
        let s3 = run(b.code, s2);
        lemma_run_concat(a.code, pop_code(Reg::T0), s);
        lemma_run_concat(a.code + pop_code(Reg::T0), b.code, s);
        assert(run(gen_trees(trees, scopes, offset).code, s) == s3);
        if rest.len() == 0 {
            assert(trees.last() == trees[0]);
        } else {
            assert(rest.last() == trees.last());
        }
        assert(same_from(s3.mem, s.mem, s.sp)) by {
            assert forall|x: int| s.sp <= x implies (s3.mem.contains_key(x)
                <==> s.mem.contains_key(x)) && (#[trigger] s3.mem.contains_key(x) ==> s3.mem[x]
                == s.mem[x]) by {
                assert(s1.mem.contains_key(x) == s.mem.contains_key(x));
            }
        }
    }
}

/// Correctness of the compiler on programs without variables: from any machine state, the
/// code of the program leaves the stack and frame pointers where they were, does not touch
/// the memory above the stack, and leaves in `t0` (the program's exit code) the value of
/// its last statement.
pub proof fn lemma_gen_program_correct(
    trees: Seq<Tree>,
    scopes: Seq<ScopeMap>,
    offset: i64,
    s: MachineState,
)
    requires
        all_var_free(trees),
    ensures
        gen_program(trees, scopes, offset).error is None,
        gen_program(trees, scopes, offset).scopes == scopes,
        leaves_value(s, run(gen_program(trees, scopes, offset).code, s), trees),
{
    lemma_gen_trees_correct(trees, scopes.push(Map::empty()), offset, s);
    assert(scopes.push(Map::empty()).drop_last() =~= scopes);
}

} // verus!

verus! {

/// The values of the variables, by name.
pub type Store = Map<Seq<char>, i64>;

/// The value of an expression and the variables after it, evaluated from left to right;
/// an assignment gives the value it stores.
pub open spec fn eval_in(t: Tree, store: Store) -> (i64, Store)
    decreases t,
{
    match t {
        Tree::Integer(n) => (n as i64, store),
        Tree::Var(name) => (store[name@], store),
        Tree::Assign(lhs, rhs) => match *lhs {
            Tree::Var(name) => {
                let (v, st) = eval_in(*rhs, store);
                (v, st.insert(name@, v))
            },
            _ => (0, store),
        },
        Tree::BinOp(op, l, r) => {
            let (va, s1) = eval_in(*l, store);
            let (vb, s2) = eval_in(*r, s1);
            (apply_op(op, va, vb), s2)
        },
    }
}

/// The value of the last statement (or `none` for an empty program) and the variables
/// after running the statements in order.
pub open spec fn eval_program(trees: Seq<Tree>, store: Store, none: i64) -> (i64, Store)
    decreases trees.len(),
{
    if trees.len() == 0 {
        (none, store)
    } else {
        let (v, st) = eval_in(trees[0], store);
        eval_program(trees.drop_first(), st, v)
    }
}

/// The visible variables lie at `offset` or above, each in a slot of its own.
pub open spec fn slots_ok(scopes: Seq<ScopeMap>, offset: i64) -> bool {
    &&& forall|n: Seq<char>| #[trigger]
        lookup_in(scopes, n) matches Some(o) ==> o >= offset
    &&& forall|n1: Seq<char>, n2: Seq<char>|
        n1 != n2 && #[trigger] lookup_in(scopes, n1) is Some && #[trigger] lookup_in(scopes, n2)
            is Some ==> lookup_in(scopes, n1) != lookup_in(scopes, n2)
}

/// The memory holds the value of every visible variable in its slot, at or above `base`,
/// and the store knows exactly the visible variables.
pub open spec fn consistent(
    scopes: Seq<ScopeMap>,
    store: Store,
    mem: Map<int, i64>,
    fp: int,
    base: int,
) -> bool {
    forall|n: Seq<char>|
        {
            &&& (#[trigger] lookup_in(scopes, n) is Some <==> store.contains_key(n))
            &&& (lookup_in(scopes, n) matches Some(o) ==> {
                &&& fp + o >= base
                &&& mem.contains_key(fp + o)
                &&& mem[fp + o] == store[n]
            })
        }
}

/// The two memories agree on the addresses from `lo` up to (not including) `hi`.
pub open spec fn same_between(m1: Map<int, i64>, m2: Map<int, i64>, lo: int, hi: int) -> bool {
    forall|a: int|
        lo <= a < hi ==> (m1.contains_key(a) <==> m2.contains_key(a)) && (#[trigger] m1.contains_key(
            a,
        ) ==> m1[a] == m2[a])
}

/// Compiling never moves the frame offset up.
pub proof fn lemma_gen_tree_offset_down(t: Tree, scopes: Seq<ScopeMap>, offset: i64)
    ensures
        gen_tree(t, scopes, offset).offset <= offset,
    decreases t,
{
    match t {
        Tree::BinOp(_, l, r) => {
            lemma_gen_tree_offset_down(*l, scopes, offset);
            let a = gen_tree(*l, scopes, offset);
            lemma_gen_tree_offset_down(*r, a.scopes, a.offset);
        },
        Tree::Assign(_, r) => {
            lemma_gen_tree_offset_down(*r, scopes, offset);
        },
        _ => {},
    }
}

proof fn lemma_gen_trees_offset_down(trees: Seq<Tree>, scopes: Seq<ScopeMap>, offset: i64)
    ensures
        gen_trees(trees, scopes, offset).offset <= offset,
    decreases trees.len(),
{
    if trees.len() > 0 {
        lemma_gen_tree_offset_down(trees[0], scopes, offset);
        let a = gen_tree(trees[0], scopes, offset);
        lemma_gen_trees_offset_down(trees.drop_first(), a.scopes, a.offset);
    }
}

} // verus!

verus! {

proof fn lemma_consistent_write_below(
    scopes: Seq<ScopeMap>,
    store: Store,
    mem: Map<int, i64>,
    fp: int,
    base: int,
    addr: int,
    v: i64,
)
    requires
        consistent(scopes, store, mem, fp, base),
        addr < base,
    ensures
        consistent(scopes, store, mem.insert(addr, v), fp, base),
{
    assert forall|n: Seq<char>| #[trigger] lookup_in(scopes, n) is Some implies {
        &&& mem.insert(addr, v).contains_key(fp + lookup_in(scopes, n)->0)
        &&& mem.insert(addr, v)[fp + lookup_in(scopes, n)->0] == store[n]
    } by {
        assert(fp + lookup_in(scopes, n)->0 != addr);
    }
}

proof fn lemma_consistent_store_existing(
    scopes: Seq<ScopeMap>,
    offset: i64,
    store: Store,
    mem: Map<int, i64>,
    fp: int,
    base: int,
    name: Seq<char>,
    o: i64,
    v: i64,
)
    requires
        slots_ok(scopes, offset),
        consistent(scopes, store, mem, fp, base),
        lookup_in(scopes, name) == Some(o),
    ensures
        consistent(scopes, store.insert(name, v), mem.insert(fp + o, v), fp, base),
{
    assert forall|n: Seq<char>| #[trigger] lookup_in(scopes, n) is Some implies {
        &&& mem.insert(fp + o, v).contains_key(fp + lookup_in(scopes, n)->0)
        &&& mem.insert(fp + o, v)[fp + lookup_in(scopes, n)->0] == store.insert(name, v)[n]
    } by {
        if n != name {
            assert(lookup_in(scopes, n) != lookup_in(scopes, name));
        }
    }
}

proof fn lemma_consistent_store_fresh(
    scopes: Seq<ScopeMap>,
    offset: i64,
    store: Store,
    mem: Map<int, i64>,
    fp: int,
    base: int,
    name: Seq<char>,
    v: i64,
)
    requires
        slots_ok(scopes, offset),
        consistent(scopes, store, mem, fp, base),
        lookup_in(scopes, name) is None,
        scopes.len() > 0,
        offset >= i64::MIN + 8,
        fp + offset - 8 >= base,
    ensures
        slots_ok(bind_innermost(scopes, name, (offset - 8) as i64), (offset - 8) as i64),
        consistent(
            bind_innermost(scopes, name, (offset - 8) as i64),
            store.insert(name, v),
            mem.insert(fp + offset - 8, v),
            fp,
            base,
        ),
{
    let o2 = (offset - 8) as i64;
    let sc = bind_innermost(scopes, name, o2);
    assert forall|n: Seq<char>| n != name implies #[trigger] lookup_in(sc, n) == lookup_in(
        scopes,
        n,
    ) by {
        lemma_lookup_after_bind(scopes, name, o2, n);
    }
    lemma_lookup_after_bind(scopes, name, o2, name);
    assert forall|n: Seq<char>| #[trigger] lookup_in(sc, n) is Some implies lookup_in(sc, n)->0
        >= o2 by {
        if n != name {
            assert(lookup_in(scopes, n) == lookup_in(sc, n));
        }
    }
    assert forall|n1: Seq<char>, n2: Seq<char>|
        n1 != n2 && #[trigger] lookup_in(sc, n1) is Some && #[trigger] lookup_in(sc, n2)
            is Some implies lookup_in(sc, n1) != lookup_in(sc, n2) by {
        if n1 != name && n2 != name {
            assert(lookup_in(scopes, n1) != lookup_in(scopes, n2));
        } else if n1 == name {
            assert(lookup_in(scopes, n2) == lookup_in(sc, n2));
        } else {
            assert(lookup_in(scopes, n1) == lookup_in(sc, n1));
        }
    }
    let st = store.insert(name, v);
    let m2 = mem.insert(fp + offset - 8, v);
    assert forall|n: Seq<char>|
        {
            &&& (#[trigger] lookup_in(sc, n) is Some <==> st.contains_key(n))
            &&& (lookup_in(sc, n) matches Some(o) ==> {
                &&& fp + o >= base
                &&& m2.contains_key(fp + o)
                &&& m2[fp + o] == st[n]
            })
        } by {
        if n != name {
            assert(lookup_in(sc, n) == lookup_in(scopes, n));
            if let Some(o) = lookup_in(scopes, n) {
                assert(fp + o != fp + offset - 8);
            }
        }
    }
}

} // verus!

verus! {

/// What running the code of an expression guarantees when variables live in frame slots
/// at or above `base`: one word pushed, holding the value `v`, which is also left in `t0`;
/// the frame pointer and the stack between the old stack pointer and `base` untouched.
pub open spec fn pushes_value_below(s: MachineState, s2: MachineState, v: i64, base: int) -> bool {
    &&& s2.sp == s.sp - 8
    &&& s2.fp == s.fp
    &&& s2.t0 == v
    &&& s2.mem.contains_key(s.sp - 8)
    &&& s2.mem[s.sp - 8] == v
    &&& same_between(s2.mem, s.mem, s.sp, base)
}

/// Correctness of the code generator on expressions with variables: when every variable's
/// slot (including those the expression declares) lies at or above `base`, and the stack
/// pointer is at or below `base`, the code of `t` pushes the value of `t` (and leaves it in
/// `t0`), keeps the stack between its stack pointer and `base`, and leaves the memory
/// holding the variables' new values.
pub proof fn lemma_gen_tree_correct_with_variables(
    t: Tree,
    scopes: Seq<ScopeMap>,
    offset: i64,
    store: Store,
    s: MachineState,
    base: int,
)
    requires
        gen_tree(t, scopes, offset).error is None,
        slots_ok(scopes, offset),
        consistent(scopes, store, s.mem, s.fp, base),
        s.sp <= base,
        s.fp + gen_tree(t, scopes, offset).offset >= base,
    ensures
        ({
            let g = gen_tree(t, scopes, offset);
            let (v, st) = eval_in(t, store);
            let s2 = run(g.code, s);
            &&& pushes_value_below(s, s2, v, base)
            &&& slots_ok(g.scopes, g.offset)
            &&& consistent(g.scopes, st, s2.mem, s.fp, base)
        }),
    decreases t, 1int,
{
    let g = gen_tree(t, scopes, offset);
    match t {
        Tree::Integer(n) => {
            lemma_run_concat(seq![Instr::Li(Reg::T0, n)], push_code(Reg::T0), s);
            lemma_run_one(Instr::Li(Reg::T0, n), s);
            let s1 = step(Instr::Li(Reg::T0, n), s);
            lemma_push_effect(Reg::T0, s1);
            lemma_consistent_write_below(scopes, store, s.mem, s.fp, base, s.sp - 8, n as i64);
        },
        Tree::Var(name) => {
            let o = lookup_in(scopes, name@)->0;
            lemma_run_concat(seq![Instr::Ld(Reg::T0, o, Reg::Fp)], push_code(Reg::T0), s);
            lemma_run_one(Instr::Ld(Reg::T0, o, Reg::Fp), s);
            let s1 = step(Instr::Ld(Reg::T0, o, Reg::Fp), s);
            assert(s1.t0 == store[name@]);
            lemma_push_effect(Reg::T0, s1);
            lemma_consistent_write_below(scopes, store, s.mem, s.fp, base, s.sp - 8, s1.t0);
        },
        Tree::BinOp(op, lhs, rhs) => {
            lemma_binop_correct(op, *lhs, *rhs, scopes, offset, store, s, base);
        },
        Tree::Assign(lhs, rhs) => {
            if let Tree::Var(name) = *lhs {
                lemma_assign_correct(name@, *rhs, scopes, offset, store, s, base);
                assert(g == gen_tree(Tree::Assign(Box::new(Tree::Var(name)), rhs), scopes, offset));
            }
        },
    }
}

proof fn lemma_binop_correct(
    op: Op,
    lhs: Tree,
    rhs: Tree,
    scopes: Seq<ScopeMap>,
    offset: i64,
    store: Store,
    s: MachineState,
    base: int,
)
    requires
        gen_tree(Tree::BinOp(op, Box::new(lhs), Box::new(rhs)), scopes, offset).error is None,
        slots_ok(scopes, offset),
        consistent(scopes, store, s.mem, s.fp, base),
        s.sp <= base,
        s.fp + gen_tree(Tree::BinOp(op, Box::new(lhs), Box::new(rhs)), scopes, offset).offset
            >= base,
    ensures
        ({
            let t = Tree::BinOp(op, Box::new(lhs), Box::new(rhs));
            let g = gen_tree(t, scopes, offset);
            let (v, st) = eval_in(t, store);
            let s2 = run(g.code, s);
            &&& pushes_value_below(s, s2, v, base)
            &&& slots_ok(g.scopes, g.offset)
            &&& consistent(g.scopes, st, s2.mem, s.fp, base)
        }),
    decreases Tree::BinOp(op, Box::new(lhs), Box::new(rhs)), 0int,
{
    let t = Tree::BinOp(op, Box::new(lhs), Box::new(rhs));
    let g = gen_tree(t, scopes, offset);
    let a = gen_tree(lhs, scopes, offset);
    let b = gen_tree(rhs, a.scopes, a.offset);
    lemma_gen_tree_offset_down(rhs, a.scopes, a.offset);
    let (va, st1) = eval_in(lhs, store);
    let (vb, st2) = eval_in(rhs, st1);
    lemma_gen_tree_correct_with_variables(lhs, scopes, offset, store, s, base);
    let s1 = run(a.code, s);
    lemma_gen_tree_correct_with_variables(rhs, a.scopes, a.offset, st1, s1, base);
    let s2 = run(b.code, s1);
    assert(s2.mem.contains_key(s.sp - 8) && s2.mem[s.sp - 8] == va) by {
        assert(s1.mem.contains_key(s.sp - 8));
        assert(s2.mem.contains_key(s.sp - 8) <==> s1.mem.contains_key(s.sp - 8));
    }
    lemma_pop_effect(Reg::T1, s2);
    let s3 = run(pop_code(Reg::T1), s2);
    lemma_pop_effect(Reg::T0, s3);
    let s4 = run(pop_code(Reg::T0), s3);
    lemma_op_effect(op, s4);
    let s5 = run(op_code(op), s4);
    lemma_push_effect(Reg::T0, s5);
    let s6 = run(push_code(Reg::T0), s5);
    let c1 = a.code + b.code;
    let c2 = c1 + pop_code(Reg::T1);
    let c3 = c2 + pop_code(Reg::T0);
    let c4 = c3 + op_code(op);
    lemma_run_concat(a.code, b.code, s);
    lemma_run_concat(c1, pop_code(Reg::T1), s);
    lemma_run_concat(c2, pop_code(Reg::T0), s);
    lemma_run_concat(c3, op_code(op), s);
    lemma_run_concat(c4, push_code(Reg::T0), s);
    assert(g.code == c4 + push_code(Reg::T0));
    assert(run(g.code, s) == s6);
    lemma_consistent_write_below(b.scopes, st2, s2.mem, s.fp, base, s.sp - 8, s5.t0);
    assert(same_between(s6.mem, s.mem, s.sp, base)) by {
        assert forall|x: int| s.sp <= x < base implies (s6.mem.contains_key(x)
            <==> s.mem.contains_key(x)) && (#[trigger] s6.mem.contains_key(x) ==> s6.mem[x]
            == s.mem[x]) by {
            assert(s1.mem.contains_key(x) == s.mem.contains_key(x));
            assert(s2.mem.contains_key(x) == s1.mem.contains_key(x));
        }
    }
}

proof fn lemma_assign_correct(
    name: Seq<char>,
    rhs: Tree,
    scopes: Seq<ScopeMap>,
    offset: i64,
    store: Store,
    s: MachineState,
    base: int,
)
    requires
        ({
            let a = gen_tree(rhs, scopes, offset);
            &&& a.error is None
            &&& match lookup_in(a.scopes, name) {
                Some(_) => true,
                None => a.scopes.len() > 0 && a.offset >= i64::MIN + 8 && s.fp + a.offset - 8
                    >= base,
            }
            &&& s.fp + a.offset >= base
        }),
        slots_ok(scopes, offset),
        consistent(scopes, store, s.mem, s.fp, base),
        s.sp <= base,
    ensures
        ({
            let a = gen_tree(rhs, scopes, offset);
            let (v, st) = eval_in(rhs, store);
            let code = a.code + pop_code(Reg::T0);
            let (o, sc, off) = match lookup_in(a.scopes, name) {
                Some(o) => (o, a.scopes, a.offset),
                None => (
                    (a.offset - 8) as i64,
                    bind_innermost(a.scopes, name, (a.offset - 8) as i64),
                    (a.offset - 8) as i64,
                ),
            };
            let full = code + seq![Instr::Sd(Reg::T0, o, Reg::Fp)] + push_code(Reg::T0);
            let s2 = run(full, s);
            &&& pushes_value_below(s, s2, v, base)
            &&& slots_ok(sc, off)
            &&& consistent(sc, st.insert(name, v), s2.mem, s.fp, base)
        }),
    decreases rhs, 2int,
{
    let a = gen_tree(rhs, scopes, offset);
    lemma_gen_tree_correct_with_variables(rhs, scopes, offset, store, s, base);
    let (v, st) = eval_in(rhs, store);
    let s1 = run(a.code, s);
    lemma_pop_effect(Reg::T0, s1);
    let s2 = run(pop_code(Reg::T0), s1);
    assert(s2.t0 == v && s2.sp == s.sp);
    let code = a.code + pop_code(Reg::T0);
    lemma_run_concat(a.code, pop_code(Reg::T0), s);
    let o = match lookup_in(a.scopes, name) {
        Some(o) => o,
        None => (a.offset - 8) as i64,
    };
    let sd = Instr::Sd(Reg::T0, o, Reg::Fp);
    lemma_run_one(sd, s2);
    let s3 = step(sd, s2);
    lemma_run_concat(code, seq![sd], s);
    lemma_push_effect(Reg::T0, s3);
    let s4 = run(push_code(Reg::T0), s3);
    lemma_run_concat(code + seq![sd], push_code(Reg::T0), s);
    match lookup_in(a.scopes, name) {
        Some(o) => {
            lemma_consistent_store_existing(a.scopes, a.offset, st, s1.mem, s.fp, base, name, o, v);
            lemma_consistent_write_below(
                a.scopes,
                st.insert(name, v),
                s3.mem,
                s.fp,
                base,
                s.sp - 8,
                v,
            );
        },
        None => {
            lemma_consistent_store_fresh(a.scopes, a.offset, st, s1.mem, s.fp, base, name, v);
            let sc = bind_innermost(a.scopes, name, (a.offset - 8) as i64);
            lemma_consistent_write_below(sc, st.insert(name, v), s3.mem, s.fp, base, s.sp - 8, v);
        },
    }
    assert(same_between(s4.mem, s.mem, s.sp, base)) by {
        assert forall|x: int| s.sp <= x < base implies (s4.mem.contains_key(x)
            <==> s.mem.contains_key(x)) && (#[trigger] s4.mem.contains_key(x) ==> s4.mem[x]
            == s.mem[x]) by {
            assert(s1.mem.contains_key(x) == s.mem.contains_key(x));
            assert(x != s.fp + o);
        }
    }
}

} // verus!

verus! {

proof fn lemma_gen_trees_correct_with_variables(
    trees: Seq<Tree>,
    scopes: Seq<ScopeMap>,
    offset: i64,
    store: Store,
    s: MachineState,
)
    requires
        gen_trees(trees, scopes, offset).error is None,
        slots_ok(scopes, offset),
        consistent(scopes, store, s.mem, s.fp, s.sp),
        s.fp + gen_trees(trees, scopes, offset).offset >= s.sp,
    ensures
        ({
            let g = gen_trees(trees, scopes, offset);
            let (v, st) = eval_program(trees, store, s.t0);
            let s2 = run(g.code, s);
            &&& s2.sp == s.sp
            &&& s2.fp == s.fp
            &&& s2.t0 == v
            &&& slots_ok(g.scopes, g.offset)
            &&& consistent(g.scopes, st, s2.mem, s.fp, s.sp)
        }),
    decreases trees.len(),
{
    if trees.len() > 0 {
        let a = gen_tree(trees[0], scopes, offset);
        let rest = trees.drop_first();
        lemma_gen_trees_offset_down(rest, a.scopes, a.offset);
        lemma_gen_tree_correct_with_variables(trees[0], scopes, offset, store, s, s.sp);
        let (v0, st1) = eval_in(trees[0], store);
        let s1 = run(a.code, s);
        lemma_pop_effect(Reg::T0, s1);
        let s2 = run(pop_code(Reg::T0), s1);
        assert(s2.mem == s1.mem && s2.sp == s.sp && s2.t0 == v0);
        lemma_gen_trees_correct_with_variables(rest, a.scopes, a.offset, st1, s2);
        let b = gen_trees(rest, a.scopes, a.offset);
        lemma_run_concat(a.code, pop_code(Reg::T0), s);
        lemma_run_concat(a.code + pop_code(Reg::T0), b.code, s);
    }
}

/// Opening an empty scope hides nothing and binds nothing.
proof fn lemma_lookup_push_empty(scopes: Seq<ScopeMap>, n: Seq<char>)
    ensures
        lookup_in(scopes.push(Map::empty()), n) == lookup_in(scopes, n),
{
    assert(scopes.push(Map::empty()).drop_last() =~= scopes);
}

/// Correctness of the compiler on programs with variables: when the frame slots of all
/// variables (those visible before and those the program declares) lie at or above the
/// stack pointer, the code of the program leaves the stack and frame pointers where they
/// were and leaves in `t0` (the program's exit code) the value of its last statement,
/// evaluated from left to right with the variables' values in `store`.
pub proof fn lemma_gen_program_correct_with_variables(
    trees: Seq<Tree>,
    scopes: Seq<ScopeMap>,
    offset: i64,
    store: Store,
    s: MachineState,
)
    requires
        gen_program(trees, scopes, offset).error is None,
        slots_ok(scopes, offset),
        consistent(scopes, store, s.mem, s.fp, s.sp),
        s.fp + gen_program(trees, scopes, offset).offset >= s.sp,
    ensures
        ({
            let s2 = run(gen_program(trees, scopes, offset).code, s);
            &&& s2.sp == s.sp
            &&& s2.fp == s.fp
            &&& s2.t0 == eval_program(trees, store, s.t0).0
        }),
{
    let sc = scopes.push(Map::empty());
    assert forall|n: Seq<char>| #[trigger] lookup_in(sc, n) == lookup_in(scopes, n) by {
        lemma_lookup_push_empty(scopes, n);
    }
    lemma_gen_trees_correct_with_variables(trees, sc, offset, store, s);
}

/// The compiler's own setting: a fresh generator (no scope open, no variable declared)
/// compiling a program whose variables' slots stay at or above the stack pointer produces
/// code that leaves the value of the last statement in `t0` and the stack balanced.
pub proof fn lemma_fresh_program_correct(trees: Seq<Tree>, s: MachineState)
    requires
        gen_program(trees, Seq::empty(), 0).error is None,
        s.fp + gen_program(trees, Seq::empty(), 0).offset >= s.sp,
    ensures
        ({
            let s2 = run(gen_program(trees, Seq::empty(), 0).code, s);
            &&& s2.sp == s.sp
            &&& s2.fp == s.fp
            &&& s2.t0 == eval_program(trees, Map::empty(), s.t0).0
        }),
{
    let e = Seq::<ScopeMap>::empty();
    assert forall|n: Seq<char>| #[trigger] lookup_in(e, n) is None by {}
    lemma_gen_program_correct_with_variables(trees, e, 0, Map::empty(), s);
}

} // verus!
