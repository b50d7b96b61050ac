use vstd::prelude::*;

use crate::generator::{Instr, Reg};

verus! {

/// The decimal digit of value `d`.
pub open spec fn digit_char(d: nat) -> char {
    (d + 48) as char
}

/// The decimal representation of `n`, without leading zeros.
pub open spec fn nat_decimal(n: nat) -> Seq<char>
    decreases n,
{
    if n < 10 {
        seq![digit_char(n)]
    } else {
        nat_decimal(n / 10) + seq![digit_char(n % 10)]
    }
}

/// The decimal representation of `n`, with a `-` in front of a negative number.
pub open spec fn int_decimal(n: int) -> Seq<char> {
    if n < 0 {
        seq!['-'] + nat_decimal((-n) as nat)
    } else {
        nat_decimal(n as nat)
    }
}

/// The assembler name of a register.
pub open spec fn reg_name(r: Reg) -> Seq<char> {
    match r {
        Reg::T0 => "t0"@,
        Reg::T1 => "t1"@,
        Reg::Sp => "sp"@,
        Reg::Fp => "fp"@,
    }
}

/// An indented instruction line with the given mnemonic and operand text.
pub open spec fn line(mnemonic: Seq<char>, operands: Seq<char>) -> Seq<char> {
    "  "@ + mnemonic + " "@ + operands
}

/// The operand text `a, b, c`.
pub open spec fn three_operands(a: Seq<char>, b: Seq<char>, c: Seq<char>) -> Seq<char> {
    a + ", "@ + b + ", "@ + c
}

/// The operand text `a, b`.
pub open spec fn two_operands(a: Seq<char>, b: Seq<char>) -> Seq<char> {
    a + ", "@ + b
}

/// The operand text `r, offset(base)`.
pub open spec fn memory_operands(r: Reg, offset: i64, base: Reg) -> Seq<char> {
    reg_name(r) + ", "@ + int_decimal(offset as int) + "("@ + reg_name(base) + ")"@
}

/// The assembler line of an instruction.
pub open spec fn instr_text(i: Instr) -> Seq<char> {
    match i {
        Instr::Li(rd, imm) => line("li"@, two_operands(reg_name(rd), int_decimal(imm as int))),
        Instr::Addi(rd, rs, imm) => line(
            "addi"@,
            three_operands(reg_name(rd), reg_name(rs), int_decimal(imm as int)),
        ),
        Instr::Sd(rs, offset, base) => line("sd"@, memory_operands(rs, offset, base)),
        Instr::Ld(rd, offset, base) => line("ld"@, memory_operands(rd, offset, base)),
        Instr::Add(rd, a, b) => line("add"@, three_operands(reg_name(rd), reg_name(a), reg_name(b))),
        Instr::Sub(rd, a, b) => line("sub"@, three_operands(reg_name(rd), reg_name(a), reg_name(b))),
        Instr::Mul(rd, a, b) => line("mul"@, three_operands(reg_name(rd), reg_name(a), reg_name(b))),
        Instr::Div(rd, a, b) => line("div"@, three_operands(reg_name(rd), reg_name(a), reg_name(b))),
        Instr::Slt(rd, a, b) => line("slt"@, three_operands(reg_name(rd), reg_name(a), reg_name(b))),
        Instr::Seqz(rd, rs) => line("seqz"@, two_operands(reg_name(rd), reg_name(rs))),
        Instr::Snez(rd, rs) => line("snez"@, two_operands(reg_name(rd), reg_name(rs))),
        Instr::Xori(rd, rs, imm) => line(
            "xori"@,
            three_operands(reg_name(rd), reg_name(rs), int_decimal(imm as int)),
        ),
    }
}

/// Appends the decimal representation of `n`.
fn push_nat_decimal(s: &mut String, n: u128)
    ensures
        final(s)@ == old(s)@ + nat_decimal(n as nat),
    decreases n,
{
    let ghost s0 = s@;
    if n >= 10 {
        push_nat_decimal(s, n / 10);
    }
    s.append(decimal_digit((n % 10) as u8));
    assert(s@ =~= s0 + nat_decimal(n as nat));
}

/// The text of the decimal digit `d`.
fn decimal_digit(d: u8) -> (c: &'static str)
    requires
        d < 10,
    ensures
        c@ == seq![digit_char(d as nat)],
{
    proof {
        reveal_strlit("0");
        reveal_strlit("1");
        reveal_strlit("2");
        reveal_strlit("3");
        reveal_strlit("4");
        reveal_strlit("5");
        reveal_strlit("6");
        reveal_strlit("7");
        reveal_strlit("8");
        reveal_strlit("9");
    }
    if d == 0 {
        "0"
    } else if d == 1 {
        "1"
    } else if d == 2 {
        "2"
    } else if d == 3 {
        "3"
    } else if d == 4 {
        "4"
    } else if d == 5 {
        "5"
    } else if d == 6 {
        "6"
    } else if d == 7 {
        "7"
    } else if d == 8 {
        "8"
    } else {
        "9"
    }
}

/// Appends the decimal representation of `n`, signed.
fn push_int_decimal(s: &mut String, n: i128)
    requires
        n > i128::MIN,
    ensures
        final(s)@ == old(s)@ + int_decimal(n as int),
{
    let ghost s0 = s@;
    if n < 0 {
        proof {
            reveal_strlit("-");
        }
        s.append("-");
        push_nat_decimal(s, (-n) as u128);
        assert(s@ =~= s0 + int_decimal(n as int));
    } else {
        push_nat_decimal(s, n as u128);
    }
}

/// Appends the assembler name of `r`.
fn push_reg(s: &mut String, r: Reg)
    ensures
        final(s)@ == old(s)@ + reg_name(r),
{
    match r {
        Reg::T0 => s.append("t0"),
        Reg::T1 => s.append("t1"),
        Reg::Sp => s.append("sp"),
        Reg::Fp => s.append("fp"),
    }
}

/// Appends `a, b`.
fn push_two_operands(s: &mut String, a: Reg, b: Reg)
    ensures
        final(s)@ == old(s)@ + two_operands(reg_name(a), reg_name(b)),
{
    let ghost s0 = s@;
    push_reg(s, a);
    s.append(", ");
    push_reg(s, b);
    assert(s@ =~= s0 + two_operands(reg_name(a), reg_name(b)));
}

/// Appends `a, b, c`.
fn push_three_regs(s: &mut String, a: Reg, b: Reg, c: Reg)
    ensures
        final(s)@ == old(s)@ + three_operands(reg_name(a), reg_name(b), reg_name(c)),
{
    let ghost s0 = s@;
    push_reg(s, a);
    s.append(", ");
    push_reg(s, b);
    s.append(", ");
    push_reg(s, c);
    assert(s@ =~= s0 + three_operands(reg_name(a), reg_name(b), reg_name(c)));
}

/// Appends `a, b, imm`.
fn push_regs_imm(s: &mut String, a: Reg, b: Reg, imm: i64)
    ensures
        final(s)@ == old(s)@ + three_operands(reg_name(a), reg_name(b), int_decimal(imm as int)),
{
    let ghost s0 = s@;
    push_reg(s, a);
    s.append(", ");
    push_reg(s, b);
    s.append(", ");
    push_int_decimal(s, imm as i128);
    assert(s@ =~= s0 + three_operands(reg_name(a), reg_name(b), int_decimal(imm as int)));
}

/// Appends `r, offset(base)`.
fn push_memory_operands(s: &mut String, r: Reg, offset: i64, base: Reg)
    ensures
        final(s)@ == old(s)@ + memory_operands(r, offset, base),
{
    let ghost s0 = s@;
    push_reg(s, r);
    s.append(", ");
    push_int_decimal(s, offset as i128);
    s.append("(");
    push_reg(s, base);
    s.append(")");
    assert(s@ =~= s0 + memory_operands(r, offset, base));
}

/// A fresh line holding the indented `mnemonic` and the space after it.
fn line_start(mnemonic: &str) -> (s: String)
    ensures
        s@ == "  "@ + mnemonic@ + " "@,
{
    let mut s = String::new();
    s.append("  ");
    s.append(mnemonic);
    s.append(" ");
    assert(s@ =~= "  "@ + mnemonic@ + " "@);
    s
}

impl Instr {
    /// The assembler line of this instruction, such as `  addi sp, sp, -8`.
    pub fn text(&self) -> (s: String)
        ensures
            s@ == instr_text(*self),
    {
        match *self {
            Instr::Li(rd, imm) => {
                let mut s = line_start("li");
                let ghost s0 = s@;
                push_reg(&mut s, rd);
                s.append(", ");
                push_int_decimal(&mut s, imm as i128);
                assert(s@ =~= s0 + two_operands(reg_name(rd), int_decimal(imm as int)));
                s
            },
            Instr::Addi(rd, rs, imm) => {
                let mut s = line_start("addi");
                push_regs_imm(&mut s, rd, rs, imm);
                s
            },
            Instr::Sd(rs, offset, base) => {
                let mut s = line_start("sd");
                push_memory_operands(&mut s, rs, offset, base);
                s
            },
            Instr::Ld(rd, offset, base) => {
                let mut s = line_start("ld");
                push_memory_operands(&mut s, rd, offset, base);
                s
            },
            Instr::Add(rd, a, b) => {
                let mut s = line_start("add");
                push_three_regs(&mut s, rd, a, b);
                s
            },
            Instr::Sub(rd, a, b) => {
                let mut s = line_start("sub");
                push_three_regs(&mut s, rd, a, b);
                s
            },
            Instr::Mul(rd, a, b) => {
                let mut s = line_start("mul");
                push_three_regs(&mut s, rd, a, b);
                s
            },
            Instr::Div(rd, a, b) => {
                let mut s = line_start("div");
                push_three_regs(&mut s, rd, a, b);
                s
            },
            Instr::Slt(rd, a, b) => {
                let mut s = line_start("slt");
                push_three_regs(&mut s, rd, a, b);
                s
            },
            Instr::Seqz(rd, rs) => {
                let mut s = line_start("seqz");
                push_two_operands(&mut s, rd, rs);
                s
            },
            Instr::Snez(rd, rs) => {
                let mut s = line_start("snez");
                push_two_operands(&mut s, rd, rs);
                s
            },
            Instr::Xori(rd, rs, imm) => {
                let mut s = line_start("xori");
                push_regs_imm(&mut s, rd, rs, imm);
                s
            },
        }
    }
}

} // verus!
