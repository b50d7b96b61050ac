use compiler::generator::{Generator, Instr, Reg};
use compiler::parser::{Op, Parser, Tree};
use compiler::tokenizer::{tokenize, try_tokenize, Token, TokenizeError};
use std::collections::HashMap;

/// A small interpreter of the generated instructions, for checking what the code computes.
struct Machine {
    t0: i64,
    t1: i64,
    sp: i64,
    fp: i64,
    mem: HashMap<i64, i64>,
}

impl Machine {
    fn new() -> Self {
        Machine { t0: 0, t1: 0, sp: 1 << 20, fp: 1 << 21, mem: HashMap::new() }
    }

    fn get(&self, r: Reg) -> i64 {
        match r {
            Reg::T0 => self.t0,
            Reg::T1 => self.t1,
            Reg::Sp => self.sp,
            Reg::Fp => self.fp,
        }
    }

    fn set(&mut self, r: Reg, v: i64) {
        match r {
            Reg::T0 => self.t0 = v,
            Reg::T1 => self.t1 = v,
            Reg::Sp => self.sp = v,
            Reg::Fp => self.fp = v,
        }
    }

    fn run(&mut self, code: &[Instr]) {
        for i in code {
            match *i {
                Instr::Li(rd, n) => self.set(rd, n as i64),
                Instr::Addi(rd, rs, imm) => self.set(rd, self.get(rs).wrapping_add(imm)),
                Instr::Sd(rs, off, base) => {
                    let v = self.get(rs);
                    self.mem.insert(self.get(base) + off, v);
                }
                Instr::Ld(rd, off, base) => {
                    let v = self.mem[&(self.get(base) + off)];
                    self.set(rd, v)
                }
                Instr::Add(rd, a, b) => self.set(rd, self.get(a).wrapping_add(self.get(b))),
                Instr::Sub(rd, a, b) => self.set(rd, self.get(a).wrapping_sub(self.get(b))),
                Instr::Mul(rd, a, b) => self.set(rd, self.get(a).wrapping_mul(self.get(b))),
                Instr::Div(rd, a, b) => {
                    let (x, y) = (self.get(a), self.get(b));
                    self.set(rd, if y == 0 { -1 } else { x.wrapping_div(y) })
                }
                Instr::Slt(rd, a, b) => self.set(rd, (self.get(a) < self.get(b)) as i64),
                Instr::Seqz(rd, rs) => self.set(rd, (self.get(rs) == 0) as i64),
                Instr::Snez(rd, rs) => self.set(rd, (self.get(rs) != 0) as i64),
                Instr::Xori(rd, rs, imm) => self.set(rd, self.get(rs) ^ imm),
            }
        }
    }
}

fn compile(source: &str) -> Vec<Instr> {
    let mut parser = Parser::new(tokenize(source));
    let tree = parser.expr();
    let mut generator = Generator::new(vec![tree]);
    let mut code = Vec::new();
    generator.generate(&mut code);
    code
}

fn run_source(source: &str) -> (i64, Machine) {
    let code = compile(source);
    let mut m = Machine::new();
    m.run(&code);
    (m.t0, m)
}

#[test]
fn compiled_code_computes_the_value() {
    assert_eq!(run_source("1 + 2 * 3").0, 7);
    assert_eq!(run_source("(1 + 2) * 3").0, 9);
    assert_eq!(run_source("1 - 2 - 3").0, -4);
    assert_eq!(run_source("-(1 + 2)").0, -3);
    assert_eq!(run_source("7 / 2").0, 3);
    assert_eq!(run_source("-7 / 2").0, -3);
    assert_eq!(run_source("7 / 0").0, -1);
    assert_eq!(run_source("1 + 2 > 3").0, 0);
    assert_eq!(run_source("1 + 2 >= 3").0, 1);
    assert_eq!(run_source("1 + 2 == 3").0, 1);
    assert_eq!(run_source("1 + 2 != 3").0, 0);
    assert_eq!(run_source("2 < 3").0, 1);
    assert_eq!(run_source("3 <= 2").0, 0);
    assert_eq!(run_source("3 <= 3").0, 1);
}

#[test]
fn compiled_code_keeps_the_stack_balanced() {
    let (_, m) = run_source("(1 + 2) * (3 - 4) / (5 == 5)");
    assert_eq!(m.sp, 1 << 20);
    assert_eq!(m.fp, 1 << 21);
    // Nothing at or above the initial stack pointer was written.
    assert!(m.mem.keys().all(|&a| a < (1 << 20)));
    let net: i64 = compile("(1 + 2) * (3 - 4)")
        .iter()
        .map(|i| match *i {
            Instr::Addi(Reg::Sp, Reg::Sp, imm) => imm,
            _ => 0,
        })
        .sum();
    assert_eq!(net, 0);
}

#[test]
fn last_statement_is_the_result() {
    let trees = vec![Tree::Integer(5), Tree::BinOp(Op::Mul, Box::new(Tree::Integer(6)), Box::new(Tree::Integer(7)))];
    let mut generator = Generator::new(trees);
    let mut code = Vec::new();
    generator.generate(&mut code);
    let mut m = Machine::new();
    m.run(&code);
    assert_eq!(m.t0, 42);
}

#[test]
fn parenthesized_tokens_read_back_as_the_tree() {
    // ((1 + x) * (y = 2))
    let tokens = vec![
        Token::LParen,
        Token::LParen,
        Token::Num(1),
        Token::Plus,
        Token::Ident("x".to_string()),
        Token::RParen,
        Token::Asterisk,
        Token::LParen,
        Token::Ident("y".to_string()),
        Token::Assign,
        Token::Num(2),
        Token::RParen,
        Token::RParen,
    ];
    let tree = Tree::BinOp(
        Op::Mul,
        Box::new(Tree::BinOp(
            Op::Add,
            Box::new(Tree::Integer(1)),
            Box::new(Tree::Var("x".to_string())),
        )),
        Box::new(Tree::Assign(
            Box::new(Tree::Var("y".to_string())),
            Box::new(Tree::Integer(2)),
        )),
    );
    let mut parser = Parser::new(tokens);
    assert_eq!(parser.expr(), tree);
}

#[test]
fn white_space_between_texts_separates_their_tokens() {
    let a = "12<";
    let b = "=3";
    let joined = format!("{} {}", a, b);
    assert_eq!(tokenize(a), vec![Token::Num(12), Token::LessThan]);
    assert_eq!(try_tokenize(b), Err(TokenizeError::Unimplemented));
    assert_eq!(try_tokenize(&joined), Err(TokenizeError::Unimplemented));
    let b = "34 == 5";
    let joined = format!("{}\t{}", a, b);
    let mut expected = tokenize(a);
    expected.extend(tokenize(b));
    assert_eq!(tokenize(&joined), expected);
}

#[test]
fn variables_get_fresh_slots_and_are_read_back() {
    let var = |s: &str| Box::new(Tree::Var(s.to_string()));
    let trees = vec![
        Tree::Assign(var("a"), Box::new(Tree::Integer(10))),
        Tree::Assign(var("b"), Box::new(Tree::Integer(20))),
        Tree::BinOp(Op::Sub, var("b"), var("a")),
    ];
    let mut generator = Generator::new(trees);
    let mut code = Vec::new();
    generator.generate(&mut code);
    let mut m = Machine::new();
    m.run(&code);
    assert_eq!(m.t0, 10);
}

#[test]
fn variable_slots_below_the_stack_pointer_are_clobbered() {
    // With the frame only 16 bytes above the stack (as the driver sets it up), a third
    // variable's slot lies in the expression stack, outside what the correctness law covers.
    let var = |s: &str| Box::new(Tree::Var(s.to_string()));
    let lit = |n: isize| Box::new(Tree::Integer(n));
    let trees = vec![
        Tree::Assign(var("a"), lit(1)),
        Tree::Assign(var("b"), lit(2)),
        Tree::Assign(var("c"), lit(3)),
        Tree::BinOp(Op::Add, lit(1), var("c")),
    ];
    let mut generator = Generator::new(trees);
    let mut code = Vec::new();
    generator.generate(&mut code);
    let mut m = Machine::new();
    m.fp = m.sp + 16;
    m.run(&code);
    assert_eq!(m.t0, 2);

    // Two variables fit above the stack, and the result is the value of the program.
    let trees = vec![
        Tree::Assign(var("a"), lit(1)),
        Tree::Assign(var("b"), lit(2)),
        Tree::BinOp(Op::Add, var("a"), var("b")),
    ];
    let mut generator = Generator::new(trees);
    let mut code = Vec::new();
    generator.generate(&mut code);
    let mut m = Machine::new();
    m.fp = m.sp + 16;
    m.run(&code);
    assert_eq!(m.t0, 3);
}

#[test]
fn pop_undoes_push() {
    let generator = Generator::new(vec![]);
    let mut code = Vec::new();
    generator.push(Reg::T1, &mut code);
    generator.pop(Reg::T0, &mut code);
    let mut m = Machine::new();
    m.t0 = 11;
    m.t1 = -42;
    let (sp, fp) = (m.sp, m.fp);
    m.run(&code);
    assert_eq!(m.t0, -42);
    assert_eq!(m.t1, -42);
    assert_eq!((m.sp, m.fp), (sp, fp));
    assert_eq!(m.mem.len(), 1);
    assert_eq!(m.mem[&(sp - 8)], -42);
}

#[test]
fn pop_undoes_push_of_the_frame_pointer() {
    let generator = Generator::new(vec![]);
    let mut code = Vec::new();
    generator.push(Reg::Fp, &mut code);
    generator.pop(Reg::T1, &mut code);
    let mut m = Machine::new();
    m.t0 = 7;
    let (sp, fp) = (m.sp, m.fp);
    m.run(&code);
    assert_eq!(m.t1, fp);
    assert_eq!((m.t0, m.sp, m.fp), (7, sp, fp));
    assert_eq!(m.mem[&(sp - 8)], fp);

    let mut back = Vec::new();
    generator.push(Reg::T0, &mut back);
    generator.pop(Reg::Fp, &mut back);
    m.run(&back);
    assert_eq!((m.fp, m.sp), (7, sp));
}
