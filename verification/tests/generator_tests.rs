use compiler::generator::{GenError, Generator, Instr, Reg};
use compiler::parser::{Op, Parser, Tree};
use compiler::tokenizer::{tokenize, Token};

fn lines(code: &[Instr]) -> Vec<String> {
    code.iter().map(|i| i.text()).collect()
}

fn var(s: &str) -> Box<Tree> {
    Box::new(Tree::Var(s.to_string()))
}

fn num(n: isize) -> Box<Tree> {
    Box::new(Tree::Integer(n))
}

const PUSH: [&str; 2] = ["  addi sp, sp, -8", "  sd t0, 0(sp)"];

#[test]
fn generate_integer_statement() {
    let mut generator = Generator::new(vec![Tree::Integer(42)]);
    let mut code = Vec::new();
    generator.generate(&mut code);
    assert_eq!(
        lines(&code),
        vec![
            "  li t0, 42",
            PUSH[0],
            PUSH[1],
            "  ld t0, 0(sp)",
            "  addi sp, sp, 8"
        ]
    );
}

#[test]
fn generate_binop_from_source() {
    let mut parser = Parser::new(tokenize("1 + 2"));
    let tree = parser.expr();
    let mut generator = Generator::new(vec![tree]);
    let mut code = Vec::new();
    generator.generate(&mut code);
    assert_eq!(
        lines(&code),
        vec![
            "  li t0, 1",
            PUSH[0],
            PUSH[1],
            "  li t0, 2",
            PUSH[0],
            PUSH[1],
            "  ld t1, 0(sp)",
            "  addi sp, sp, 8",
            "  ld t0, 0(sp)",
            "  addi sp, sp, 8",
            "  add t0, t0, t1",
            PUSH[0],
            PUSH[1],
            "  ld t0, 0(sp)",
            "  addi sp, sp, 8"
        ]
    );
}

fn op_lines(op: Op) -> Vec<String> {
    let mut generator = Generator::new(vec![Tree::BinOp(op, num(7), num(3))]);
    let mut code = Vec::new();
    generator.generate(&mut code);
    // Skip the two operands and the two pops, drop the final push and pop.
    let all = lines(&code);
    all[10..all.len() - 4].to_vec()
}

#[test]
fn generate_each_operator() {
    assert_eq!(op_lines(Op::Add), vec!["  add t0, t0, t1"]);
    assert_eq!(op_lines(Op::Sub), vec!["  sub t0, t0, t1"]);
    assert_eq!(op_lines(Op::Mul), vec!["  mul t0, t0, t1"]);
    assert_eq!(op_lines(Op::Div), vec!["  div t0, t0, t1"]);
    assert_eq!(op_lines(Op::Eq), vec!["  sub t0, t0, t1", "  seqz t0, t0"]);
    assert_eq!(op_lines(Op::NotEq), vec!["  sub t0, t0, t1", "  snez t0, t0"]);
    assert_eq!(op_lines(Op::GreaterThan), vec!["  slt t0, t1, t0"]);
    assert_eq!(op_lines(Op::LessThan), vec!["  slt t0, t0, t1"]);
    assert_eq!(op_lines(Op::GreaterThanOrEq), vec!["  slt t0, t0, t1", "  xori t0, t0, 1"]);
    assert_eq!(op_lines(Op::LessThanOrEq), vec!["  slt t0, t1, t0", "  xori t0, t0, 1"]);
}

#[test]
fn generate_assignment_declares_and_reuses_offsets() {
    let trees = vec![
        Tree::Assign(var("a"), num(1)),
        Tree::Assign(var("b"), num(2)),
        Tree::Assign(var("a"), var("b")),
    ];
    let mut generator = Generator::new(trees);
    let mut code = Vec::new();
    generator.generate(&mut code);
    let text = lines(&code);
    let stores: Vec<&String> = text.iter().filter(|l| l.ends_with("(fp)")).collect();
    assert_eq!(
        stores,
        vec!["  sd t0, -8(fp)", "  sd t0, -16(fp)", "  ld t0, -16(fp)", "  sd t0, -8(fp)"]
    );
    // The scope of the program is closed again.
    assert_eq!(generator.lookup("a"), None);
}

#[test]
fn generate_reports_undeclared_variable() {
    let mut generator = Generator::new(vec![Tree::Integer(5), Tree::Var("x".to_string())]);
    let mut code = Vec::new();
    assert_eq!(generator.try_generate(&mut code), Err(GenError::NotDeclared));
    // The code of the first statement was emitted before the failure.
    assert_eq!(lines(&code).len(), 5);
}

#[test]
fn generate_reports_bad_assignment_target() {
    let mut generator = Generator::new(vec![Tree::Assign(num(1), num(2))]);
    let mut code = Vec::new();
    assert_eq!(generator.try_generate(&mut code), Err(GenError::UnexpectedLeftHand));
    assert!(code.is_empty());
}

#[test]
fn generate_tree_without_scope_cannot_declare() {
    let mut generator = Generator::new(vec![]);
    let mut code = Vec::new();
    let tree = Tree::Assign(var("a"), num(1));
    assert_eq!(generator.try_generate_tree(&tree, &mut code), Err(GenError::NoScope));
}

#[test]
fn lookup_on_fresh_generator_finds_nothing() {
    let generator = Generator::new(vec![]);
    assert_eq!(generator.lookup("a"), None);
}

#[test]
fn push_and_pop_text() {
    let generator = Generator::new(vec![]);
    let mut code = Vec::new();
    generator.push(Reg::T1, &mut code);
    generator.pop(Reg::T0, &mut code);
    assert_eq!(
        lines(&code),
        vec!["  addi sp, sp, -8", "  sd t1, 0(sp)", "  ld t0, 0(sp)", "  addi sp, sp, 8"]
    );
}

#[test]
fn instruction_text() {
    assert_eq!(Instr::Li(Reg::T0, -123).text(), "  li t0, -123");
    assert_eq!(Instr::Li(Reg::T1, 0).text(), "  li t1, 0");
    assert_eq!(Instr::Li(Reg::T0, isize::MIN).text(), format!("  li t0, {}", isize::MIN));
    assert_eq!(Instr::Li(Reg::T0, isize::MAX).text(), format!("  li t0, {}", isize::MAX));
    assert_eq!(Instr::Addi(Reg::Sp, Reg::Fp, 16).text(), "  addi sp, fp, 16");
    assert_eq!(Instr::Sd(Reg::T0, i64::MIN, Reg::Fp).text(), format!("  sd t0, {}(fp)", i64::MIN));
    assert_eq!(Instr::Ld(Reg::T1, 1000, Reg::Sp).text(), "  ld t1, 1000(sp)");
    assert_eq!(Instr::Slt(Reg::T0, Reg::T1, Reg::Sp).text(), "  slt t0, t1, sp");
    assert_eq!(Instr::Seqz(Reg::T1, Reg::T0).text(), "  seqz t1, t0");
    assert_eq!(Instr::Snez(Reg::T0, Reg::T1).text(), "  snez t0, t1");
    assert_eq!(Instr::Xori(Reg::T0, Reg::T0, -1).text(), "  xori t0, t0, -1");
    assert_eq!(Instr::Mul(Reg::T0, Reg::T0, Reg::T1).text(), "  mul t0, t0, t1");
    assert_eq!(Instr::Div(Reg::T0, Reg::T0, Reg::T1).text(), "  div t0, t0, t1");
}

#[test]
fn whole_pipeline_with_unary_minus() {
    let mut parser = Parser::new(vec![Token::Minus, Token::Num(3), Token::Semicolon]);
    let trees = parser.parse();
    let mut generator = Generator::new(trees);
    let mut code = Vec::new();
    generator.generate(&mut code);
    let text = lines(&code);
    assert_eq!(text[0], "  li t0, 0");
    assert_eq!(text[3], "  li t0, 3");
    assert_eq!(text[10], "  sub t0, t0, t1");
}

#[test]
fn generate_tree_pushes_one_slot_more_than_it_pops() {
    let mut parser = Parser::new(tokenize("1 + 2 * (3 - 4) == -5"));
    let tree = parser.expr();
    let mut generator = Generator::new(vec![]);
    let mut code = Vec::new();
    generator.generate_tree(&tree, &mut code);
    let text = lines(&code);
    let mut pushes = 0;
    let mut pops = 0;
    for line in &text {
        if line == "  addi sp, sp, -8" {
            pushes += 1;
        }
        if line == "  addi sp, sp, 8" {
            pops += 1;
        }
        assert!(pops <= pushes);
    }
    assert_eq!(pushes, pops + 1);
    assert_eq!(pushes, 11);
}

#[test]
fn generate_tree_reports_each_error() {
    let mut generator = Generator::new(vec![]);
    let mut code = Vec::new();
    let bad_target = Tree::Assign(num(1), num(2));
    assert_eq!(generator.try_generate_tree(&bad_target, &mut code), Err(GenError::UnexpectedLeftHand));
    assert!(code.is_empty());
    assert_eq!(
        generator.try_generate_tree(&Tree::Var("x".to_string()), &mut code),
        Err(GenError::NotDeclared)
    );
    assert!(code.is_empty());
}

#[test]
fn generate_gives_each_new_name_its_own_lower_slot() {
    let trees = vec![
        Tree::Assign(var("x"), num(1)),
        Tree::Assign(var("y"), Box::new(Tree::Assign(var("z"), var("x")))),
        Tree::Assign(var("x"), var("z")),
    ];
    let mut generator = Generator::new(trees);
    let mut code = Vec::new();
    generator.generate(&mut code);
    let text = lines(&code);
    let stores: Vec<&String> = text.iter().filter(|l| l.starts_with("  sd t0") && l.ends_with("(fp)")).collect();
    assert_eq!(
        stores,
        vec!["  sd t0, -8(fp)", "  sd t0, -16(fp)", "  sd t0, -24(fp)", "  sd t0, -8(fp)"]
    );
    assert_eq!(generator.lookup("x"), None);
    assert_eq!(generator.lookup("z"), None);
}

#[test]
fn failed_generate_closes_its_scope() {
    let trees = vec![Tree::Assign(var("a"), num(1)), Tree::Var("b".to_string())];
    let mut generator = Generator::new(trees);
    let mut code = Vec::new();
    assert_eq!(generator.try_generate(&mut code), Err(GenError::NotDeclared));
    assert_eq!(generator.lookup("a"), None);
}
