use compiler::parser::{Op, ParseError, Parser, Tree};
use compiler::tokenizer::{tokenize, Token};

fn num(n: isize) -> Box<Tree> {
    Box::new(Tree::Integer(n))
}

#[test]
fn parse_precedence() {
    let mut parser = Parser::new(tokenize("1 + 2 * 3"));
    let tree = parser.expr();
    assert_eq!(
        tree,
        Tree::BinOp(
            Op::Add,
            Box::new(Tree::Integer(1)),
            Box::new(Tree::BinOp(
                Op::Mul,
                Box::new(Tree::Integer(2)),
                Box::new(Tree::Integer(3))
            ))
        )
    );
}

#[test]
fn parse_left_associative_sub() {
    let mut parser = Parser::new(tokenize("1 - 2 - 3"));
    let tree = parser.expr();
    assert_eq!(
        tree,
        Tree::BinOp(
            Op::Sub,
            Box::new(Tree::BinOp(
                Op::Sub,
                Box::new(Tree::Integer(1)),
                Box::new(Tree::Integer(2))
            )),
            Box::new(Tree::Integer(3))
        )
    );
}

#[test]
fn parse_unary_minus_paren() {
    let mut parser = Parser::new(tokenize("-(1 + 2)"));
    let tree = parser.expr();
    assert_eq!(
        tree,
        Tree::BinOp(
            Op::Sub,
            Box::new(Tree::Integer(0)),
            Box::new(Tree::BinOp(
                Op::Add,
                Box::new(Tree::Integer(1)),
                Box::new(Tree::Integer(2))
            ))
        )
    );
}

#[test]
fn parse_paren_precedence() {
    let mut parser = Parser::new(tokenize("(1 + 2) * 3"));
    let tree = parser.expr();
    assert_eq!(
        tree,
        Tree::BinOp(
            Op::Mul,
            Box::new(Tree::BinOp(
                Op::Add,
                Box::new(Tree::Integer(1)),
                Box::new(Tree::Integer(2))
            )),
            Box::new(Tree::Integer(3))
        )
    );
}

#[test]
fn parse_relational_precedence() {
    let mut parser = Parser::new(tokenize("1 + 2 > 3"));
    let tree = parser.expr();
    assert_eq!(
        tree,
        Tree::BinOp(
            Op::GreaterThan,
            Box::new(Tree::BinOp(
                Op::Add,
                Box::new(Tree::Integer(1)),
                Box::new(Tree::Integer(2))
            )),
            Box::new(Tree::Integer(3))
        )
    );
}

#[test]
fn parse_equality_precedence() {
    let mut parser = Parser::new(tokenize("1 + 2 == 3"));
    let tree = parser.expr();
    assert_eq!(
        tree,
        Tree::BinOp(
            Op::Eq,
            Box::new(Tree::BinOp(
                Op::Add,
                Box::new(Tree::Integer(1)),
                Box::new(Tree::Integer(2))
            )),
            Box::new(Tree::Integer(3))
        )
    );
}

#[test]
fn parse_missing_rparen_is_an_error() {
    let mut parser = Parser::new(tokenize("(1 + 2"));
    assert_eq!(parser.try_parse(), Err(ParseError::ExpectedRParen));
}

#[test]
fn parse_division_and_unary_plus() {
    let mut parser = Parser::new(tokenize("+8 / 2 / 2"));
    assert_eq!(
        parser.expr(),
        Tree::BinOp(
            Op::Div,
            Box::new(Tree::BinOp(Op::Div, num(8), num(2))),
            num(2)
        )
    );
}

#[test]
fn parse_relational_operators_left_to_right() {
    let mut parser = Parser::new(tokenize("1 < 2 >= 3 <= 4 > 5 == 6 != 7"));
    let lt = Tree::BinOp(Op::LessThan, num(1), num(2));
    let ge = Tree::BinOp(Op::GreaterThanOrEq, Box::new(lt), num(3));
    let le = Tree::BinOp(Op::LessThanOrEq, Box::new(ge), num(4));
    let gt = Tree::BinOp(Op::GreaterThan, Box::new(le), num(5));
    let eq = Tree::BinOp(Op::Eq, Box::new(gt), num(6));
    let ne = Tree::BinOp(Op::NotEq, Box::new(eq), num(7));
    assert_eq!(parser.expr(), ne);
}

#[test]
fn parse_expr_stops_before_unconsumed_tokens() {
    let mut parser = Parser::new(tokenize("1 2"));
    assert_eq!(parser.expr(), Tree::Integer(1));
    assert_eq!(parser.expr(), Tree::Integer(2));
}

#[test]
fn parse_large_number_wraps_into_isize() {
    let mut parser = Parser::new(vec![Token::Num(usize::MAX)]);
    assert_eq!(parser.expr(), Tree::Integer(-1));
}

#[test]
fn parse_statements_with_variables() {
    let tokens = vec![
        Token::Ident("a".to_string()),
        Token::Assign,
        Token::Ident("b".to_string()),
        Token::Assign,
        Token::Num(1),
        Token::Semicolon,
        Token::Ident("a".to_string()),
        Token::Plus,
        Token::Num(2),
        Token::Semicolon,
    ];
    let mut parser = Parser::new(tokens);
    let var = |s: &str| Box::new(Tree::Var(s.to_string()));
    assert_eq!(
        parser.parse(),
        vec![
            Tree::Assign(var("a"), Box::new(Tree::Assign(var("b"), num(1)))),
            Tree::BinOp(Op::Add, var("a"), num(2)),
        ]
    );
}

#[test]
fn parse_empty_program() {
    let mut parser = Parser::new(vec![]);
    assert_eq!(parser.parse(), vec![]);
}

#[test]
fn parse_errors() {
    let mut parser = Parser::new(tokenize("1 + 2"));
    assert_eq!(parser.try_parse(), Err(ParseError::ExpectedSemicolon));

    let mut parser = Parser::new(tokenize("1 +"));
    assert_eq!(parser.try_parse(), Err(ParseError::UnexpectedToken));

    let mut parser = Parser::new(tokenize(")"));
    assert_eq!(parser.try_parse(), Err(ParseError::UnexpectedToken));

    let mut parser = Parser::new(vec![Token::LParen, Token::Num(1), Token::Semicolon]);
    assert_eq!(parser.try_parse(), Err(ParseError::ExpectedRParen));
}

#[test]
fn parse_expr_takes_the_longest_expression() {
    let mut parser = Parser::new(tokenize("1 + 2 )"));
    assert_eq!(
        parser.expr(),
        Tree::BinOp(Op::Add, Box::new(Tree::Integer(1)), Box::new(Tree::Integer(2)))
    );
    // Only the `)` is left, and no statement starts with it.
    assert_eq!(parser.try_parse(), Err(ParseError::UnexpectedToken));
}

#[test]
fn tokenized_text_never_forms_a_program() {
    for source in ["1", "1 + 2", "(1) * 3 == 3", "-4 >= 2"] {
        let mut parser = Parser::new(tokenize(source));
        assert_eq!(parser.try_parse(), Err(ParseError::ExpectedSemicolon));
    }
    let mut parser = Parser::new(tokenize(")"));
    assert_eq!(parser.try_parse(), Err(ParseError::UnexpectedToken));
    let mut blank = Parser::new(tokenize("  "));
    assert_eq!(blank.try_parse(), Ok(vec![]));
}

#[test]
fn peek_shows_the_next_token() {
    let mut parser = Parser::new(tokenize("1 2"));
    assert_eq!(parser.peek(), Some(&Token::Num(1)));
    assert_eq!(parser.expr(), Tree::Integer(1));
    assert_eq!(parser.peek(), Some(&Token::Num(2)));
    assert_eq!(parser.try_parse(), Err(ParseError::ExpectedSemicolon));
    let empty = Parser::new(vec![]);
    assert_eq!(empty.peek(), None);
}
