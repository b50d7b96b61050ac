use vstd::prelude::*;

use crate::tokenizer::{scannable, spec_tokenize, lemma_tokenize_scannable, Token, TokenizeError};

verus! {

/// A syntax tree of the expression language.
#[derive(Debug, PartialEq, Eq)]
pub enum Tree {
    BinOp(Op, Box<Tree>, Box<Tree>),
    Integer(isize),
    Var(String),
    Assign(Box<Tree>, Box<Tree>),
}

impl Clone for Tree {
    /// A copy of the tree, equal to it.
    fn clone(&self) -> (res: Self)
        ensures
            res == *self,
        decreases self,
    {
        match self {
            Tree::BinOp(op, lhs, rhs) => {
                let l = (**lhs).clone();
                let r = (**rhs).clone();
                Tree::BinOp(*op, Box::new(l), Box::new(r))
            },
            Tree::Integer(n) => Tree::Integer(*n),
            Tree::Var(name) => Tree::Var(name.clone()),
            Tree::Assign(lhs, rhs) => {
                let l = (**lhs).clone();
                let r = (**rhs).clone();
                Tree::Assign(Box::new(l), Box::new(r))
            },
        }
    }
}

/// A binary operator.
#[derive(Debug, Clone, Copy, PartialEq, Eq)]
pub enum Op {
    Add,
    Sub,
    Mul,
    Div,
    Eq,
    NotEq,
    GreaterThan,
    LessThan,
    GreaterThanOrEq,
    LessThanOrEq,
}

/// Why a token sequence is not a program.
#[derive(Debug, Clone, Copy, PartialEq, Eq)]
pub enum ParseError {
    /// A statement is not followed by `;`.
    ExpectedSemicolon,
    /// A parenthesized expression is not closed by `)`.
    ExpectedRParen,
    /// A token (or the end of the input) where an operand must stand.
    UnexpectedToken,
}

/// The result of parsing one phrase: the tree and the position after it.
pub type Parsed = Result<(Tree, int), ParseError>;

/// The operator of `==` / `!=` at position `p`, if there is one.
pub open spec fn equality_op(ts: Seq<Token>, p: int) -> Option<Op> {
    if 0 <= p < ts.len() {
        match ts[p] {
            Token::Eq => Some(Op::Eq),
            Token::NotEq => Some(Op::NotEq),
            _ => None,
        }
    } else {
        None
    }
}

/// The operator of `>`, `>=`, `<`, `<=` at position `p`, if there is one.
pub open spec fn relational_op(ts: Seq<Token>, p: int) -> Option<Op> {
    if 0 <= p < ts.len() {
        match ts[p] {
            Token::GreaterThan => Some(Op::GreaterThan),
            Token::GreaterThanOrEq => Some(Op::GreaterThanOrEq),
            Token::LessThan => Some(Op::LessThan),
            Token::LessThanOrEq => Some(Op::LessThanOrEq),
            _ => None,
        }
    } else {
        None
    }
}

/// The operator of `+` / `-` at position `p`, if there is one.
pub open spec fn additive_op(ts: Seq<Token>, p: int) -> Option<Op> {
    if 0 <= p < ts.len() {
        match ts[p] {
            Token::Plus => Some(Op::Add),
            Token::Minus => Some(Op::Sub),
            _ => None,
        }
    } else {
        None
    }
}

/// The operator of `*` / `/` at position `p`, if there is one.
pub open spec fn multiplicative_op(ts: Seq<Token>, p: int) -> Option<Op> {
    if 0 <= p < ts.len() {
        match ts[p] {
            Token::Asterisk => Some(Op::Mul),
            Token::Slash => Some(Op::Div),
            _ => None,
        }
    } else {
        None
    }
}

/// The token at position `p` is `t`.
pub open spec fn token_at(ts: Seq<Token>, p: int, t: Token) -> bool {
    0 <= p < ts.len() && ts[p] == t
}

/// `q` lies after `p` and inside the tokens.
pub open spec fn advances(ts: Seq<Token>, p: int, q: int) -> bool {
    p < q <= ts.len()
}

/// expr ::= assign
pub open spec fn parse_expr(ts: Seq<Token>, p: int) -> Parsed
    decreases ts.len() - p, 7int,
{
    parse_assign(ts, p)
}

/// assign ::= equality ("=" assign)?
pub open spec fn parse_assign(ts: Seq<Token>, p: int) -> Parsed
    decreases ts.len() - p, 6int,
{
    match parse_equality(ts, p) {
        Err(e) => Err(e),
        Ok((lhs, q)) => if token_at(ts, q, Token::Assign) {
            if advances(ts, p, q) {
                match parse_assign(ts, q + 1) {
                    Ok((rhs, r)) => Ok((Tree::Assign(Box::new(lhs), Box::new(rhs)), r)),
                    Err(e) => Err(e),
                }
            } else {
                Err(ParseError::UnexpectedToken)
            }
        } else {
            Ok((lhs, q))
        },
    }
}

/// equality ::= relational (("==" | "!=") relational)*
pub open spec fn parse_equality(ts: Seq<Token>, p: int) -> Parsed
    decreases ts.len() - p, 5int,
{
    match parse_relational(ts, p) {
        Err(e) => Err(e),
        Ok((t, q)) => if advances(ts, p, q) {
            equality_rest(ts, q, t)
        } else {
            Err(ParseError::UnexpectedToken)
        },
    }
}

/// The left-associative tail of an equality, whose left operand `acc` ends at `q`.
pub open spec fn equality_rest(ts: Seq<Token>, q: int, acc: Tree) -> Parsed
    decreases ts.len() - q, 5int,
{
    match equality_op(ts, q) {
        Some(op) => match parse_relational(ts, q + 1) {
            Err(e) => Err(e),
            Ok((rhs, r)) => if advances(ts, q, r) {
                equality_rest(ts, r, Tree::BinOp(op, Box::new(acc), Box::new(rhs)))
            } else {
                Err(ParseError::UnexpectedToken)
            },
        },
        None => Ok((acc, q)),
    }
}

/// relational ::= add ((">" | ">=" | "<" | "<=") add)*
pub open spec fn parse_relational(ts: Seq<Token>, p: int) -> Parsed
    decreases ts.len() - p, 4int,
{
    match parse_add(ts, p) {
        Err(e) => Err(e),
        Ok((t, q)) => if advances(ts, p, q) {
            relational_rest(ts, q, t)
        } else {
            Err(ParseError::UnexpectedToken)
        },
    }
}

/// The left-associative tail of a comparison, whose left operand `acc` ends at `q`.
pub open spec fn relational_rest(ts: Seq<Token>, q: int, acc: Tree) -> Parsed
    decreases ts.len() - q, 4int,
{
    match relational_op(ts, q) {
        Some(op) => match parse_add(ts, q + 1) {
            Err(e) => Err(e),
            Ok((rhs, r)) => if advances(ts, q, r) {
                relational_rest(ts, r, Tree::BinOp(op, Box::new(acc), Box::new(rhs)))
            } else {
                Err(ParseError::UnexpectedToken)
            },
        },
        None => Ok((acc, q)),
    }
}

/// add ::= term (("+" | "-") term)*
pub open spec fn parse_add(ts: Seq<Token>, p: int) -> Parsed
    decreases ts.len() - p, 3int,
{
    match parse_term(ts, p) {
        Err(e) => Err(e),
        Ok((t, q)) => if advances(ts, p, q) {
            add_rest(ts, q, t)
        } else {
            Err(ParseError::UnexpectedToken)
        },
    }
}

/// The left-associative tail of a sum, whose left operand `acc` ends at `q`.
pub open spec fn add_rest(ts: Seq<Token>, q: int, acc: Tree) -> Parsed
    decreases ts.len() - q, 3int,
{
    match additive_op(ts, q) {
        Some(op) => match parse_term(ts, q + 1) {
            Err(e) => Err(e),
            Ok((rhs, r)) => if advances(ts, q, r) {
                add_rest(ts, r, Tree::BinOp(op, Box::new(acc), Box::new(rhs)))
            } else {
                Err(ParseError::UnexpectedToken)
            },
        },
        None => Ok((acc, q)),
    }
}

/// term ::= unary (("*" | "/") unary)*
pub open spec fn parse_term(ts: Seq<Token>, p: int) -> Parsed
    decreases ts.len() - p, 2int,
{
    match parse_unary(ts, p) {
        Err(e) => Err(e),
        Ok((t, q)) => if advances(ts, p, q) {
            term_rest(ts, q, t)
        } else {
            Err(ParseError::UnexpectedToken)
        },
    }
}

/// The left-associative tail of a product, whose left operand `acc` ends at `q`.
pub open spec fn term_rest(ts: Seq<Token>, q: int, acc: Tree) -> Parsed
    decreases ts.len() - q, 2int,
{
    match multiplicative_op(ts, q) {
        Some(op) => match parse_unary(ts, q + 1) {
            Err(e) => Err(e),
            Ok((rhs, r)) => if advances(ts, q, r) {
                term_rest(ts, r, Tree::BinOp(op, Box::new(acc), Box::new(rhs)))
            } else {
                Err(ParseError::UnexpectedToken)
            },
        },
        None => Ok((acc, q)),
    }
}

/// unary ::= "+" primary | "-" primary | primary; `-x` stands for `0 - x`.
pub open spec fn parse_unary(ts: Seq<Token>, p: int) -> Parsed
    decreases ts.len() - p, 1int,
{
    if token_at(ts, p, Token::Plus) {
        parse_primary(ts, p + 1)
    } else if token_at(ts, p, Token::Minus) {
        match parse_primary(ts, p + 1) {
            Ok((t, q)) => Ok(
                (Tree::BinOp(Op::Sub, Box::new(Tree::Integer(0)), Box::new(t)), q),
            ),
            Err(e) => Err(e),
        }
    } else {
        parse_primary(ts, p)
    }
}

/// primary ::= ident | num | "(" expr ")"
pub open spec fn parse_primary(ts: Seq<Token>, p: int) -> Parsed
    decreases ts.len() - p, 0int,
{
    if 0 <= p < ts.len() {
        match ts[p] {
            Token::Ident(s) => Ok((Tree::Var(s), p + 1)),
            Token::Num(n) => Ok((Tree::Integer(n as isize), p + 1)),
            Token::LParen => match parse_expr(ts, p + 1) {
                Ok((t, q)) => if token_at(ts, q, Token::RParen) {
                    Ok((t, q + 1))
                } else {
                    Err(ParseError::ExpectedRParen)
                },
                Err(e) => Err(e),
            },
            _ => Err(ParseError::UnexpectedToken),
        }
    } else {
        Err(ParseError::UnexpectedToken)
    }
}

/// statement ::= expr ";"
pub open spec fn parse_statement(ts: Seq<Token>, p: int) -> Parsed {
    match parse_expr(ts, p) {
        Ok((t, q)) => if token_at(ts, q, Token::Semicolon) {
            Ok((t, q + 1))
        } else {
            Err(ParseError::ExpectedSemicolon)
        },
        Err(e) => Err(e),
    }
}

/// program ::= statement*, read from position `p` to the end of the tokens.
pub open spec fn parse_program(ts: Seq<Token>, p: int) -> Result<Seq<Tree>, ParseError>
    decreases ts.len() - p,
{
    if p < 0 || p >= ts.len() {
        Ok(Seq::empty())
    } else {
        match parse_statement(ts, p) {
            Err(e) => Err(e),
            Ok((t, q)) => if advances(ts, p, q) {
                match parse_program(ts, q) {
                    Ok(rest) => Ok(seq![t] + rest),
                    Err(e) => Err(e),
                }
            } else {
                Err(ParseError::UnexpectedToken)
            },
        }
    }
}

} // verus!

verus! {

/// Every phrase that parses from position `p` consumes at least one token and ends inside
/// the input.
pub proof fn lemma_expr_advances(ts: Seq<Token>, p: int)
    requires
        0 <= p,
    ensures
        parse_expr(ts, p) matches Ok((_, q)) ==> advances(ts, p, q),
    decreases ts.len() - p, 7int,
{
    lemma_assign_advances(ts, p);
}

proof fn lemma_assign_advances(ts: Seq<Token>, p: int)
    requires
        0 <= p,
    ensures
        parse_assign(ts, p) matches Ok((_, q)) ==> advances(ts, p, q),
    decreases ts.len() - p, 6int,
{
    lemma_equality_advances(ts, p);
    if let Ok((_, q)) = parse_equality(ts, p) {
        if token_at(ts, q, Token::Assign) && advances(ts, p, q) {
            lemma_assign_advances(ts, q + 1);
        }
    }
}

proof fn lemma_equality_advances(ts: Seq<Token>, p: int)
    requires
        0 <= p,
    ensures
        parse_equality(ts, p) matches Ok((_, q)) ==> advances(ts, p, q),
    decreases ts.len() - p, 5int,
{
    lemma_relational_advances(ts, p);
    if let Ok((t, q)) = parse_relational(ts, p) {
        if advances(ts, p, q) {
            lemma_equality_rest_advances(ts, q, t);
        }
    }
}

proof fn lemma_equality_rest_advances(ts: Seq<Token>, q: int, acc: Tree)
    requires
        0 <= q <= ts.len(),
    ensures
        equality_rest(ts, q, acc) matches Ok((_, r)) ==> q <= r <= ts.len(),
    decreases ts.len() - q, 5int,
{
    if let Some(op) = equality_op(ts, q) {
        lemma_relational_advances(ts, q + 1);
        if let Ok((rhs, r)) = parse_relational(ts, q + 1) {
            if advances(ts, q, r) {
                lemma_equality_rest_advances(ts, r, Tree::BinOp(op, Box::new(acc), Box::new(rhs)));
            }
        }
    }
}

proof fn lemma_relational_advances(ts: Seq<Token>, p: int)
    requires
        0 <= p,
    ensures
        parse_relational(ts, p) matches Ok((_, q)) ==> advances(ts, p, q),
    decreases ts.len() - p, 4int,
{
    lemma_add_advances(ts, p);
    if let Ok((t, q)) = parse_add(ts, p) {
        if advances(ts, p, q) {
            lemma_relational_rest_advances(ts, q, t);
        }
    }
}

proof fn lemma_relational_rest_advances(ts: Seq<Token>, q: int, acc: Tree)
    requires
        0 <= q <= ts.len(),
    ensures
        relational_rest(ts, q, acc) matches Ok((_, r)) ==> q <= r <= ts.len(),
    decreases ts.len() - q, 4int,
{
    if let Some(op) = relational_op(ts, q) {
        lemma_add_advances(ts, q + 1);
        if let Ok((rhs, r)) = parse_add(ts, q + 1) {
            if advances(ts, q, r) {
                lemma_relational_rest_advances(ts, r, Tree::BinOp(op, Box::new(acc), Box::new(rhs)));
            }
        }
    }
}

proof fn lemma_add_advances(ts: Seq<Token>, p: int)
    requires
        0 <= p,
    ensures
        parse_add(ts, p) matches Ok((_, q)) ==> advances(ts, p, q),
    decreases ts.len() - p, 3int,
{
    lemma_term_advances(ts, p);
    if let Ok((t, q)) = parse_term(ts, p) {
        if advances(ts, p, q) {
            lemma_add_rest_advances(ts, q, t);
        }
    }
}

proof fn lemma_add_rest_advances(ts: Seq<Token>, q: int, acc: Tree)
    requires
        0 <= q <= ts.len(),
    ensures
        add_rest(ts, q, acc) matches Ok((_, r)) ==> q <= r <= ts.len(),
    decreases ts.len() - q, 3int,
{
    if let Some(op) = additive_op(ts, q) {
        lemma_term_advances(ts, q + 1);
        if let Ok((rhs, r)) = parse_term(ts, q + 1) {
            if advances(ts, q, r) {
                lemma_add_rest_advances(ts, r, Tree::BinOp(op, Box::new(acc), Box::new(rhs)));
            }
        }
    }
}

proof fn lemma_term_advances(ts: Seq<Token>, p: int)
    requires
        0 <= p,
    ensures
        parse_term(ts, p) matches Ok((_, q)) ==> advances(ts, p, q),
    decreases ts.len() - p, 2int,
{
    lemma_unary_advances(ts, p);
    if let Ok((t, q)) = parse_unary(ts, p) {
        if advances(ts, p, q) {
            lemma_term_rest_advances(ts, q, t);
        }
    }
}

proof fn lemma_term_rest_advances(ts: Seq<Token>, q: int, acc: Tree)
    requires
        0 <= q <= ts.len(),
    ensures
        term_rest(ts, q, acc) matches Ok((_, r)) ==> q <= r <= ts.len(),
    decreases ts.len() - q, 2int,
{
    if let Some(op) = multiplicative_op(ts, q) {
        lemma_unary_advances(ts, q + 1);
        if let Ok((rhs, r)) = parse_unary(ts, q + 1) {
            if advances(ts, q, r) {
                lemma_term_rest_advances(ts, r, Tree::BinOp(op, Box::new(acc), Box::new(rhs)));
            }
        }
    }
}

proof fn lemma_unary_advances(ts: Seq<Token>, p: int)
    requires
        0 <= p,
    ensures
        parse_unary(ts, p) matches Ok((_, q)) ==> advances(ts, p, q),
    decreases ts.len() - p, 1int,
{
    if token_at(ts, p, Token::Plus) || token_at(ts, p, Token::Minus) {
        lemma_primary_advances(ts, p + 1);
    } else {
        lemma_primary_advances(ts, p);
    }
}

proof fn lemma_primary_advances(ts: Seq<Token>, p: int)
    requires
        0 <= p,
    ensures
        parse_primary(ts, p) matches Ok((_, q)) ==> advances(ts, p, q),
    decreases ts.len() - p, 0int,
{
    if 0 <= p < ts.len() {
        if ts[p] is LParen {
            lemma_expr_advances(ts, p + 1);
        }
    }
}

} // verus!

verus! {

/// What a parsing method returned, together with the position it stopped at.
pub open spec fn outcome(res: Result<Tree, ParseError>, pos: int) -> Parsed {
    match res {
        Ok(t) => Ok((t, pos)),
        Err(e) => Err(e),
    }
}

/// What `try_parse` returned, seen as a sequence of trees.
pub open spec fn trees_view(res: Result<Vec<Tree>, ParseError>) -> Result<Seq<Tree>, ParseError> {
    match res {
        Ok(v) => Ok(v@),
        Err(e) => Err(e),
    }
}

/// Puts `ts` in front of the trees of `r`, if `r` holds trees.
pub open spec fn prepend_trees(ts: Seq<Tree>, r: Result<Seq<Tree>, ParseError>) -> Result<
    Seq<Tree>,
    ParseError,
> {
    match r {
        Ok(rest) => Ok(ts + rest),
        Err(e) => Err(e),
    }
}

proof fn lemma_prepend_trees_assoc(a: Seq<Tree>, b: Seq<Tree>, r: Result<Seq<Tree>, ParseError>)
    ensures
        prepend_trees(a, prepend_trees(b, r)) == prepend_trees(a + b, r),
{
    if let Ok(x) = r {
        assert(a + (b + x) =~= (a + b) + x);
    }
}

/// One step of reading a program: a statement, then the rest of the program.
proof fn lemma_program_step(ts: Seq<Token>, q: int)
    requires
        0 <= q < ts.len(),
    ensures
        parse_program(ts, q) == match parse_statement(ts, q) {
            Err(e) => Err(e),
            Ok((t, r)) => prepend_trees(seq![t], parse_program(ts, r)),
        },
        parse_statement(ts, q) matches Ok((_, r)) ==> advances(ts, q, r),
{
    lemma_expr_advances(ts, q);
}

/// A recursive-descent parser over a sequence of tokens.
pub struct Parser {
    tokens: Vec<Token>,
    pos: usize,
}

impl Parser {
    /// The tokens being parsed.
    pub closed spec fn tokens(&self) -> Seq<Token> {
        self.tokens@
    }

    /// The position of the next token to be read.
    pub closed spec fn position(&self) -> int {
        self.pos as int
    }

    /// The position lies inside the tokens or just after them.
    pub closed spec fn wf(&self) -> bool {
        self.pos <= self.tokens.len()
    }

    /// A parser positioned at the first of `tokens`.
    pub fn new(tokens: Vec<Token>) -> (parser: Self)
        ensures
            parser.tokens() == tokens@,
            parser.position() == 0,
            parser.wf(),
    {
        Parser { tokens, pos: 0 }
    }

    /// The token at the current position, if there is one.
    pub fn peek(&self) -> (r: Option<&Token>)
        ensures
            r == (if 0 <= self.position() < self.tokens().len() {
                Some(&self.tokens()[self.position()])
            } else {
                None
            }),
    {
        if self.pos < self.tokens.len() {
            Some(&self.tokens[self.pos])
        } else {
            None
        }
    }

    /// Parses the whole remaining input as a sequence of statements.
    pub fn try_parse(&mut self) -> (res: Result<Vec<Tree>, ParseError>)
        requires
            old(self).wf(),
        ensures
            final(self).wf(),
            final(self).tokens() == old(self).tokens(),
            trees_view(res) == parse_program(old(self).tokens(), old(self).position()),
            res is Ok ==> final(self).position() == final(self).tokens().len(),
            old(self).position() < old(self).tokens().len() && (forall|k: int|
                old(self).position() <= k < old(self).tokens().len() ==> !(
                #[trigger] old(self).tokens()[k] is Semicolon)) ==> res is Err,
    {
        proof {
            if self.pos < self.tokens.len() && (forall|k: int|
                self.pos <= k < self.tokens@.len() ==> !(#[trigger] self.tokens@[k] is Semicolon)) {
                lemma_program_needs_semicolon(self.tokens@, self.pos as int);
            }
        }
        let ghost ts = self.tokens@;
        let ghost p0 = self.pos as int;
        let mut trees: Vec<Tree> = Vec::new();
        while self.pos < self.tokens.len()
            invariant
                self.tokens@ == ts,
                ts == old(self).tokens@,
                p0 == old(self).pos,
                self.wf(),
                p0 <= self.pos,
                parse_program(ts, p0) == prepend_trees(trees@, parse_program(ts, self.pos as int)),
            decreases ts.len() - self.pos,
        {
            let ghost q = self.pos as int;
            proof {
                lemma_program_step(ts, q);
            }
            let stmt = match self.try_statement() {
                Ok(t) => t,
                Err(e) => {
                    return Err(e);
                },
            };
            let ghost old_trees = trees@;
            proof {
                assert(parse_program(ts, q) == prepend_trees(seq![stmt], parse_program(ts, self.pos as int)));
                lemma_prepend_trees_assoc(trees@, seq![stmt], parse_program(ts, self.pos as int));
            }
            trees.push(stmt);
            proof {
                assert(trees@ =~= old_trees + seq![stmt]);
            }
        }
        proof {
            assert(trees@ + Seq::<Tree>::empty() =~= trees@);
        }
        Ok(trees)
    }

    /// Parses the whole remaining input, which must be a sequence of statements.
    pub fn parse(&mut self) -> (trees: Vec<Tree>)
        requires
            old(self).wf(),
            parse_program(old(self).tokens(), old(self).position()) is Ok,
        ensures
            final(self).wf(),
            final(self).tokens() == old(self).tokens(),
            parse_program(old(self).tokens(), old(self).position()) == Ok::<
                Seq<Tree>,
                ParseError,
            >(trees@),
            final(self).position() == final(self).tokens().len(),
    {
        let ghost ts = self.tokens@;
        let ghost p0 = self.pos as int;
        let mut trees: Vec<Tree> = Vec::new();
        while self.pos < self.tokens.len()
            invariant
                self.tokens@ == ts,
                ts == old(self).tokens@,
                p0 == old(self).pos,
                self.wf(),
                p0 <= self.pos,
                parse_program(ts, p0) == prepend_trees(trees@, parse_program(ts, self.pos as int)),
                parse_program(ts, p0) is Ok,
            decreases ts.len() - self.pos,
        {
            let ghost q = self.pos as int;
            proof {
                lemma_program_step(ts, q);
            }
            let stmt = self.statement();
            let ghost old_trees = trees@;
            proof {
                assert(parse_program(ts, q) == prepend_trees(seq![stmt], parse_program(ts, self.pos as int)));
                lemma_prepend_trees_assoc(trees@, seq![stmt], parse_program(ts, self.pos as int));
            }
            trees.push(stmt);
            proof {
                assert(trees@ =~= old_trees + seq![stmt]);
            }
        }
        proof {
            assert(trees@ + Seq::<Tree>::empty() =~= trees@);
        }
        trees
    }

    /// Parses one expression from the current position, which must start one.
    pub fn expr(&mut self) -> (tree: Tree)
        requires
            old(self).wf(),
            parse_expr(old(self).tokens(), old(self).position()) is Ok,
        ensures
            final(self).wf(),
            final(self).tokens() == old(self).tokens(),
            parse_expr(old(self).tokens(), old(self).position()) == Ok::<(Tree, int), ParseError>(
                (tree, final(self).position()),
            ),
            old(self).position() < final(self).position(),
            stops_at(old(self).tokens(), final(self).position()),
    {
        proof {
            lemma_expr_longest(self.tokens@, self.pos as int);
        }
        self.assign()
    }

    fn try_statement(&mut self) -> (res: Result<Tree, ParseError>)
        requires
            old(self).wf(),
        ensures
            final(self).wf(),
            final(self).tokens@ == old(self).tokens@,
            parse_statement(old(self).tokens@, old(self).pos as int) == outcome(res, final(self).pos as int),
    {
        let tree = match self.try_assign() {
            Ok(t) => t,
            Err(e) => {
                return Err(e);
            },
        };
        if self.at_token_semicolon() {
            self.pos = self.pos + 1;
            Ok(tree)
        } else {
            Err(ParseError::ExpectedSemicolon)
        }
    }

    fn try_assign(&mut self) -> (res: Result<Tree, ParseError>)
        requires
            old(self).wf(),
        ensures
            final(self).wf(),
            final(self).tokens@ == old(self).tokens@,
            parse_assign(old(self).tokens@, old(self).pos as int) == outcome(res, final(self).pos as int),
        decreases old(self).tokens@.len() - old(self).pos, 6int,
    {
        let ghost ts = self.tokens@;
        let ghost p0 = self.pos as int;
        let lhs = match self.try_equality() {
            Ok(t) => t,
            Err(e) => {
                return Err(e);
            },
        };
        proof {
            lemma_equality_advances(ts, p0);
        }
        if self.at_token_assign() {
            self.pos = self.pos + 1;
            let rhs = match self.try_assign() {
                Ok(t) => t,
                Err(e) => {
                    return Err(e);
                },
            };
            Ok(Tree::Assign(Box::new(lhs), Box::new(rhs)))
        } else {
            Ok(lhs)
        }
    }

    fn try_equality(&mut self) -> (res: Result<Tree, ParseError>)
        requires
            old(self).wf(),
        ensures
            final(self).wf(),
            final(self).tokens@ == old(self).tokens@,
            parse_equality(old(self).tokens@, old(self).pos as int) == outcome(res, final(self).pos as int),
        decreases old(self).tokens@.len() - old(self).pos, 5int,
    {
        let ghost ts = self.tokens@;
        let ghost p0 = self.pos as int;
        let mut tree = match self.try_relational() {
            Ok(t) => t,
            Err(e) => {
                return Err(e);
            },
        };
        proof {
            lemma_relational_advances(ts, p0);
        }
        loop
            invariant
                self.tokens@ == ts,
                ts == old(self).tokens@,
                p0 == old(self).pos,
                self.wf(),
                p0 < self.pos,
                parse_equality(ts, p0) == equality_rest(ts, self.pos as int, tree),
            decreases ts.len() - self.pos,
        {
            let ghost q = self.pos as int;
            match self.equality_op_here() {
                Some(op) => {
                    self.pos = self.pos + 1;
                    let rhs = match self.try_relational() {
                        Ok(t) => t,
                        Err(e) => {
                            return Err(e);
                        },
                    };
                    proof {
                        lemma_relational_advances(ts, q + 1);
                    }
                    tree = Tree::BinOp(op, Box::new(tree), Box::new(rhs));
                },
                None => {
                    return Ok(tree);
                },
            }
        }
    }

    fn try_relational(&mut self) -> (res: Result<Tree, ParseError>)
        requires
            old(self).wf(),
        ensures
            final(self).wf(),
            final(self).tokens@ == old(self).tokens@,
            parse_relational(old(self).tokens@, old(self).pos as int) == outcome(res, final(self).pos as int),
        decreases old(self).tokens@.len() - old(self).pos, 4int,
    {
        let ghost ts = self.tokens@;
        let ghost p0 = self.pos as int;
        let mut tree = match self.try_add() {
            Ok(t) => t,
            Err(e) => {
                return Err(e);
            },
        };
        proof {
            lemma_add_advances(ts, p0);
        }
        loop
            invariant
                self.tokens@ == ts,
                ts == old(self).tokens@,
                p0 == old(self).pos,
                self.wf(),
                p0 < self.pos,
                parse_relational(ts, p0) == relational_rest(ts, self.pos as int, tree),
            decreases ts.len() - self.pos,
        {
            let ghost q = self.pos as int;
            match self.relational_op_here() {
                Some(op) => {
                    self.pos = self.pos + 1;
                    let rhs = match self.try_add() {
                        Ok(t) => t,
                        Err(e) => {
                            return Err(e);
                        },
                    };
                    proof {
                        lemma_add_advances(ts, q + 1);
                    }
                    tree = Tree::BinOp(op, Box::new(tree), Box::new(rhs));
                },
                None => {
                    return Ok(tree);
                },
            }
        }
    }

    fn try_add(&mut self) -> (res: Result<Tree, ParseError>)
        requires
            old(self).wf(),
        ensures
            final(self).wf(),
            final(self).tokens@ == old(self).tokens@,
            parse_add(old(self).tokens@, old(self).pos as int) == outcome(res, final(self).pos as int),
        decreases old(self).tokens@.len() - old(self).pos, 3int,
    {
        let ghost ts = self.tokens@;
        let ghost p0 = self.pos as int;
        let mut tree = match self.try_term() {
            Ok(t) => t,
            Err(e) => {
                return Err(e);
            },
        };
        proof {
            lemma_term_advances(ts, p0);
        }
        loop
            invariant
                self.tokens@ == ts,
                ts == old(self).tokens@,
                p0 == old(self).pos,
                self.wf(),
                p0 < self.pos,
                parse_add(ts, p0) == add_rest(ts, self.pos as int, tree),
            decreases ts.len() - self.pos,
        {
            let ghost q = self.pos as int;
            match self.additive_op_here() {
                Some(op) => {
                    self.pos = self.pos + 1;
                    let rhs = match self.try_term() {
                        Ok(t) => t,
                        Err(e) => {
                            return Err(e);
                        },
                    };
                    proof {
                        lemma_term_advances(ts, q + 1);
                    }
                    tree = Tree::BinOp(op, Box::new(tree), Box::new(rhs));
                },
                None => {
                    return Ok(tree);
                },
            }
        }
    }

    fn try_term(&mut self) -> (res: Result<Tree, ParseError>)
        requires
            old(self).wf(),
        ensures
            final(self).wf(),
            final(self).tokens@ == old(self).tokens@,
            parse_term(old(self).tokens@, old(self).pos as int) == outcome(res, final(self).pos as int),
        decreases old(self).tokens@.len() - old(self).pos, 2int,
    {
        let ghost ts = self.tokens@;
        let ghost p0 = self.pos as int;
        let mut tree = match self.try_unary() {
            Ok(t) => t,
            Err(e) => {
                return Err(e);
            },
        };
        proof {
            lemma_unary_advances(ts, p0);
        }
        loop
            invariant
                self.tokens@ == ts,
                ts == old(self).tokens@,
                p0 == old(self).pos,
                self.wf(),
                p0 < self.pos,
                parse_term(ts, p0) == term_rest(ts, self.pos as int, tree),
            decreases ts.len() - self.pos,
        {
            let ghost q = self.pos as int;
            match self.multiplicative_op_here() {
                Some(op) => {
                    self.pos = self.pos + 1;
                    let rhs = match self.try_unary() {
                        Ok(t) => t,
                        Err(e) => {
                            return Err(e);
                        },
                    };
                    proof {
                        lemma_unary_advances(ts, q + 1);
                    }
                    tree = Tree::BinOp(op, Box::new(tree), Box::new(rhs));
                },
                None => {
                    return Ok(tree);
                },
            }
        }
    }

    fn try_unary(&mut self) -> (res: Result<Tree, ParseError>)
        requires
            old(self).wf(),
        ensures
            final(self).wf(),
            final(self).tokens@ == old(self).tokens@,
            parse_unary(old(self).tokens@, old(self).pos as int) == outcome(res, final(self).pos as int),
        decreases old(self).tokens@.len() - old(self).pos, 1int,
    {
        if self.pos < self.tokens.len() {
            match &self.tokens[self.pos] {
                Token::Plus => {
                    self.pos = self.pos + 1;
                    return self.try_primary();
                },
                Token::Minus => {
                    self.pos = self.pos + 1;
                    return match self.try_primary() {
                        Ok(t) => Ok(Tree::BinOp(Op::Sub, Box::new(Tree::Integer(0)), Box::new(t))),
                        Err(e) => Err(e),
                    };
                },
                _ => {},
            }
        }
        self.try_primary()
    }

    fn try_primary(&mut self) -> (res: Result<Tree, ParseError>)
        requires
            old(self).wf(),
        ensures
            final(self).wf(),
            final(self).tokens@ == old(self).tokens@,
            parse_primary(old(self).tokens@, old(self).pos as int) == outcome(res, final(self).pos as int),
        decreases old(self).tokens@.len() - old(self).pos, 0int,
    {
        if self.pos >= self.tokens.len() {
            return Err(ParseError::UnexpectedToken);
        }
        let p = self.pos;
        match &self.tokens[p] {
            Token::Ident(s) => {
                let name = s.clone();
                self.pos = p + 1;
                Ok(Tree::Var(name))
            },
            Token::Num(n) => {
                let v = *n as isize;
                self.pos = p + 1;
                Ok(Tree::Integer(v))
            },
            Token::LParen => {
                self.pos = p + 1;
                let tree = match self.try_assign() {
                    Ok(t) => t,
                    Err(e) => {
                        return Err(e);
                    },
                };
                if self.at_token_rparen() {
                    self.pos = self.pos + 1;
                    Ok(tree)
                } else {
                    Err(ParseError::ExpectedRParen)
                }
            },
            _ => Err(ParseError::UnexpectedToken),
        }
    }

    /// Parses `expr ";"` from the current position, which must start a statement.
    fn statement(&mut self) -> (tree: Tree)
        requires
            old(self).wf(),
            parse_statement(old(self).tokens@, old(self).pos as int) is Ok,
        ensures
            final(self).wf(),
            final(self).tokens@ == old(self).tokens@,
            parse_statement(old(self).tokens@, old(self).pos as int) == Ok::<(Tree, int), ParseError>(
                (tree, final(self).pos as int),
            ),
    {
        let tree = self.assign();
        if self.at_token_semicolon() {
            self.pos = self.pos + 1;
        } else {
            proof {
                assert(false);
            }
        }
        tree
    }

    /// Parses an assignment, which must start at the current position.
    fn assign(&mut self) -> (tree: Tree)
        requires
            old(self).wf(),
            parse_assign(old(self).tokens@, old(self).pos as int) is Ok,
        ensures
            final(self).wf(),
            final(self).tokens@ == old(self).tokens@,
            parse_assign(old(self).tokens@, old(self).pos as int) == Ok::<(Tree, int), ParseError>(
                (tree, final(self).pos as int),
            ),
        decreases old(self).tokens@.len() - old(self).pos, 6int,
    {
        let ghost ts = self.tokens@;
        let ghost p0 = self.pos as int;
        let lhs = self.equality();
        proof {
            lemma_equality_advances(ts, p0);
        }
        if self.at_token_assign() {
            self.pos = self.pos + 1;
            let rhs = self.assign();
            Tree::Assign(Box::new(lhs), Box::new(rhs))
        } else {
            lhs
        }
    }

    /// Parses an equality, which must start at the current position.
    fn equality(&mut self) -> (tree: Tree)
        requires
            old(self).wf(),
            parse_equality(old(self).tokens@, old(self).pos as int) is Ok,
        ensures
            final(self).wf(),
            final(self).tokens@ == old(self).tokens@,
            parse_equality(old(self).tokens@, old(self).pos as int) == Ok::<(Tree, int), ParseError>(
                (tree, final(self).pos as int),
            ),
        decreases old(self).tokens@.len() - old(self).pos, 5int,
    {
        let ghost ts = self.tokens@;
        let ghost p0 = self.pos as int;
        let mut tree = self.relational();
        proof {
            lemma_relational_advances(ts, p0);
        }
        loop
            invariant
                self.tokens@ == ts,
                ts == old(self).tokens@,
                p0 == old(self).pos,
                self.wf(),
                p0 < self.pos,
                parse_equality(ts, p0) == equality_rest(ts, self.pos as int, tree),
                parse_equality(ts, p0) is Ok,
            decreases ts.len() - self.pos,
        {
            let ghost q = self.pos as int;
            match self.equality_op_here() {
                Some(op) => {
                    self.pos = self.pos + 1;
                    let rhs = self.relational();
                    proof {
                        lemma_relational_advances(ts, q + 1);
                    }
                    tree = Tree::BinOp(op, Box::new(tree), Box::new(rhs));
                },
                None => {
                    return tree;
                },
            }
        }
    }

    /// Parses a comparison, which must start at the current position.
    fn relational(&mut self) -> (tree: Tree)
        requires
            old(self).wf(),
            parse_relational(old(self).tokens@, old(self).pos as int) is Ok,
        ensures
            final(self).wf(),
            final(self).tokens@ == old(self).tokens@,
            parse_relational(old(self).tokens@, old(self).pos as int) == Ok::<(Tree, int), ParseError>(
                (tree, final(self).pos as int),
            ),
        decreases old(self).tokens@.len() - old(self).pos, 4int,
    {
        let ghost ts = self.tokens@;
        let ghost p0 = self.pos as int;
        let mut tree = self.add();
        proof {
            lemma_add_advances(ts, p0);
        }
        loop
            invariant
                self.tokens@ == ts,
                ts == old(self).tokens@,
                p0 == old(self).pos,
                self.wf(),
                p0 < self.pos,
                parse_relational(ts, p0) == relational_rest(ts, self.pos as int, tree),
                parse_relational(ts, p0) is Ok,
            decreases ts.len() - self.pos,
        {
            let ghost q = self.pos as int;
            match self.relational_op_here() {
                Some(op) => {
                    self.pos = self.pos + 1;
                    let rhs = self.add();
                    proof {
                        lemma_add_advances(ts, q + 1);
                    }
                    tree = Tree::BinOp(op, Box::new(tree), Box::new(rhs));
                },
                None => {
                    return tree;
                },
            }
        }
    }

    /// Parses a sum, which must start at the current position.
    fn add(&mut self) -> (tree: Tree)
        requires
            old(self).wf(),
            parse_add(old(self).tokens@, old(self).pos as int) is Ok,
        ensures
            final(self).wf(),
            final(self).tokens@ == old(self).tokens@,
            parse_add(old(self).tokens@, old(self).pos as int) == Ok::<(Tree, int), ParseError>(
                (tree, final(self).pos as int),
            ),
        decreases old(self).tokens@.len() - old(self).pos, 3int,
    {
        let ghost ts = self.tokens@;
        let ghost p0 = self.pos as int;
        let mut tree = self.term();
        proof {
            lemma_term_advances(ts, p0);
        }
        loop
            invariant
                self.tokens@ == ts,
                ts == old(self).tokens@,
                p0 == old(self).pos,
                self.wf(),
                p0 < self.pos,
                parse_add(ts, p0) == add_rest(ts, self.pos as int, tree),
                parse_add(ts, p0) is Ok,
            decreases ts.len() - self.pos,
        {
            let ghost q = self.pos as int;
            match self.additive_op_here() {
                Some(op) => {
                    self.pos = self.pos + 1;
                    let rhs = self.term();
                    proof {
                        lemma_term_advances(ts, q + 1);
                    }
                    tree = Tree::BinOp(op, Box::new(tree), Box::new(rhs));
                },
                None => {
                    return tree;
                },
            }
        }
    }

    /// Parses a product, which must start at the current position.
    fn term(&mut self) -> (tree: Tree)
        requires
            old(self).wf(),
            parse_term(old(self).tokens@, old(self).pos as int) is Ok,
        ensures
            final(self).wf(),
            final(self).tokens@ == old(self).tokens@,
            parse_term(old(self).tokens@, old(self).pos as int) == Ok::<(Tree, int), ParseError>(
                (tree, final(self).pos as int),
            ),
        decreases old(self).tokens@.len() - old(self).pos, 2int,
    {
        let ghost ts = self.tokens@;
        let ghost p0 = self.pos as int;
        let mut tree = self.unary();
        proof {
            lemma_unary_advances(ts, p0);
        }
        loop
            invariant
                self.tokens@ == ts,
                ts == old(self).tokens@,
                p0 == old(self).pos,
                self.wf(),
                p0 < self.pos,
                parse_term(ts, p0) == term_rest(ts, self.pos as int, tree),
                parse_term(ts, p0) is Ok,
            decreases ts.len() - self.pos,
        {
            let ghost q = self.pos as int;
            match self.multiplicative_op_here() {
                Some(op) => {
                    self.pos = self.pos + 1;
                    let rhs = self.unary();
                    proof {
                        lemma_unary_advances(ts, q + 1);
                    }
                    tree = Tree::BinOp(op, Box::new(tree), Box::new(rhs));
                },
                None => {
                    return tree;
                },
            }
        }
    }

    /// Parses a signed operand, which must start at the current position.
    fn unary(&mut self) -> (tree: Tree)
        requires
            old(self).wf(),
            parse_unary(old(self).tokens@, old(self).pos as int) is Ok,
        ensures
            final(self).wf(),
            final(self).tokens@ == old(self).tokens@,
            parse_unary(old(self).tokens@, old(self).pos as int) == Ok::<(Tree, int), ParseError>(
                (tree, final(self).pos as int),
            ),
        decreases old(self).tokens@.len() - old(self).pos, 1int,
    {
        if self.pos < self.tokens.len() {
            match &self.tokens[self.pos] {
                Token::Plus => {
                    self.pos = self.pos + 1;
                    return self.primary();
                },
                Token::Minus => {
                    self.pos = self.pos + 1;
                    let t = self.primary();
                    return Tree::BinOp(Op::Sub, Box::new(Tree::Integer(0)), Box::new(t));
                },
                _ => {},
            }
        }
        self.primary()
    }

    /// Parses a number, a name or a parenthesized expression, which must start at the
    /// current position.
    fn primary(&mut self) -> (tree: Tree)
        requires
            old(self).wf(),
            parse_primary(old(self).tokens@, old(self).pos as int) is Ok,
        ensures
            final(self).wf(),
            final(self).tokens@ == old(self).tokens@,
            parse_primary(old(self).tokens@, old(self).pos as int) == Ok::<(Tree, int), ParseError>(
                (tree, final(self).pos as int),
            ),
        decreases old(self).tokens@.len() - old(self).pos, 0int,
    {
        let p = self.pos;
        match &self.tokens[p] {
            Token::Ident(s) => {
                let name = s.clone();
                self.pos = p + 1;
                Tree::Var(name)
            },
            Token::Num(n) => {
                let v = *n as isize;
                self.pos = p + 1;
                Tree::Integer(v)
            },
            _ => {
                self.pos = p + 1;
                let tree = self.assign();
                self.pos = self.pos + 1;
                tree
            },
        }
    }

    fn at_token_semicolon(&self) -> (b: bool)
        ensures
            b == token_at(self.tokens@, self.pos as int, Token::Semicolon),
    {
        self.pos < self.tokens.len() && match &self.tokens[self.pos] {
            Token::Semicolon => true,
            _ => false,
        }
    }

    fn at_token_assign(&self) -> (b: bool)
        ensures
            b == token_at(self.tokens@, self.pos as int, Token::Assign),
    {
        self.pos < self.tokens.len() && match &self.tokens[self.pos] {
            Token::Assign => true,
            _ => false,
        }
    }

    fn at_token_rparen(&self) -> (b: bool)
        ensures
            b == token_at(self.tokens@, self.pos as int, Token::RParen),
    {
        self.pos < self.tokens.len() && match &self.tokens[self.pos] {
            Token::RParen => true,
            _ => false,
        }
    }

    fn equality_op_here(&self) -> (o: Option<Op>)
        ensures
            o == equality_op(self.tokens@, self.pos as int),
    {
        if self.pos < self.tokens.len() {
            match &self.tokens[self.pos] {
                Token::Eq => Some(Op::Eq),
                Token::NotEq => Some(Op::NotEq),
                _ => None,
            }
        } else {
            None
        }
    }

    fn relational_op_here(&self) -> (o: Option<Op>)
        ensures
            o == relational_op(self.tokens@, self.pos as int),
    {
        if self.pos < self.tokens.len() {
            match &self.tokens[self.pos] {
                Token::GreaterThan => Some(Op::GreaterThan),
                Token::GreaterThanOrEq => Some(Op::GreaterThanOrEq),
                Token::LessThan => Some(Op::LessThan),
                Token::LessThanOrEq => Some(Op::LessThanOrEq),
                _ => None,
            }
        } else {
            None
        }
    }

    fn additive_op_here(&self) -> (o: Option<Op>)
        ensures
            o == additive_op(self.tokens@, self.pos as int),
    {
        if self.pos < self.tokens.len() {
            match &self.tokens[self.pos] {
                Token::Plus => Some(Op::Add),
                Token::Minus => Some(Op::Sub),
                _ => None,
            }
        } else {
            None
        }
    }

    fn multiplicative_op_here(&self) -> (o: Option<Op>)
        ensures
            o == multiplicative_op(self.tokens@, self.pos as int),
    {
        if self.pos < self.tokens.len() {
            match &self.tokens[self.pos] {
                Token::Asterisk => Some(Op::Mul),
                Token::Slash => Some(Op::Div),
                _ => None,
            }
        } else {
            None
        }
    }
}

} // verus!

verus! {

/// The token of a binary operator.
pub open spec fn op_token(op: Op) -> Token {
    match op {
        Op::Add => Token::Plus,
        Op::Sub => Token::Minus,
        Op::Mul => Token::Asterisk,
        Op::Div => Token::Slash,
        Op::Eq => Token::Eq,
        Op::NotEq => Token::NotEq,
        Op::GreaterThan => Token::GreaterThan,
        Op::LessThan => Token::LessThan,
        Op::GreaterThanOrEq => Token::GreaterThanOrEq,
        Op::LessThanOrEq => Token::LessThanOrEq,
    }
}

/// A tree that can be written as tokens: its integer literals are not negative.
pub open spec fn printable(t: Tree) -> bool
    decreases t,
{
    match t {
        Tree::Integer(n) => n >= 0,
        Tree::Var(_) => true,
        Tree::BinOp(_, l, r) => printable(*l) && printable(*r),
        Tree::Assign(l, r) => printable(*l) && printable(*r),
    }
}

/// The tokens of a tree with every operation in parentheses, such as `((1 + 2) * x)`.
pub open spec fn paren_tokens(t: Tree) -> Seq<Token>
    decreases t,
{
    match t {
        Tree::Integer(n) => seq![Token::Num(n as usize)],
        Tree::Var(s) => seq![Token::Ident(s)],
        Tree::BinOp(op, l, r) => seq![Token::LParen] + paren_tokens(*l) + seq![op_token(op)]
            + paren_tokens(*r) + seq![Token::RParen],
        Tree::Assign(l, r) => seq![Token::LParen] + paren_tokens(*l) + seq![Token::Assign]
            + paren_tokens(*r) + seq![Token::RParen],
    }
}

/// No operator and no `=` stands at position `q`, so every level of the grammar stops there.
pub open spec fn stops_at(ts: Seq<Token>, q: int) -> bool {
    &&& equality_op(ts, q) is None
    &&& relational_op(ts, q) is None
    &&& additive_op(ts, q) is None
    &&& multiplicative_op(ts, q) is None
    &&& !token_at(ts, q, Token::Assign)
}

proof fn lemma_lift_from_equality(ts: Seq<Token>, p: int, t: Tree, q: int)
    requires
        parse_equality(ts, p) == Ok::<(Tree, int), ParseError>((t, q)),
        advances(ts, p, q),
        stops_at(ts, q),
    ensures
        parse_expr(ts, p) == Ok::<(Tree, int), ParseError>((t, q)),
{
}

proof fn lemma_lift_from_relational(ts: Seq<Token>, p: int, t: Tree, q: int)
    requires
        parse_relational(ts, p) == Ok::<(Tree, int), ParseError>((t, q)),
        advances(ts, p, q),
        stops_at(ts, q),
    ensures
        parse_equality(ts, p) == Ok::<(Tree, int), ParseError>((t, q)),
        parse_expr(ts, p) == Ok::<(Tree, int), ParseError>((t, q)),
{
    assert(equality_rest(ts, q, t) == Ok::<(Tree, int), ParseError>((t, q)));
    lemma_lift_from_equality(ts, p, t, q);
}

proof fn lemma_lift_from_add(ts: Seq<Token>, p: int, t: Tree, q: int)
    requires
        parse_add(ts, p) == Ok::<(Tree, int), ParseError>((t, q)),
        advances(ts, p, q),
        stops_at(ts, q),
    ensures
        parse_relational(ts, p) == Ok::<(Tree, int), ParseError>((t, q)),
        parse_equality(ts, p) == Ok::<(Tree, int), ParseError>((t, q)),
        parse_expr(ts, p) == Ok::<(Tree, int), ParseError>((t, q)),
{
    assert(relational_rest(ts, q, t) == Ok::<(Tree, int), ParseError>((t, q)));
    lemma_lift_from_relational(ts, p, t, q);
}

proof fn lemma_lift_from_term(ts: Seq<Token>, p: int, t: Tree, q: int)
    requires
        parse_term(ts, p) == Ok::<(Tree, int), ParseError>((t, q)),
        advances(ts, p, q),
        stops_at(ts, q),
    ensures
        parse_add(ts, p) == Ok::<(Tree, int), ParseError>((t, q)),
        parse_relational(ts, p) == Ok::<(Tree, int), ParseError>((t, q)),
        parse_equality(ts, p) == Ok::<(Tree, int), ParseError>((t, q)),
        parse_expr(ts, p) == Ok::<(Tree, int), ParseError>((t, q)),
{
    assert(add_rest(ts, q, t) == Ok::<(Tree, int), ParseError>((t, q)));
    lemma_lift_from_add(ts, p, t, q);
}

proof fn lemma_lift_from_unary(ts: Seq<Token>, p: int, t: Tree, q: int)
    requires
        parse_unary(ts, p) == Ok::<(Tree, int), ParseError>((t, q)),
        advances(ts, p, q),
        stops_at(ts, q),
    ensures
        parse_term(ts, p) == Ok::<(Tree, int), ParseError>((t, q)),
        parse_add(ts, p) == Ok::<(Tree, int), ParseError>((t, q)),
        parse_relational(ts, p) == Ok::<(Tree, int), ParseError>((t, q)),
        parse_equality(ts, p) == Ok::<(Tree, int), ParseError>((t, q)),
        parse_expr(ts, p) == Ok::<(Tree, int), ParseError>((t, q)),
{
    assert(term_rest(ts, q, t) == Ok::<(Tree, int), ParseError>((t, q)));
    lemma_lift_from_term(ts, p, t, q);
}

/// Where the parts of `( lt mid rt )` written at position `p` stand.
proof fn lemma_paren_layout(ts: Seq<Token>, p: int, lt: Seq<Token>, mid: Token, rt: Seq<Token>)
    requires
        0 <= p,
        p + lt.len() + rt.len() + 3 <= ts.len(),
        ts.subrange(p, p + lt.len() + rt.len() + 3) == seq![Token::LParen] + lt + seq![mid] + rt
            + seq![Token::RParen],
    ensures
        ts[p] == Token::LParen,
        ts.subrange(p + 1, p + 1 + lt.len()) == lt,
        ts[p + 1 + lt.len()] == mid,
        ts.subrange(p + 2 + lt.len(), p + 2 + lt.len() + rt.len()) == rt,
        ts[p + 2 + lt.len() + rt.len()] == Token::RParen,
{
    let whole = seq![Token::LParen] + lt + seq![mid] + rt + seq![Token::RParen];
    let n = lt.len() as int;
    let k = rt.len() as int;
    let inner = ts.subrange(p, p + n + k + 3);
    assert(inner[0] == whole[0]);
    assert(inner[n + 1] == whole[n + 1]);
    assert(inner[n + k + 2] == whole[n + k + 2]);
    assert(ts.subrange(p + 1, p + 1 + n) =~= lt) by {
        assert forall|j: int| 0 <= j < n implies ts.subrange(p + 1, p + 1 + n)[j] == lt[j] by {
            assert(inner[1 + j] == whole[1 + j]);
        }
    }
    assert(ts.subrange(p + 2 + n, p + 2 + n + k) =~= rt) by {
        assert forall|j: int| 0 <= j < k implies ts.subrange(p + 2 + n, p + 2 + n + k)[j]
            == rt[j] by {
            assert(inner[n + 2 + j] == whole[n + 2 + j]);
        }
    }
}

/// A parenthesized operation whose inside reads as `t` up to the `)` at `q` reads, as a
/// primary expression, as `t`.
proof fn lemma_paren_close(ts: Seq<Token>, p: int, t: Tree, q: int)
    requires
        0 <= p,
        ts[p] == Token::LParen,
        p < q < ts.len(),
        parse_expr(ts, p + 1) == Ok::<(Tree, int), ParseError>((t, q)),
        ts[q] == Token::RParen,
    ensures
        parse_primary(ts, p) == Ok::<(Tree, int), ParseError>((t, q + 1)),
        parse_unary(ts, p) == Ok::<(Tree, int), ParseError>((t, q + 1)),
{
}

proof fn lemma_paren_atom(ts: Seq<Token>, p: int, t: Tree)
    requires
        printable(t),
        t is Integer || t is Var,
        0 <= p,
        p + paren_tokens(t).len() <= ts.len(),
        ts.subrange(p, p + paren_tokens(t).len()) == paren_tokens(t),
    ensures
        paren_tokens(t).len() == 1,
        parse_primary(ts, p) == Ok::<(Tree, int), ParseError>((t, p + 1)),
        parse_unary(ts, p) == Ok::<(Tree, int), ParseError>((t, p + 1)),
{
    let pt = paren_tokens(t);
    assert(ts[p] == ts.subrange(p, p + pt.len())[0]);
    if let Tree::Integer(n) = t {
        assert((n as usize) as isize == n);
    }
}

proof fn lemma_paren_op(ts: Seq<Token>, p: int, op: Op, l: Tree, r: Tree, m: int, q: int)
    requires
        0 <= p,
        ts[p] == Token::LParen,
        binop_layout(ts, p + 1, l, m, r, q),
        ts[m] == op_token(op),
    ensures
        parse_primary(ts, p) == Ok::<(Tree, int), ParseError>(
            (Tree::BinOp(op, Box::new(l), Box::new(r)), q + 1),
        ),
        parse_unary(ts, p) == Ok::<(Tree, int), ParseError>(
            (Tree::BinOp(op, Box::new(l), Box::new(r)), q + 1),
        ),
{
    match op {
        Op::Mul | Op::Div => lemma_paren_mul(ts, p + 1, op, l, m, r, q),
        Op::Add | Op::Sub => lemma_paren_add(ts, p + 1, op, l, m, r, q),
        Op::Eq | Op::NotEq => lemma_paren_equality(ts, p + 1, op, l, m, r, q),
        _ => lemma_paren_relational(ts, p + 1, op, l, m, r, q),
    }
    lemma_paren_close(ts, p, Tree::BinOp(op, Box::new(l), Box::new(r)), q);
}

proof fn lemma_paren_assign_close(ts: Seq<Token>, p: int, l: Tree, r: Tree, m: int, q: int)
    requires
        0 <= p,
        ts[p] == Token::LParen,
        binop_layout(ts, p + 1, l, m, r, q),
        ts[m] == Token::Assign,
    ensures
        parse_primary(ts, p) == Ok::<(Tree, int), ParseError>(
            (Tree::Assign(Box::new(l), Box::new(r)), q + 1),
        ),
        parse_unary(ts, p) == Ok::<(Tree, int), ParseError>(
            (Tree::Assign(Box::new(l), Box::new(r)), q + 1),
        ),
{
    lemma_paren_assign(ts, p + 1, l, m, r, q);
    lemma_paren_close(ts, p, Tree::Assign(Box::new(l), Box::new(r)), q);
}

proof fn lemma_paren_tokens_nonempty(t: Tree)
    ensures
        paren_tokens(t).len() >= 1,
{
}

/// A fully parenthesized tree written at position `p` is read back, as a primary
/// expression, as that tree.
proof fn lemma_paren_primary(ts: Seq<Token>, p: int, t: Tree)
    requires
        printable(t),
        0 <= p,
        p + paren_tokens(t).len() <= ts.len(),
        ts.subrange(p, p + paren_tokens(t).len()) == paren_tokens(t),
    ensures
        parse_primary(ts, p) == Ok::<(Tree, int), ParseError>((t, p + paren_tokens(t).len())),
        parse_unary(ts, p) == Ok::<(Tree, int), ParseError>((t, p + paren_tokens(t).len())),
    decreases t,
{
    match t {
        Tree::BinOp(op, l, r) => {
            lemma_paren_layout(ts, p, paren_tokens(*l), op_token(op), paren_tokens(*r));
            lemma_paren_primary(ts, p + 1, *l);
            lemma_paren_primary(ts, p + 2 + paren_tokens(*l).len(), *r);
            lemma_paren_tokens_nonempty(*l);
            lemma_paren_tokens_nonempty(*r);
            lemma_paren_compound_op(
                ts,
                p,
                op,
                *l,
                *r,
                paren_tokens(*l).len() as int,
                paren_tokens(*r).len() as int,
            );
        },
        Tree::Assign(l, r) => {
            lemma_paren_layout(ts, p, paren_tokens(*l), Token::Assign, paren_tokens(*r));
            lemma_paren_primary(ts, p + 1, *l);
            lemma_paren_primary(ts, p + 2 + paren_tokens(*l).len(), *r);
            lemma_paren_tokens_nonempty(*l);
            lemma_paren_tokens_nonempty(*r);
            lemma_paren_compound_assign(
                ts,
                p,
                *l,
                *r,
                paren_tokens(*l).len() as int,
                paren_tokens(*r).len() as int,
            );
        },
        _ => {
            lemma_paren_atom(ts, p, t);
        },
    }
}

/// The step of `lemma_paren_primary` for a binary operation, given what its operands
/// read as.
#[verifier::spinoff_prover]
#[verifier::rlimit(40)]
proof fn lemma_paren_compound_op(ts: Seq<Token>, p: int, op: Op, l: Tree, r: Tree, nl: int, nr: int)
    requires
        0 <= p,
        nl >= 1,
        nr >= 1,
        p + nl + nr + 3 <= ts.len(),
        ts[p] == Token::LParen,
        ts[p + 2 + nl + nr] == Token::RParen,
        ts[p + 1 + nl] == op_token(op),
        parse_unary(ts, p + 1) == Ok::<(Tree, int), ParseError>((l, p + 1 + nl)),
        parse_unary(ts, p + 2 + nl) == Ok::<(Tree, int), ParseError>((r, p + 2 + nl + nr)),
    ensures
        parse_primary(ts, p) == Ok::<(Tree, int), ParseError>(
            (Tree::BinOp(op, Box::new(l), Box::new(r)), p + nl + nr + 3),
        ),
        parse_unary(ts, p) == Ok::<(Tree, int), ParseError>(
            (Tree::BinOp(op, Box::new(l), Box::new(r)), p + nl + nr + 3),
        ),
{
    let m = p + 1 + nl;
    let q = m + 1 + nr;
    assert(binop_layout(ts, p + 1, l, m, r, q));
    lemma_paren_op(ts, p, op, l, r, m, q);
}

/// The step of `lemma_paren_primary` for an assignment, given what its sides read as.
#[verifier::spinoff_prover]
#[verifier::rlimit(40)]
proof fn lemma_paren_compound_assign(ts: Seq<Token>, p: int, l: Tree, r: Tree, nl: int, nr: int)
    requires
        0 <= p,
        nl >= 1,
        nr >= 1,
        p + nl + nr + 3 <= ts.len(),
        ts[p] == Token::LParen,
        ts[p + 2 + nl + nr] == Token::RParen,
        ts[p + 1 + nl] == Token::Assign,
        parse_unary(ts, p + 1) == Ok::<(Tree, int), ParseError>((l, p + 1 + nl)),
        parse_unary(ts, p + 2 + nl) == Ok::<(Tree, int), ParseError>((r, p + 2 + nl + nr)),
    ensures
        parse_primary(ts, p) == Ok::<(Tree, int), ParseError>(
            (Tree::Assign(Box::new(l), Box::new(r)), p + nl + nr + 3),
        ),
        parse_unary(ts, p) == Ok::<(Tree, int), ParseError>(
            (Tree::Assign(Box::new(l), Box::new(r)), p + nl + nr + 3),
        ),
{
    let m = p + 1 + nl;
    let q = m + 1 + nr;
    assert(binop_layout(ts, p + 1, l, m, r, q));
    lemma_paren_assign_close(ts, p, l, r, m, q);
}

proof fn lemma_term_stays(ts: Seq<Token>, p: int, t: Tree, m: int)
    requires
        parse_unary(ts, p) == Ok::<(Tree, int), ParseError>((t, m)),
        advances(ts, p, m),
        multiplicative_op(ts, m) is None,
    ensures
        parse_term(ts, p) == Ok::<(Tree, int), ParseError>((t, m)),
{
    assert(term_rest(ts, m, t) == Ok::<(Tree, int), ParseError>((t, m)));
}

proof fn lemma_add_stays(ts: Seq<Token>, p: int, t: Tree, m: int)
    requires
        parse_term(ts, p) == Ok::<(Tree, int), ParseError>((t, m)),
        advances(ts, p, m),
        additive_op(ts, m) is None,
    ensures
        parse_add(ts, p) == Ok::<(Tree, int), ParseError>((t, m)),
{
    assert(add_rest(ts, m, t) == Ok::<(Tree, int), ParseError>((t, m)));
}

proof fn lemma_relational_stays(ts: Seq<Token>, p: int, t: Tree, m: int)
    requires
        parse_add(ts, p) == Ok::<(Tree, int), ParseError>((t, m)),
        advances(ts, p, m),
        relational_op(ts, m) is None,
    ensures
        parse_relational(ts, p) == Ok::<(Tree, int), ParseError>((t, m)),
{
    assert(relational_rest(ts, m, t) == Ok::<(Tree, int), ParseError>((t, m)));
}

proof fn lemma_relational_step(ts: Seq<Token>, p: int, op: Op, l: Tree, m: int, r: Tree, q: int)
    requires
        parse_add(ts, p) == Ok::<(Tree, int), ParseError>((l, m)),
        advances(ts, p, m),
        relational_op(ts, m) == Some(op),
        parse_add(ts, m + 1) == Ok::<(Tree, int), ParseError>((r, q)),
        advances(ts, m, q),
        relational_op(ts, q) is None,
    ensures
        parse_relational(ts, p) == Ok::<(Tree, int), ParseError>(
            (Tree::BinOp(op, Box::new(l), Box::new(r)), q),
        ),
{
    let bin = Tree::BinOp(op, Box::new(l), Box::new(r));
    assert(relational_rest(ts, q, bin) == Ok::<(Tree, int), ParseError>((bin, q)));
    assert(relational_rest(ts, m, l) == Ok::<(Tree, int), ParseError>((bin, q)));
}

proof fn lemma_equality_step(ts: Seq<Token>, p: int, op: Op, l: Tree, m: int, r: Tree, q: int)
    requires
        parse_relational(ts, p) == Ok::<(Tree, int), ParseError>((l, m)),
        advances(ts, p, m),
        equality_op(ts, m) == Some(op),
        parse_relational(ts, m + 1) == Ok::<(Tree, int), ParseError>((r, q)),
        advances(ts, m, q),
        equality_op(ts, q) is None,
    ensures
        parse_equality(ts, p) == Ok::<(Tree, int), ParseError>(
            (Tree::BinOp(op, Box::new(l), Box::new(r)), q),
        ),
{
    let bin = Tree::BinOp(op, Box::new(l), Box::new(r));
    assert(equality_rest(ts, q, bin) == Ok::<(Tree, int), ParseError>((bin, q)));
    assert(equality_rest(ts, m, l) == Ok::<(Tree, int), ParseError>((bin, q)));
}

/// The facts shared by the operator cases: `l` read at `p` ends at the operator at `m`,
/// `r` read after it ends at the `)` at `q`.
pub open spec fn binop_layout(ts: Seq<Token>, p: int, l: Tree, m: int, r: Tree, q: int) -> bool {
    &&& 0 <= p < m
    &&& m + 1 < q < ts.len()
    &&& parse_unary(ts, p) == Ok::<(Tree, int), ParseError>((l, m))
    &&& parse_unary(ts, m + 1) == Ok::<(Tree, int), ParseError>((r, q))
    &&& ts[q] == Token::RParen
}

#[verifier::spinoff_prover]
#[verifier::rlimit(40)]
proof fn lemma_paren_mul(ts: Seq<Token>, p: int, op: Op, l: Tree, m: int, r: Tree, q: int)
    requires
        binop_layout(ts, p, l, m, r, q),
        op == Op::Mul || op == Op::Div,
        ts[m] == op_token(op),
    ensures
        parse_expr(ts, p) == Ok::<(Tree, int), ParseError>(
            (Tree::BinOp(op, Box::new(l), Box::new(r)), q),
        ),
{
    let bin = Tree::BinOp(op, Box::new(l), Box::new(r));
    assert(multiplicative_op(ts, m) == Some(op));
    assert(term_rest(ts, q, bin) == Ok::<(Tree, int), ParseError>((bin, q)));
    assert(term_rest(ts, m, l) == Ok::<(Tree, int), ParseError>((bin, q)));
    assert(parse_term(ts, p) == Ok::<(Tree, int), ParseError>((bin, q)));
    lemma_lift_from_term(ts, p, bin, q);
}

#[verifier::spinoff_prover]
#[verifier::rlimit(40)]
proof fn lemma_paren_add(ts: Seq<Token>, p: int, op: Op, l: Tree, m: int, r: Tree, q: int)
    requires
        binop_layout(ts, p, l, m, r, q),
        op == Op::Add || op == Op::Sub,
        ts[m] == op_token(op),
    ensures
        parse_expr(ts, p) == Ok::<(Tree, int), ParseError>(
            (Tree::BinOp(op, Box::new(l), Box::new(r)), q),
        ),
{
    let bin = Tree::BinOp(op, Box::new(l), Box::new(r));
    lemma_lift_from_unary(ts, m + 1, r, q);
    assert(multiplicative_op(ts, m) is None);
    assert(term_rest(ts, m, l) == Ok::<(Tree, int), ParseError>((l, m)));
    assert(parse_term(ts, p) == Ok::<(Tree, int), ParseError>((l, m)));
    assert(additive_op(ts, m) == Some(op));
    assert(add_rest(ts, q, bin) == Ok::<(Tree, int), ParseError>((bin, q)));
    assert(add_rest(ts, m, l) == Ok::<(Tree, int), ParseError>((bin, q)));
    assert(parse_add(ts, p) == Ok::<(Tree, int), ParseError>((bin, q)));
    lemma_lift_from_add(ts, p, bin, q);
}

#[verifier::spinoff_prover]
#[verifier::rlimit(40)]
proof fn lemma_paren_relational(ts: Seq<Token>, p: int, op: Op, l: Tree, m: int, r: Tree, q: int)
    requires
        binop_layout(ts, p, l, m, r, q),
        op == Op::GreaterThan || op == Op::LessThan || op == Op::GreaterThanOrEq || op
            == Op::LessThanOrEq,
        ts[m] == op_token(op),
    ensures
        parse_expr(ts, p) == Ok::<(Tree, int), ParseError>(
            (Tree::BinOp(op, Box::new(l), Box::new(r)), q),
        ),
{
    let bin = Tree::BinOp(op, Box::new(l), Box::new(r));
    lemma_term_stays(ts, m + 1, r, q);
    lemma_add_stays(ts, m + 1, r, q);
    lemma_term_stays(ts, p, l, m);
    lemma_add_stays(ts, p, l, m);
    lemma_relational_step(ts, p, op, l, m, r, q);
    lemma_lift_from_relational(ts, p, bin, q);
}

#[verifier::spinoff_prover]
#[verifier::rlimit(40)]
proof fn lemma_paren_equality(ts: Seq<Token>, p: int, op: Op, l: Tree, m: int, r: Tree, q: int)
    requires
        binop_layout(ts, p, l, m, r, q),
        op == Op::Eq || op == Op::NotEq,
        ts[m] == op_token(op),
    ensures
        parse_expr(ts, p) == Ok::<(Tree, int), ParseError>(
            (Tree::BinOp(op, Box::new(l), Box::new(r)), q),
        ),
{
    let bin = Tree::BinOp(op, Box::new(l), Box::new(r));
    lemma_term_stays(ts, m + 1, r, q);
    lemma_add_stays(ts, m + 1, r, q);
    lemma_relational_stays(ts, m + 1, r, q);
    lemma_term_stays(ts, p, l, m);
    lemma_add_stays(ts, p, l, m);
    lemma_relational_stays(ts, p, l, m);
    lemma_equality_step(ts, p, op, l, m, r, q);
    lemma_lift_from_equality(ts, p, bin, q);
}

#[verifier::spinoff_prover]
#[verifier::rlimit(40)]
proof fn lemma_paren_assign(ts: Seq<Token>, p: int, l: Tree, m: int, r: Tree, q: int)
    requires
        binop_layout(ts, p, l, m, r, q),
        ts[m] == Token::Assign,
    ensures
        parse_expr(ts, p) == Ok::<(Tree, int), ParseError>(
            (Tree::Assign(Box::new(l), Box::new(r)), q),
        ),
{
    lemma_lift_from_unary(ts, m + 1, r, q);
    assert(multiplicative_op(ts, m) is None);
    assert(additive_op(ts, m) is None);
    assert(relational_op(ts, m) is None);
    assert(equality_op(ts, m) is None);
    assert(term_rest(ts, m, l) == Ok::<(Tree, int), ParseError>((l, m)));
    assert(parse_term(ts, p) == Ok::<(Tree, int), ParseError>((l, m)));
    assert(add_rest(ts, m, l) == Ok::<(Tree, int), ParseError>((l, m)));
    assert(parse_add(ts, p) == Ok::<(Tree, int), ParseError>((l, m)));
    assert(relational_rest(ts, m, l) == Ok::<(Tree, int), ParseError>((l, m)));
    assert(parse_relational(ts, p) == Ok::<(Tree, int), ParseError>((l, m)));
    assert(equality_rest(ts, m, l) == Ok::<(Tree, int), ParseError>((l, m)));
    assert(parse_equality(ts, p) == Ok::<(Tree, int), ParseError>((l, m)));
    assert(parse_assign(ts, m + 1) == Ok::<(Tree, int), ParseError>((r, q)));
}

/// Round trip of the grammar: a tree written with every operation in parentheses is read
/// back, as an expression, as exactly that tree, consuming all of its tokens.
pub proof fn lemma_paren_round_trip(t: Tree)
    requires
        printable(t),
    ensures
        parse_expr(paren_tokens(t), 0) == Ok::<(Tree, int), ParseError>(
            (t, paren_tokens(t).len() as int),
        ),
{
    let ts = paren_tokens(t);
    assert(ts.subrange(0, ts.len() as int) =~= ts);
    lemma_paren_primary(ts, 0, t);
    lemma_lift_from_unary(ts, 0, t, ts.len() as int);
}

} // verus!

verus! {

/// The tokens of a program whose statements are written fully parenthesized, each followed
/// by `;`.
pub open spec fn program_tokens(trees: Seq<Tree>) -> Seq<Token>
    decreases trees.len(),
{
    if trees.len() == 0 {
        Seq::empty()
    } else {
        paren_tokens(trees[0]) + seq![Token::Semicolon] + program_tokens(trees.drop_first())
    }
}

proof fn lemma_statement_of_paren(ts: Seq<Token>, p: int, t: Tree)
    requires
        printable(t),
        0 <= p,
        p + paren_tokens(t).len() < ts.len(),
        ts.subrange(p, p + paren_tokens(t).len()) == paren_tokens(t),
        ts[p + paren_tokens(t).len()] == Token::Semicolon,
    ensures
        parse_statement(ts, p) == Ok::<(Tree, int), ParseError>(
            (t, p + paren_tokens(t).len() + 1),
        ),
{
    let n = paren_tokens(t).len() as int;
    lemma_paren_tokens_nonempty(t);
    lemma_paren_primary(ts, p, t);
    lemma_lift_from_unary(ts, p, t, p + n);
}

proof fn lemma_program_split(ts: Seq<Token>, p: int, pt: Seq<Token>, rt: Seq<Token>)
    requires
        0 <= p <= ts.len(),
        ts.subrange(p, ts.len() as int) == pt + seq![Token::Semicolon] + rt,
    ensures
        p + pt.len() < ts.len(),
        ts.subrange(p, p + pt.len()) == pt,
        ts[p + pt.len()] == Token::Semicolon,
        ts.subrange(p + pt.len() + 1, ts.len() as int) == rt,
{
    let tail = ts.subrange(p, ts.len() as int);
    let n = pt.len() as int;
    assert(tail.len() == n + 1 + rt.len());
    assert(ts.subrange(p, p + n) =~= pt) by {
        assert forall|k: int| 0 <= k < n implies ts.subrange(p, p + n)[k] == pt[k] by {
            assert(tail[k] == ts[p + k]);
        }
    }
    assert(tail[n] == ts[p + n]);
    assert(ts.subrange(p + n + 1, ts.len() as int) =~= rt) by {
        assert forall|k: int| 0 <= k < rt.len() implies ts.subrange(p + n + 1, ts.len() as int)[k]
            == rt[k] by {
            assert(tail[n + 1 + k] == ts[p + n + 1 + k]);
        }
    }
}

proof fn lemma_program_from(ts: Seq<Token>, p: int, trees: Seq<Tree>)
    requires
        forall|i: int| 0 <= i < trees.len() ==> printable(#[trigger] trees[i]),
        0 <= p <= ts.len(),
        ts.subrange(p, ts.len() as int) == program_tokens(trees),
    ensures
        parse_program(ts, p) == Ok::<Seq<Tree>, ParseError>(trees),
    decreases trees.len(),
{
    if trees.len() == 0 {
        assert(ts.subrange(p, ts.len() as int).len() == 0);
        assert(trees =~= Seq::<Tree>::empty());
    } else {
        let t = trees[0];
        let n = paren_tokens(t).len() as int;
        let rest = trees.drop_first();
        lemma_program_split(ts, p, paren_tokens(t), program_tokens(rest));
        lemma_statement_of_paren(ts, p, t);
        assert forall|i: int| 0 <= i < rest.len() implies printable(#[trigger] rest[i]) by {
            assert(rest[i] == trees[i + 1]);
        }
        lemma_program_from(ts, p + n + 1, rest);
        assert(seq![t] + rest =~= trees);
    }
}

/// Round trip of programs: statements written fully parenthesized, each followed by `;`,
/// are read back as exactly those statements.
pub proof fn lemma_program_round_trip(trees: Seq<Tree>)
    requires
        forall|i: int| 0 <= i < trees.len() ==> printable(#[trigger] trees[i]),
    ensures
        parse_program(program_tokens(trees), 0) == Ok::<Seq<Tree>, ParseError>(trees),
{
    let ts = program_tokens(trees);
    assert(ts.subrange(0, ts.len() as int) =~= ts);
    lemma_program_from(ts, 0, trees);
}

} // verus!

verus! {

proof fn lemma_term_rest_stops(ts: Seq<Token>, q: int, acc: Tree)
    requires
        0 <= q <= ts.len(),
    ensures
        term_rest(ts, q, acc) matches Ok((_, r)) ==> multiplicative_op(ts, r) is None,
    decreases ts.len() - q,
{
    if let Some(op) = multiplicative_op(ts, q) {
        if let Ok((rhs, r)) = parse_unary(ts, q + 1) {
            if advances(ts, q, r) {
                lemma_term_rest_stops(ts, r, Tree::BinOp(op, Box::new(acc), Box::new(rhs)));
            }
        }
    }
}

proof fn lemma_term_stops(ts: Seq<Token>, p: int)
    requires
        0 <= p,
    ensures
        parse_term(ts, p) matches Ok((_, q)) ==> multiplicative_op(ts, q) is None,
{
    if let Ok((t, q)) = parse_unary(ts, p) {
        if advances(ts, p, q) {
            lemma_term_rest_stops(ts, q, t);
        }
    }
}

proof fn lemma_add_rest_stops(ts: Seq<Token>, q: int, acc: Tree)
    requires
        0 <= q <= ts.len(),
        multiplicative_op(ts, q) is None,
    ensures
        add_rest(ts, q, acc) matches Ok((_, r)) ==> additive_op(ts, r) is None
            && multiplicative_op(ts, r) is None,
    decreases ts.len() - q,
{
    if let Some(op) = additive_op(ts, q) {
        lemma_term_stops(ts, q + 1);
        if let Ok((rhs, r)) = parse_term(ts, q + 1) {
            if advances(ts, q, r) {
                lemma_add_rest_stops(ts, r, Tree::BinOp(op, Box::new(acc), Box::new(rhs)));
            }
        }
    }
}

proof fn lemma_add_stops(ts: Seq<Token>, p: int)
    requires
        0 <= p,
    ensures
        parse_add(ts, p) matches Ok((_, q)) ==> additive_op(ts, q) is None
            && multiplicative_op(ts, q) is None,
{
    lemma_term_stops(ts, p);
    if let Ok((t, q)) = parse_term(ts, p) {
        if advances(ts, p, q) {
            lemma_add_rest_stops(ts, q, t);
        }
    }
}

proof fn lemma_relational_rest_stops(ts: Seq<Token>, q: int, acc: Tree)
    requires
        0 <= q <= ts.len(),
        additive_op(ts, q) is None,
        multiplicative_op(ts, q) is None,
    ensures
        relational_rest(ts, q, acc) matches Ok((_, r)) ==> relational_op(ts, r) is None
            && additive_op(ts, r) is None && multiplicative_op(ts, r) is None,
    decreases ts.len() - q,
{
    if let Some(op) = relational_op(ts, q) {
        lemma_add_stops(ts, q + 1);
        if let Ok((rhs, r)) = parse_add(ts, q + 1) {
            if advances(ts, q, r) {
                lemma_relational_rest_stops(ts, r, Tree::BinOp(op, Box::new(acc), Box::new(rhs)));
            }
        }
    }
}

proof fn lemma_relational_stops(ts: Seq<Token>, p: int)
    requires
        0 <= p,
    ensures
        parse_relational(ts, p) matches Ok((_, q)) ==> relational_op(ts, q) is None
            && additive_op(ts, q) is None && multiplicative_op(ts, q) is None,
{
    lemma_add_stops(ts, p);
    if let Ok((t, q)) = parse_add(ts, p) {
        if advances(ts, p, q) {
            lemma_relational_rest_stops(ts, q, t);
        }
    }
}

proof fn lemma_equality_rest_stops(ts: Seq<Token>, q: int, acc: Tree)
    requires
        0 <= q <= ts.len(),
        relational_op(ts, q) is None,
        additive_op(ts, q) is None,
        multiplicative_op(ts, q) is None,
    ensures
        equality_rest(ts, q, acc) matches Ok((_, r)) ==> equality_op(ts, r) is None
            && relational_op(ts, r) is None && additive_op(ts, r) is None
            && multiplicative_op(ts, r) is None,
    decreases ts.len() - q,
{
    if let Some(op) = equality_op(ts, q) {
        lemma_relational_stops(ts, q + 1);
        if let Ok((rhs, r)) = parse_relational(ts, q + 1) {
            if advances(ts, q, r) {
                lemma_equality_rest_stops(ts, r, Tree::BinOp(op, Box::new(acc), Box::new(rhs)));
            }
        }
    }
}

proof fn lemma_equality_stops(ts: Seq<Token>, p: int)
    requires
        0 <= p,
    ensures
        parse_equality(ts, p) matches Ok((_, q)) ==> equality_op(ts, q) is None
            && relational_op(ts, q) is None && additive_op(ts, q) is None
            && multiplicative_op(ts, q) is None,
{
    lemma_relational_stops(ts, p);
    if let Ok((t, q)) = parse_relational(ts, p) {
        if advances(ts, p, q) {
            lemma_equality_rest_stops(ts, q, t);
        }
    }
}

proof fn lemma_assign_stops(ts: Seq<Token>, p: int)
    requires
        0 <= p,
    ensures
        parse_assign(ts, p) matches Ok((_, q)) ==> stops_at(ts, q),
    decreases ts.len() - p,
{
    lemma_equality_stops(ts, p);
    if let Ok((_, q)) = parse_equality(ts, p) {
        if token_at(ts, q, Token::Assign) && advances(ts, p, q) {
            lemma_assign_stops(ts, q + 1);
        }
    }
}

/// Longest match: an expression read from position `p` takes at least one token, and
/// stops only where no operator and no `=` follows, so nothing after it could have
/// continued it.
pub proof fn lemma_expr_longest(ts: Seq<Token>, p: int)
    requires
        0 <= p,
    ensures
        parse_expr(ts, p) matches Ok((_, q)) ==> advances(ts, p, q) && stops_at(ts, q),
{
    lemma_expr_advances(ts, p);
    lemma_assign_stops(ts, p);
}

} // verus!

verus! {

/// Tokens from `p` on that are not empty and hold no `;` form no program: the first
/// statement finds no `;` after its expression, or its expression does not parse.
pub proof fn lemma_program_needs_semicolon(ts: Seq<Token>, p: int)
    requires
        0 <= p < ts.len(),
        forall|k: int| p <= k < ts.len() ==> !(#[trigger] ts[k] is Semicolon),
    ensures
        parse_program(ts, p) is Err,
{
    lemma_expr_advances(ts, p);
    if let Ok((t, q)) = parse_expr(ts, p) {
        if 0 <= q < ts.len() {
            assert(!(ts[q] is Semicolon));
        }
    }
}

/// The tokens of a text that is not blank never form a program: scanning produces no `;`,
/// so parsing them always fails.
pub proof fn lemma_tokenized_text_is_no_program(cs: Seq<char>, ts: Seq<Token>)
    requires
        spec_tokenize(cs) == Ok::<Seq<Token>, TokenizeError>(ts),
        ts.len() > 0,
    ensures
        parse_program(ts, 0) is Err,
{
    lemma_tokenize_scannable(cs);
    assert forall|k: int| 0 <= k < ts.len() implies !(#[trigger] ts[k] is Semicolon) by {
        assert(scannable(ts[k]));
    }
    lemma_program_needs_semicolon(ts, 0);
}

} // verus!

verus! {

/// How tightly a binary operator binds: equality 1, comparison 2, `+ -` 3, `* /` 4.
pub open spec fn op_level(op: Op) -> int {
    match op {
        Op::Eq | Op::NotEq => 1,
        Op::GreaterThan | Op::LessThan | Op::GreaterThanOrEq | Op::LessThanOrEq => 2,
        Op::Add | Op::Sub => 3,
        Op::Mul | Op::Div => 4,
    }
}

/// How tightly the top of a tree binds: an assignment 0, an operation its operator's
/// level, a number or a name 6.
pub open spec fn tree_level(t: Tree) -> int {
    match t {
        Tree::BinOp(op, _, _) => op_level(op),
        Tree::Assign(_, _) => 0,
        _ => 6,
    }
}

/// The level of an operator token (`=` 0, then as `op_level`), or 9 for any other token.
pub open spec fn token_level(t: Token) -> int {
    match t {
        Token::Assign => 0,
        Token::Eq | Token::NotEq => 1,
        Token::GreaterThan | Token::LessThan | Token::GreaterThanOrEq | Token::LessThanOrEq => 2,
        Token::Plus | Token::Minus => 3,
        Token::Asterisk | Token::Slash => 4,
        _ => 9,
    }
}

/// The tokens of `t` with as few parentheses as possible: an operand is put in parentheses
/// only where it binds less tightly than its place asks, which, for operators of one level,
/// is on the right, since they group from the left; `=` groups from the right.
pub open spec fn min_tokens(t: Tree) -> Seq<Token>
    decreases t, 0int,
{
    match t {
        Tree::Integer(n) => seq![Token::Num(n as usize)],
        Tree::Var(s) => seq![Token::Ident(s)],
        Tree::BinOp(op, l, r) => operand_tokens(*l, op_level(op)) + seq![op_token(op)]
            + operand_tokens(*r, op_level(op) + 1),
        Tree::Assign(l, r) => operand_tokens(*l, 1) + seq![Token::Assign] + operand_tokens(*r, 0),
    }
}

/// The tokens of `t` where a phrase of level `k` or tighter must stand.
pub open spec fn operand_tokens(t: Tree, k: int) -> Seq<Token>
    decreases t, 1int,
{
    if tree_level(t) >= k {
        min_tokens(t)
    } else {
        seq![Token::LParen] + min_tokens(t) + seq![Token::RParen]
    }
}

/// The grammar's phrase of level `k`: 0 assignment, 1 equality, 2 comparison, 3 sum,
/// 4 product, 5 signed operand.
pub open spec fn parse_level(k: int, ts: Seq<Token>, p: int) -> Parsed {
    if k <= 0 {
        parse_assign(ts, p)
    } else if k == 1 {
        parse_equality(ts, p)
    } else if k == 2 {
        parse_relational(ts, p)
    } else if k == 3 {
        parse_add(ts, p)
    } else if k == 4 {
        parse_term(ts, p)
    } else {
        parse_unary(ts, p)
    }
}

/// The left-associative tail of level `j` (1 to 4).
pub open spec fn rest_level(j: int, ts: Seq<Token>, q: int, acc: Tree) -> Parsed {
    if j == 1 {
        equality_rest(ts, q, acc)
    } else if j == 2 {
        relational_rest(ts, q, acc)
    } else if j == 3 {
        add_rest(ts, q, acc)
    } else {
        term_rest(ts, q, acc)
    }
}

/// No operator of level `k` or tighter stands at `q`, so a phrase of level `k` ends there.
pub open spec fn ends_level(ts: Seq<Token>, q: int, k: int) -> bool {
    !(0 <= q < ts.len()) || token_level(ts[q]) < k || token_level(ts[q]) > 4
}

proof fn lemma_split2(ts: Seq<Token>, p: int, a: Seq<Token>, b: Seq<Token>)
    requires
        0 <= p,
        p + a.len() + b.len() <= ts.len(),
        ts.subrange(p, p + a.len() + b.len()) == a + b,
    ensures
        ts.subrange(p, p + a.len()) == a,
        ts.subrange(p + a.len(), p + a.len() + b.len()) == b,
{
    let w = ts.subrange(p, p + a.len() + b.len());
    assert forall|i: int| 0 <= i < a.len() implies ts.subrange(p, p + a.len())[i] == a[i] by {
        assert(w[i] == (a + b)[i]);
    }
    assert forall|i: int| 0 <= i < b.len() implies ts.subrange(
        p + a.len(),
        p + a.len() + b.len(),
    )[i] == b[i] by {
        assert(w[a.len() + i] == (a + b)[a.len() + i]);
    }
    assert(ts.subrange(p, p + a.len()) =~= a);
    assert(ts.subrange(p + a.len(), p + a.len() + b.len()) =~= b);
}

/// `a`, then the token `x`, then `b`, written at `p`.
proof fn lemma_split3(ts: Seq<Token>, p: int, a: Seq<Token>, x: Token, b: Seq<Token>)
    requires
        0 <= p,
        p + a.len() + 1 + b.len() <= ts.len(),
        ts.subrange(p, p + a.len() + 1 + b.len()) == a + seq![x] + b,
    ensures
        ts.subrange(p, p + a.len()) == a,
        ts[p + a.len()] == x,
        ts.subrange(p + a.len() + 1, p + a.len() + 1 + b.len()) == b,
{
    lemma_split2(ts, p, a + seq![x], b);
    lemma_split2(ts, p, a, seq![x]);
    assert(ts.subrange(p + a.len(), p + a.len() + 1)[0] == ts[p + a.len()]);
}

proof fn lemma_min_tokens_nonempty(t: Tree, k: int)
    ensures
        min_tokens(t).len() >= 1,
        operand_tokens(t, k).len() >= 1,
{
}

/// One level of the grammar reads its first operand from the next level, then its tail.
proof fn lemma_level_unfold(j: int, ts: Seq<Token>, p: int)
    requires
        1 <= j <= 4,
    ensures
        parse_level(j, ts, p) == match parse_level(j + 1, ts, p) {
            Err(e) => Err(e),
            Ok((t, q)) => if advances(ts, p, q) {
                rest_level(j, ts, q, t)
            } else {
                Err(ParseError::UnexpectedToken)
            },
        },
{
}

/// A tail of level `j` with no operator of that level ahead is empty.
proof fn lemma_rest_done(j: int, ts: Seq<Token>, q: int, acc: Tree)
    requires
        1 <= j <= 4,
        !(0 <= q < ts.len() && token_level(ts[q]) == j),
    ensures
        rest_level(j, ts, q, acc) == Ok::<(Tree, int), ParseError>((acc, q)),
{
}

/// A tail of level `j` that starts with an operator of that level takes the operand after
/// it and goes on from there.
proof fn lemma_rest_step(
    j: int,
    ts: Seq<Token>,
    m: int,
    op: Op,
    acc: Tree,
    r: Tree,
    e: int,
)
    requires
        1 <= j <= 4,
        0 <= m < ts.len(),
        ts[m] == op_token(op),
        op_level(op) == j,
        parse_level(j + 1, ts, m + 1) == Ok::<(Tree, int), ParseError>((r, e)),
        advances(ts, m, e),
    ensures
        rest_level(j, ts, m, acc) == rest_level(j, ts, e, Tree::BinOp(op, Box::new(acc), Box::new(r))),
{
}

/// A signed operand that ends where level `k` ends is a phrase of level `k`.
proof fn lemma_lift_level(ts: Seq<Token>, p: int, t: Tree, e: int, k: int)
    requires
        0 <= k <= 5,
        parse_unary(ts, p) == Ok::<(Tree, int), ParseError>((t, e)),
        advances(ts, p, e),
        ends_level(ts, e, k),
    ensures
        parse_level(k, ts, p) == Ok::<(Tree, int), ParseError>((t, e)),
    decreases 5 - k,
{
    if k < 5 {
        lemma_lift_level(ts, p, t, e, k + 1);
        if k >= 1 {
            lemma_level_unfold(k, ts, p);
            lemma_rest_done(k, ts, e, t);
        } else {
            assert(parse_equality(ts, p) == Ok::<(Tree, int), ParseError>((t, e)));
            assert(!token_at(ts, e, Token::Assign));
        }
    }
}

/// A parenthesized expression is a phrase of every level that ends after it.
proof fn lemma_paren_level(ts: Seq<Token>, p: int, t: Tree, n: int, k: int)
    requires
        1 <= k <= 5,
        0 <= p,
        n >= 1,
        p + n + 2 <= ts.len(),
        ts[p] == Token::LParen,
        ts[p + 1 + n] == Token::RParen,
        parse_assign(ts, p + 1) == Ok::<(Tree, int), ParseError>((t, p + 1 + n)),
        ends_level(ts, p + n + 2, k),
    ensures
        parse_level(k, ts, p) == Ok::<(Tree, int), ParseError>((t, p + n + 2)),
{
    assert(parse_expr(ts, p + 1) == Ok::<(Tree, int), ParseError>((t, p + 1 + n)));
    assert(parse_primary(ts, p) == Ok::<(Tree, int), ParseError>((t, p + n + 2)));
    assert(parse_unary(ts, p) == Ok::<(Tree, int), ParseError>((t, p + n + 2)));
    lemma_lift_level(ts, p, t, p + n + 2, k);
}

/// An equality that no `=` follows is an assignment phrase.
proof fn lemma_assign_of_equality(ts: Seq<Token>, p: int, t: Tree, e: int)
    requires
        parse_equality(ts, p) == Ok::<(Tree, int), ParseError>((t, e)),
        ends_level(ts, e, 0),
    ensures
        parse_assign(ts, p) == Ok::<(Tree, int), ParseError>((t, e)),
{
    assert(!token_at(ts, e, Token::Assign));
}

/// An equality, `=`, and an assignment read as an assignment.
proof fn lemma_assign_of_parts(ts: Seq<Token>, p: int, l: Tree, m: int, r: Tree, e: int)
    requires
        p < m,
        0 <= m < ts.len(),
        ts[m] == Token::Assign,
        parse_equality(ts, p) == Ok::<(Tree, int), ParseError>((l, m)),
        parse_assign(ts, m + 1) == Ok::<(Tree, int), ParseError>((r, e)),
    ensures
        parse_assign(ts, p) == Ok::<(Tree, int), ParseError>(
            (Tree::Assign(Box::new(l), Box::new(r)), e),
        ),
{
    assert(token_at(ts, m, Token::Assign));
}

/// Reading back `operand_tokens(t, k)` written at `p` as a phrase of level `k` gives `t`,
/// when what follows ends that level.
#[verifier::spinoff_prover]
#[verifier::rlimit(40)]
proof fn lemma_min_parse(ts: Seq<Token>, p: int, t: Tree, k: int)
    requires
        printable(t),
        0 <= k <= 5,
        0 <= p,
        p + operand_tokens(t, k).len() <= ts.len(),
        ts.subrange(p, p + operand_tokens(t, k).len()) == operand_tokens(t, k),
        ends_level(ts, p + operand_tokens(t, k).len(), k),
    ensures
        parse_level(k, ts, p) == Ok::<(Tree, int), ParseError>(
            (t, p + operand_tokens(t, k).len()),
        ),
    decreases t, if tree_level(t) < k {
        30int
    } else {
        20 - 2 * k
    },
{
    let n = min_tokens(t).len() as int;
    lemma_min_tokens_nonempty(t, k);
    if tree_level(t) < k {
        assert(operand_tokens(t, k) == seq![Token::LParen] + min_tokens(t) + seq![Token::RParen]);
        lemma_split3(ts, p, seq![Token::LParen] + min_tokens(t), Token::RParen, Seq::empty());
        lemma_split2(ts, p, seq![Token::LParen], min_tokens(t));
        assert(ts[p] == ts.subrange(p, p + 1)[0]);
        assert(operand_tokens(t, 0) == min_tokens(t));
        lemma_min_parse(ts, p + 1, t, 0);
        lemma_paren_level(ts, p, t, n, k);
    } else if k == 5 {
        assert(paren_tokens(t) == min_tokens(t));
        lemma_paren_atom(ts, p, t);
    } else if k >= 1 {
        assert(operand_tokens(t, k) == min_tokens(t));
        lemma_min_chain(ts, p, t, k);
        lemma_rest_done(k, ts, p + n, t);
    } else if tree_level(t) >= 1 {
        assert(operand_tokens(t, 1) == min_tokens(t));
        assert(operand_tokens(t, 0) == min_tokens(t));
        lemma_min_parse(ts, p, t, 1);
        lemma_assign_of_equality(ts, p, t, p + n);
    } else {
        if let Tree::Assign(l, r) = t {
            let lt = operand_tokens(*l, 1);
            let rt = operand_tokens(*r, 0);
            let m = p + lt.len();
            assert(operand_tokens(t, 0) == lt + seq![Token::Assign] + rt);
            lemma_min_tokens_nonempty(*l, 1);
            lemma_min_tokens_nonempty(*r, 0);
            lemma_split3(ts, p, lt, Token::Assign, rt);
            lemma_min_parse(ts, p, *l, 1);
            lemma_min_parse(ts, m + 1, *r, 0);
            lemma_assign_of_parts(ts, p, *l, m, *r, p + n);
        }
    }
}

/// Reading back `min_tokens(t)`, for `t` of level `j` or tighter, as a phrase of level `j`
/// leaves the tail of that level after `t`, when no tighter operator follows.
proof fn lemma_min_chain(ts: Seq<Token>, p: int, t: Tree, j: int)
    requires
        printable(t),
        1 <= j <= 4,
        tree_level(t) >= j,
        0 <= p,
        p + min_tokens(t).len() <= ts.len(),
        ts.subrange(p, p + min_tokens(t).len()) == min_tokens(t),
        ends_level(ts, p + min_tokens(t).len(), j + 1),
    ensures
        parse_level(j, ts, p) == rest_level(j, ts, p + min_tokens(t).len(), t),
    decreases t, 19 - 2 * j,
{
    let n = min_tokens(t).len() as int;
    lemma_min_tokens_nonempty(t, j);
    lemma_level_unfold(j, ts, p);
    if tree_level(t) > j {
        assert(operand_tokens(t, j + 1) == min_tokens(t));
        lemma_min_parse(ts, p, t, j + 1);
    } else {
        if let Tree::BinOp(op, l, r) = t {
            let lt = operand_tokens(*l, j);
            let rt = operand_tokens(*r, j + 1);
            let m = p + lt.len();
            let e = p + n;
            lemma_min_tokens_nonempty(*l, j);
            lemma_min_tokens_nonempty(*r, j + 1);
            lemma_split3(ts, p, lt, op_token(op), rt);
            if tree_level(*l) >= j {
                assert(lt == min_tokens(*l));
                lemma_min_chain(ts, p, *l, j);
            } else {
                assert(lt == operand_tokens(*l, j + 1));
                lemma_min_parse(ts, p, *l, j + 1);
            }
            lemma_min_parse(ts, m + 1, *r, j + 1);
            lemma_rest_step(j, ts, m, op, *l, *r, e);
        }
    }
}

/// Round trip with the fewest parentheses: the tokens of a tree written with parentheses
/// only where precedence and grouping from the left (from the right for `=`) demand them
/// read back as exactly that tree, and all of them are read. So `a * b / c` reads as
/// `(a * b) / c`, `a > b > c` as `(a > b) > c`, and `a = b = c` as `a = (b = c)`.
pub proof fn lemma_min_tokens_round_trip(t: Tree)
    requires
        printable(t),
    ensures
        parse_expr(min_tokens(t), 0) == Ok::<(Tree, int), ParseError>(
            (t, min_tokens(t).len() as int),
        ),
{
    let ts = min_tokens(t);
    assert(operand_tokens(t, 0) == ts);
    assert(ts.subrange(0, ts.len() as int) =~= ts);
    lemma_min_parse(ts, 0, t, 0);
}

proof fn lemma_operand_is_min(t: Tree, k: int)
    requires
        tree_level(t) >= k,
    ensures
        operand_tokens(t, k) == min_tokens(t),
{
}

proof fn lemma_min_binop(op: Op, l: Tree, r: Tree)
    ensures
        min_tokens(Tree::BinOp(op, Box::new(l), Box::new(r))) == operand_tokens(l, op_level(op))
            + seq![op_token(op)] + operand_tokens(r, op_level(op) + 1),
        tree_level(Tree::BinOp(op, Box::new(l), Box::new(r))) == op_level(op),
{
}

/// The tokens of `(a o1 b) o2 c`, for operands that bind more tightly than the operators,
/// need no parentheses.
proof fn lemma_left_chain_tokens(a: Tree, o1: Op, b: Tree, o2: Op, c: Tree)
    requires
        op_level(o1) == op_level(o2),
        tree_level(a) > op_level(o1),
        tree_level(b) > op_level(o1),
        tree_level(c) > op_level(o1),
    ensures
        min_tokens(
            Tree::BinOp(o2, Box::new(Tree::BinOp(o1, Box::new(a), Box::new(b))), Box::new(c)),
        ) == min_tokens(a) + seq![op_token(o1)] + min_tokens(b) + seq![op_token(o2)]
            + min_tokens(c),
{
    let lv = op_level(o1);
    let inner = Tree::BinOp(o1, Box::new(a), Box::new(b));
    lemma_operand_is_min(a, lv);
    lemma_operand_is_min(b, lv + 1);
    lemma_operand_is_min(c, lv + 1);
    lemma_min_binop(o1, a, b);
    lemma_operand_is_min(inner, lv);
    lemma_min_binop(o2, inner, c);
}

/// Operators of one level group from the left: for operands `a`, `b`, `c` that bind more
/// tightly than two operators `o1`, `o2` of one level, `a o1 b o2 c` reads as
/// `(a o1 b) o2 c`.
#[verifier::spinoff_prover]
pub proof fn lemma_left_associative(a: Tree, o1: Op, b: Tree, o2: Op, c: Tree)
    requires
        printable(a),
        printable(b),
        printable(c),
        op_level(o1) == op_level(o2),
        tree_level(a) > op_level(o1),
        tree_level(b) > op_level(o1),
        tree_level(c) > op_level(o1),
    ensures
        parse_expr(
            min_tokens(a) + seq![op_token(o1)] + min_tokens(b) + seq![op_token(o2)] + min_tokens(c),
            0,
        ) == Ok::<(Tree, int), ParseError>(
            (
                Tree::BinOp(o2, Box::new(Tree::BinOp(o1, Box::new(a), Box::new(b))), Box::new(c)),
                (min_tokens(a) + seq![op_token(o1)] + min_tokens(b) + seq![op_token(o2)]
                    + min_tokens(c)).len() as int,
            ),
        ),
{
    let t = Tree::BinOp(o2, Box::new(Tree::BinOp(o1, Box::new(a), Box::new(b))), Box::new(c));
    let ts = min_tokens(a) + seq![op_token(o1)] + min_tokens(b) + seq![op_token(o2)] + min_tokens(
        c,
    );
    assert(printable(Tree::BinOp(o1, Box::new(a), Box::new(b))));
    assert(printable(t));
    lemma_left_chain_tokens(a, o1, b, o2, c);
    lemma_min_tokens_round_trip(t);
    lemma_same_tokens_same_parse(min_tokens(t), ts, (t, ts.len() as int));
}

proof fn lemma_same_tokens_same_parse(x: Seq<Token>, y: Seq<Token>, r: (Tree, int))
    requires
        x == y,
        parse_expr(x, 0) == Ok::<(Tree, int), ParseError>(r),
    ensures
        parse_expr(y, 0) == Ok::<(Tree, int), ParseError>(r),
{
}

/// The tokens of a tree never start with a sign.
proof fn lemma_operand_starts_unsigned(t: Tree, k: int)
    ensures
        operand_tokens(t, k).len() >= 1,
        !(operand_tokens(t, k)[0] is Plus),
        !(operand_tokens(t, k)[0] is Minus),
        !(min_tokens(t)[0] is Plus),
        !(min_tokens(t)[0] is Minus),
    decreases t,
{
    lemma_min_tokens_nonempty(t, k);
    match t {
        Tree::BinOp(op, l, r) => {
            lemma_operand_starts_unsigned(*l, op_level(op));
        },
        Tree::Assign(l, r) => {
            lemma_operand_starts_unsigned(*l, 1);
        },
        _ => {},
    }
}

/// A sign in front of an operand: `- x` reads as `0 - x` and `+ x` as `x`, where `x` is
/// any tree written as an operand (in parentheses unless it is a number or a name).
pub proof fn lemma_signed_operand(t: Tree)
    requires
        printable(t),
    ensures
        parse_expr(seq![Token::Minus] + operand_tokens(t, 5), 0) == Ok::<(Tree, int), ParseError>(
            (
                Tree::BinOp(Op::Sub, Box::new(Tree::Integer(0)), Box::new(t)),
                (operand_tokens(t, 5).len() + 1) as int,
            ),
        ),
        parse_expr(seq![Token::Plus] + operand_tokens(t, 5), 0) == Ok::<(Tree, int), ParseError>(
            (t, (operand_tokens(t, 5).len() + 1) as int),
        ),
{
    lemma_signed_one(Token::Minus, t);
    lemma_signed_one(Token::Plus, t);
}

/// An operand written at the end of the tokens reads as a primary expression.
#[verifier::spinoff_prover]
proof fn lemma_operand_primary(ts: Seq<Token>, p: int, t: Tree)
    requires
        printable(t),
        0 <= p,
        p + operand_tokens(t, 5).len() == ts.len(),
        ts.subrange(p, ts.len() as int) == operand_tokens(t, 5),
    ensures
        parse_primary(ts, p) == Ok::<(Tree, int), ParseError>((t, ts.len() as int)),
        advances(ts, p, ts.len() as int),
{
    lemma_operand_starts_unsigned(t, 5);
    lemma_min_parse(ts, p, t, 5);
    assert(ts[p] == ts.subrange(p, ts.len() as int)[0]);
}

#[verifier::spinoff_prover]
proof fn lemma_signed_one(sign: Token, t: Tree)
    requires
        printable(t),
        sign == Token::Minus || sign == Token::Plus,
    ensures
        parse_expr(seq![sign] + operand_tokens(t, 5), 0) == Ok::<(Tree, int), ParseError>(
            (
                if sign is Minus {
                    Tree::BinOp(Op::Sub, Box::new(Tree::Integer(0)), Box::new(t))
                } else {
                    t
                },
                (operand_tokens(t, 5).len() + 1) as int,
            ),
        ),
{
    let ot = operand_tokens(t, 5);
    let ts = seq![sign] + ot;
    let e = ts.len() as int;
    assert(ts.subrange(1, e) =~= ot);
    lemma_operand_primary(ts, 1, t);
    let v = if sign is Minus {
        Tree::BinOp(Op::Sub, Box::new(Tree::Integer(0)), Box::new(t))
    } else {
        t
    };
    assert(ts[0] == sign);
    assert(parse_unary(ts, 0) == Ok::<(Tree, int), ParseError>((v, e)));
    lemma_lift_level(ts, 0, v, e, 0);
}

} // verus!
