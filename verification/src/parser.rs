//! Parsing: the token sequence to an ordered statement list, with
//! precedence-climbing expression parsing. The executable parser is proved
//! equal to a sequence-level description of the grammar; that description
//! carries a fuel argument solely to make its recursion visibly bounded,
//! and is insensitive to the fuel once it yields an answer.

use vstd::prelude::*;

verus! {

use crate::lexer::Tokens;

/// An expression: a literal, or one binary operation over two owned
/// subtrees. Each node is owned exactly once, so the shape is a strict tree.
#[derive(Debug, PartialEq)]
pub enum Expr {
    Number(i64),
    Binary { left: Box<Expr>, op: BinaryOp, right: Box<Expr> },
}

/// The four binary operators of the language.
#[derive(Debug, Clone, Copy, PartialEq, Eq)]
pub enum BinaryOp {
    Plus,
    Minus,
    Mul,
    Div,
}

/// A statement: return an expression's value, or bind a fresh stack slot.
#[derive(Debug, PartialEq)]
pub enum Stmt {
    Return(Expr),
    VarDecl { name: String, value: Expr },
}

/// A fatal syntax fault, carrying the offending token.
#[derive(Debug, Clone, PartialEq)]
pub enum ParseError {
    /// A token at a statement boundary that starts no statement.
    ExpectedStatement(Tokens),
    /// The token after the declaration keyword names no variable.
    ExpectedIdent(Tokens),
    /// The assignment mark is missing from a declaration.
    ExpectedAssign(Tokens),
    /// The terminating mark of a statement is missing.
    ExpectedSemicolon(Tokens),
    /// A parenthesized expression is not closed.
    ExpectedRParen(Tokens),
    /// A token inside an expression that starts no primary expression.
    UnexpectedPrimary(Tokens),
}

impl Clone for Expr {
    /// A clone carries the same tree.
    fn clone(&self) -> (r: Expr)
        ensures
            r == *self,
        decreases *self,
    {
        match self {
            Expr::Number(n) => Expr::Number(*n),
            Expr::Binary { left, op, right } => Expr::Binary {
                left: Box::new((**left).clone()),
                op: *op,
                right: Box::new((**right).clone()),
            },
        }
    }
}

impl Clone for Stmt {
    /// A clone carries the same statement.
    fn clone(&self) -> (r: Stmt)
        ensures
            r == *self,
    {
        match self {
            Stmt::Return(e) => Stmt::Return(e.clone()),
            Stmt::VarDecl { name, value } => Stmt::VarDecl {
                name: name.clone(),
                value: value.clone(),
            },
        }
    }
}

/// The token at a position, or the end-of-input marker past the end.
pub open spec fn tok_at(toks: Seq<Tokens>, p: int) -> Tokens {
    if 0 <= p < toks.len() {
        toks[p]
    } else {
        Tokens::EOF
    }
}

/// The binding strength of a binary-operator token; additive operators bind
/// at 1, multiplicative ones at 2, and other tokens are no operators.
pub open spec fn prec_of(t: Tokens) -> Option<u8> {
    match t {
        Tokens::Plus => Some(1u8),
        Tokens::Minus => Some(1u8),
        Tokens::Star => Some(2u8),
        Tokens::Slash => Some(2u8),
        _ => None,
    }
}

/// The operator named by a binary-operator token.
pub open spec fn op_of(t: Tokens) -> BinaryOp {
    match t {
        Tokens::Plus => BinaryOp::Plus,
        Tokens::Minus => BinaryOp::Minus,
        Tokens::Star => BinaryOp::Mul,
        _ => BinaryOp::Div,
    }
}

/// One primary expression at `p`: a number literal, or a parenthesized
/// expression; anything else is a fault. Yields the tree and the position
/// after it.
pub open spec fn spec_parse_primary(toks: Seq<Tokens>, p: int, fuel: nat) -> Option<
    Result<(Expr, int), ParseError>,
>
    decreases fuel,
{
    if fuel == 0 {
        None
    } else {
        match tok_at(toks, p) {
            Tokens::Number(n) => Some(Ok((Expr::Number(n), p + 1))),
            Tokens::LParen => match spec_parse_expr(toks, p + 1, 0u8, (fuel - 1) as nat) {
                None => None,
                Some(Err(e)) => Some(Err(e)),
                Some(Ok((inner, q))) => match tok_at(toks, q) {
                    Tokens::RParen => Some(Ok((inner, q + 1))),
                    t => Some(Err(ParseError::ExpectedRParen(t))),
                },
            },
            t => Some(Err(ParseError::UnexpectedPrimary(t))),
        }
    }
}

/// One expression at `p`, folding in binary operators of strength at least
/// `min_prec`: a primary expression followed by the operator chain.
pub open spec fn spec_parse_expr(toks: Seq<Tokens>, p: int, min_prec: u8, fuel: nat) -> Option<
    Result<(Expr, int), ParseError>,
>
    decreases fuel,
{
    if fuel == 0 {
        None
    } else {
        match spec_parse_primary(toks, p, (fuel - 1) as nat) {
            None => None,
            Some(Err(e)) => Some(Err(e)),
            Some(Ok((left, q))) => spec_parse_more(toks, q, min_prec, left, (fuel - 1) as nat),
        }
    }
}

/// The operator chain after a parsed left operand: while the token at `p`
/// is an operator of strength at least `min_prec`, parse the right operand
/// at the next higher threshold and fold it in on the left, which makes
/// operators of equal strength group to the left.
pub open spec fn spec_parse_more(
    toks: Seq<Tokens>,
    p: int,
    min_prec: u8,
    left: Expr,
    fuel: nat,
) -> Option<Result<(Expr, int), ParseError>>
    decreases fuel,
{
    if fuel == 0 {
        None
    } else {
        match prec_of(tok_at(toks, p)) {
            None => Some(Ok((left, p))),
            Some(prec) => if prec < min_prec {
                Some(Ok((left, p)))
            } else {
                match spec_parse_expr(toks, p + 1, (prec + 1) as u8, (fuel - 1) as nat) {
                    None => None,
                    Some(Err(e)) => Some(Err(e)),
                    Some(Ok((right, q))) => spec_parse_more(
                        toks,
                        q,
                        min_prec,
                        Expr::Binary {
                            left: Box::new(left),
                            op: op_of(tok_at(toks, p)),
                            right: Box::new(right),
                        },
                        (fuel - 1) as nat,
                    ),
                }
            },
        }
    }
}

/// One statement at `p`: a return of an expression, or a declaration that
/// names a variable, takes an assignment mark and an expression; each ends
/// in the terminating mark.
pub open spec fn spec_parse_stmt(toks: Seq<Tokens>, p: int, fuel: nat) -> Option<
    Result<(Stmt, int), ParseError>,
>
    decreases fuel,
{
    if fuel == 0 {
        None
    } else {
        match tok_at(toks, p) {
            Tokens::Return => match spec_parse_expr(toks, p + 1, 0u8, (fuel - 1) as nat) {
                None => None,
                Some(Err(e)) => Some(Err(e)),
                Some(Ok((e, q))) => match tok_at(toks, q) {
                    Tokens::SemiColon => Some(Ok((Stmt::Return(e), q + 1))),
                    t => Some(Err(ParseError::ExpectedSemicolon(t))),
                },
            },
            Tokens::Var => match tok_at(toks, p + 1) {
                Tokens::Ident(name) => match tok_at(toks, p + 2) {
                    Tokens::Assign => match spec_parse_expr(toks, p + 3, 0u8, (fuel - 1) as nat) {
                        None => None,
                        Some(Err(e)) => Some(Err(e)),
                        Some(Ok((e, q))) => match tok_at(toks, q) {
                            Tokens::SemiColon => Some(
                                Ok((Stmt::VarDecl { name, value: e }, q + 1)),
                            ),
                            t => Some(Err(ParseError::ExpectedSemicolon(t))),
                        },
                    },
                    t => Some(Err(ParseError::ExpectedAssign(t))),
                },
                t => Some(Err(ParseError::ExpectedIdent(t))),
            },
            t => Some(Err(ParseError::ExpectedStatement(t))),
        }
    }
}

/// The statement list from `p`: statements in source order until the
/// end-of-input marker; an input that ends mid-statement is a fault.
pub open spec fn spec_parse_program(toks: Seq<Tokens>, p: int, fuel: nat) -> Option<
    Result<Seq<Stmt>, ParseError>,
>
    decreases fuel,
{
    if fuel == 0 {
        None
    } else if tok_at(toks, p) is EOF {
        Some(Ok(Seq::empty()))
    } else {
        match spec_parse_stmt(toks, p, (fuel - 1) as nat) {
            None => None,
            Some(Err(e)) => Some(Err(e)),
            Some(Ok((st, q))) => match spec_parse_program(toks, q, (fuel - 1) as nat) {
                None => None,
                Some(Err(e)) => Some(Err(e)),
                Some(Ok(rest)) => Some(Ok(seq![st] + rest)),
            },
        }
    }
}

/// Once the primary-expression description yields an answer, more fuel
/// leaves the answer unchanged.
pub proof fn lemma_primary_fuel(toks: Seq<Tokens>, p: int, f1: nat, f2: nat)
    requires
        f1 <= f2,
        spec_parse_primary(toks, p, f1) is Some,
    ensures
        spec_parse_primary(toks, p, f2) == spec_parse_primary(toks, p, f1),
    decreases f1,
{
    match tok_at(toks, p) {
        Tokens::LParen => {
            assert(spec_parse_expr(toks, p + 1, 0u8, (f1 - 1) as nat) is Some);
            lemma_expr_fuel(toks, p + 1, 0u8, (f1 - 1) as nat, (f2 - 1) as nat);
        },
        _ => {},
    }
}

/// Once the expression description yields an answer, more fuel leaves the
/// answer unchanged.
pub proof fn lemma_expr_fuel(toks: Seq<Tokens>, p: int, min_prec: u8, f1: nat, f2: nat)
    requires
        f1 <= f2,
        spec_parse_expr(toks, p, min_prec, f1) is Some,
    ensures
        spec_parse_expr(toks, p, min_prec, f2) == spec_parse_expr(toks, p, min_prec, f1),
    decreases f1,
{
    assert(spec_parse_primary(toks, p, (f1 - 1) as nat) is Some);
    lemma_primary_fuel(toks, p, (f1 - 1) as nat, (f2 - 1) as nat);
    match spec_parse_primary(toks, p, (f1 - 1) as nat) {
        Some(Ok((left, q))) => {
            assert(spec_parse_more(toks, q, min_prec, left, (f1 - 1) as nat) is Some);
            lemma_more_fuel(toks, q, min_prec, left, (f1 - 1) as nat, (f2 - 1) as nat);
        },
        _ => {},
    }
}

/// Once the operator-chain description yields an answer, more fuel leaves
/// the answer unchanged.
pub proof fn lemma_more_fuel(toks: Seq<Tokens>, p: int, min_prec: u8, left: Expr, f1: nat, f2: nat)
    requires
        f1 <= f2,
        spec_parse_more(toks, p, min_prec, left, f1) is Some,
    ensures
        spec_parse_more(toks, p, min_prec, left, f2) == spec_parse_more(
            toks,
            p,
            min_prec,
            left,
            f1,
        ),
    decreases f1,
{
    match prec_of(tok_at(toks, p)) {
        Some(prec) => {
            if prec >= min_prec {
                assert(spec_parse_expr(toks, p + 1, (prec + 1) as u8, (f1 - 1) as nat) is Some);
                lemma_expr_fuel(toks, p + 1, (prec + 1) as u8, (f1 - 1) as nat, (f2 - 1) as nat);
                match spec_parse_expr(toks, p + 1, (prec + 1) as u8, (f1 - 1) as nat) {
                    Some(Ok((right, q))) => {
                        let folded = Expr::Binary {
                            left: Box::new(left),
                            op: op_of(tok_at(toks, p)),
                            right: Box::new(right),
                        };
                        assert(spec_parse_more(toks, q, min_prec, folded, (f1 - 1) as nat)
                            is Some);
                        lemma_more_fuel(toks, q, min_prec, folded, (f1 - 1) as nat, (f2
                            - 1) as nat);
                    },
                    _ => {},
                }
            }
        },
        None => {},
    }
}

/// Once the statement description yields an answer, more fuel leaves the
/// answer unchanged.
pub proof fn lemma_stmt_fuel(toks: Seq<Tokens>, p: int, f1: nat, f2: nat)
    requires
        f1 <= f2,
        spec_parse_stmt(toks, p, f1) is Some,
    ensures
        spec_parse_stmt(toks, p, f2) == spec_parse_stmt(toks, p, f1),
    decreases f1,
{
    match tok_at(toks, p) {
        Tokens::Return => {
            assert(spec_parse_expr(toks, p + 1, 0u8, (f1 - 1) as nat) is Some);
            lemma_expr_fuel(toks, p + 1, 0u8, (f1 - 1) as nat, (f2 - 1) as nat);
        },
        Tokens::Var => {
            match tok_at(toks, p + 1) {
                Tokens::Ident(_) => {
                    match tok_at(toks, p + 2) {
                        Tokens::Assign => {
                            assert(spec_parse_expr(toks, p + 3, 0u8, (f1 - 1) as nat) is Some);
                            lemma_expr_fuel(toks, p + 3, 0u8, (f1 - 1) as nat, (f2 - 1) as nat);
                        },
                        _ => {},
                    }
                },
                _ => {},
            }
        },
        _ => {},
    }
}

/// The fuel on which the expression description is proved to answer when
/// started at `p`.
pub open spec fn fuel_expr(toks: Seq<Tokens>, p: int) -> nat {
    (2 * (toks.len() - p) + 2) as nat
}

/// The fuel on which the operator-chain description is proved to answer
/// when started at `p`.
pub open spec fn fuel_more(toks: Seq<Tokens>, p: int) -> nat {
    (2 * (toks.len() - p) + 1) as nat
}

/// The fuel on which the program description is proved to answer when
/// started at `p`.
pub open spec fn fuel_prog(toks: Seq<Tokens>, p: int) -> nat {
    (2 * (toks.len() - p) + 3) as nat
}

/// An expression result paired with the position the parser stopped at.
pub open spec fn expr_result_view(r: Result<Expr, ParseError>, pos: int) -> Result<
    (Expr, int),
    ParseError,
> {
    match r {
        Ok(e) => Ok((e, pos)),
        Err(pe) => Err(pe),
    }
}

/// A statement-list result as the sequence it holds.
pub open spec fn parse_result_view(r: Result<Vec<Stmt>, ParseError>) -> Result<
    Seq<Stmt>,
    ParseError,
> {
    match r {
        Ok(v) => Ok(v@),
        Err(e) => Err(e),
    }
}

/// Already-parsed statements put in front of a later result.
pub open spec fn prepend_stmts(done: Seq<Stmt>, res: Result<Seq<Stmt>, ParseError>) -> Result<
    Seq<Stmt>,
    ParseError,
> {
    match res {
        Ok(rest) => Ok(done + rest),
        Err(e) => Err(e),
    }
}

/// Once the program description yields an answer, more fuel leaves the
/// answer unchanged.
pub proof fn lemma_program_fuel(toks: Seq<Tokens>, p: int, f1: nat, f2: nat)
    requires
        f1 <= f2,
        spec_parse_program(toks, p, f1) is Some,
    ensures
        spec_parse_program(toks, p, f2) == spec_parse_program(toks, p, f1),
    decreases f1,
{
    if !(tok_at(toks, p) is EOF) {
        assert(spec_parse_stmt(toks, p, (f1 - 1) as nat) is Some);
        lemma_stmt_fuel(toks, p, (f1 - 1) as nat, (f2 - 1) as nat);
        match spec_parse_stmt(toks, p, (f1 - 1) as nat) {
            Some(Ok((st, q))) => {
                assert(spec_parse_program(toks, q, (f1 - 1) as nat) is Some);
                lemma_program_fuel(toks, q, (f1 - 1) as nat, (f2 - 1) as nat);
            },
            _ => {},
        }
    }
}

/// A cursor over an owned token sequence.
pub struct Parser {
    pub tokens: Vec<Tokens>,
    pub position: usize,
}

impl Parser {
    /// The cursor never stands past the end of the token sequence.
    pub open spec fn wf(self) -> bool {
        self.position <= self.tokens@.len()
    }

    /// Start a parser at the beginning of the given token sequence.
    pub fn new(tokens: Vec<Tokens>) -> (p: Parser)
        ensures
            p.tokens == tokens,
            p.position == 0,
            p.wf(),
    {
        Parser { tokens, position: 0 }
    }

    /// The token under the cursor, or the end-of-input marker past the end.
    fn current(&self) -> (t: Tokens)
        ensures
            t == tok_at(self.tokens@, self.position as int),
    {
        if self.position < self.tokens.len() {
            self.tokens[self.position].clone()
        } else {
            Tokens::EOF
        }
    }

    /// Move the cursor forward by one, saturating at the sequence length.
    fn advance(&mut self)
        ensures
            final(self).tokens == old(self).tokens,
            final(self).position == if old(self).position < old(self).tokens@.len() {
                old(self).position + 1
            } else {
                old(self).position as int
            },
    {
        if self.position < self.tokens.len() {
            self.position = self.position + 1;
        }
    }

    /// Consume the token under the cursor when it equals the expected one.
    fn eat(&mut self, expected: &Tokens) -> (r: bool)
        ensures
            final(self).tokens == old(self).tokens,
            r == (tok_at(old(self).tokens@, old(self).position as int)@ == expected@),
            r ==> final(self).position == if old(self).position < old(self).tokens@.len() {
                old(self).position + 1
            } else {
                old(self).position as int
            },
            !r ==> final(self).position == old(self).position,
    {
        let c = self.current();
        if c == *expected {
            self.advance();
            true
        } else {
            false
        }
    }

    /// Parse one primary expression: a number literal, or a parenthesized
    /// expression whose closing mark is required.
    #[verifier::loop_isolation(false)]
    fn parse_primary(&mut self) -> (r: Result<Expr, ParseError>)
        requires
            old(self).wf(),
        ensures
            final(self).tokens == old(self).tokens,
            final(self).wf(),
            final(self).position >= old(self).position,
            r is Ok ==> final(self).position > old(self).position,
            forall|fuel: nat|
                fuel >= 2 * (old(self).tokens@.len() - old(self).position) + 1
                    ==> spec_parse_primary(old(self).tokens@, old(self).position as int, fuel)
                    == Some(expr_result_view(r, final(self).position as int)),
        decreases self.tokens@.len() - self.position, 0int,
    {
        let ghost toks = self.tokens@;
        let ghost p0 = self.position as int;
        let ghost len = toks.len() as int;
        let t = self.current();
        match t {
            Tokens::Number(n) => {
                self.advance();
                Ok(Expr::Number(n))
            },
            Tokens::LParen => {
                self.advance();
                let inner_r = self.parse_expr(0);
                match inner_r {
                    Ok(inner) => {
                        let ghost q = self.position as int;
                        if self.eat(&Tokens::RParen) {
                            proof {
                                assert(tok_at(toks, q) is RParen);
                                assert forall|fuel: nat| fuel >= 2 * (len - p0) + 1 implies
                                    spec_parse_primary(toks, p0, fuel) == Some(
                                        expr_result_view(Ok(inner), q + 1),
                                    ) by {
                                    assert(spec_parse_expr(toks, p0 + 1, 0u8, (fuel - 1) as nat)
                                        == Some(expr_result_view(Ok(inner), q)));
                                }
                            }
                            Ok(inner)
                        } else {
                            let c = self.current();
                            proof {
                                assert(!(tok_at(toks, q) is RParen));
                                assert forall|fuel: nat| fuel >= 2 * (len - p0) + 1 implies
                                    spec_parse_primary(toks, p0, fuel) == Some(
                                        Err::<(Expr, int), ParseError>(
                                            ParseError::ExpectedRParen(tok_at(toks, q)),
                                        ),
                                    ) by {
                                    assert(spec_parse_expr(toks, p0 + 1, 0u8, (fuel - 1) as nat)
                                        == Some(expr_result_view(Ok(inner), q)));
                                }
                            }
                            Err(ParseError::ExpectedRParen(c))
                        }
                    },
                    Err(pe) => {
                        proof {
                            assert forall|fuel: nat| fuel >= 2 * (len - p0) + 1 implies
                                spec_parse_primary(toks, p0, fuel) == Some(
                                    Err::<(Expr, int), ParseError>(pe),
                                ) by {
                                assert(spec_parse_expr(toks, p0 + 1, 0u8, (fuel - 1) as nat)
                                    == Some(Err::<(Expr, int), ParseError>(pe)));
                            }
                        }
                        Err(pe)
                    },
                }
            },
            other => Err(ParseError::UnexpectedPrimary(other)),
        }
    }

    /// Parse one expression, folding in binary operators of strength at
    /// least `min_prec`; operators of equal strength group to the left.
    #[verifier::loop_isolation(false)]
    pub fn parse_expr(&mut self, min_prec: u8) -> (r: Result<Expr, ParseError>)
        requires
            old(self).wf(),
        ensures
            final(self).tokens == old(self).tokens,
            final(self).wf(),
            final(self).position >= old(self).position,
            r is Ok ==> final(self).position > old(self).position,
            forall|fuel: nat|
                fuel >= 2 * (old(self).tokens@.len() - old(self).position) + 2
                    ==> spec_parse_expr(old(self).tokens@, old(self).position as int, min_prec, fuel)
                    == Some(expr_result_view(r, final(self).position as int)),
        decreases self.tokens@.len() - self.position, 1int,
    {
        let ghost toks = self.tokens@;
        let ghost p0 = self.position as int;
        let ghost len = toks.len() as int;
        let pr = self.parse_primary();
        let mut left = match pr {
            Ok(e) => e,
            Err(pe) => {
                proof {
                    assert forall|fuel: nat| fuel >= 2 * (len - p0) + 2 implies
                        spec_parse_expr(toks, p0, min_prec, fuel) == Some(
                            Err::<(Expr, int), ParseError>(pe),
                        ) by {
                        assert(spec_parse_primary(toks, p0, (fuel - 1) as nat) == Some(
                            Err::<(Expr, int), ParseError>(pe),
                        ));
                    }
                }
                return Err(pe);
            },
        };
        proof {
            let q0 = self.position as int;
            assert forall|res: Result<(Expr, int), ParseError>|
                spec_parse_more(toks, q0, min_prec, left, fuel_more(toks, q0)) == Some(res)
                    implies spec_parse_expr(toks, p0, min_prec, fuel_expr(toks, p0)) == Some(
                    res,
                ) by {
                let fe = fuel_expr(toks, p0);
                assert(spec_parse_primary(toks, p0, (fe - 1) as nat) == Some(
                    expr_result_view(Ok(left), q0),
                ));
                lemma_more_fuel(toks, q0, min_prec, left, fuel_more(toks, q0), (fe - 1) as nat);
            }
        }
        loop
            invariant
                self.tokens == old(self).tokens,
                self.wf(),
                self.position > p0,
                forall|res: Result<(Expr, int), ParseError>|
                    spec_parse_more(
                        toks,
                        self.position as int,
                        min_prec,
                        left,
                        fuel_more(toks, self.position as int),
                    ) == Some(res) ==> spec_parse_expr(toks, p0, min_prec, fuel_expr(toks, p0))
                        == Some(res),
            decreases len - self.position,
        {
            let t = self.current();
            let ghost cur = self.position as int;
            let opt: Option<(u8, BinaryOp)> = match t {
                Tokens::Plus => Some((1u8, BinaryOp::Plus)),
                Tokens::Minus => Some((1u8, BinaryOp::Minus)),
                Tokens::Star => Some((2u8, BinaryOp::Mul)),
                Tokens::Slash => Some((2u8, BinaryOp::Div)),
                _ => None,
            };
            let (prec, op) = match opt {
                Some(pair) => pair,
                None => {
                    proof {
                        assert(spec_parse_more(toks, cur, min_prec, left, fuel_more(toks, cur))
                            == Some(expr_result_view(Ok(left), cur)));
                        assert(spec_parse_expr(toks, p0, min_prec, fuel_expr(toks, p0)) == Some(
                            expr_result_view(Ok(left), cur),
                        ));
                        assert forall|fuel: nat| fuel >= 2 * (len - p0) + 2 implies
                            spec_parse_expr(toks, p0, min_prec, fuel) == Some(
                                expr_result_view(Ok(left), cur),
                            ) by {
                            lemma_expr_fuel(toks, p0, min_prec, fuel_expr(toks, p0), fuel);
                        }
                    }
                    return Ok(left);
                },
            };
            if prec < min_prec {
                proof {
                    assert(spec_parse_more(toks, cur, min_prec, left, fuel_more(toks, cur))
                        == Some(expr_result_view(Ok(left), cur)));
                    assert(spec_parse_expr(toks, p0, min_prec, fuel_expr(toks, p0)) == Some(
                        expr_result_view(Ok(left), cur),
                    ));
                    assert forall|fuel: nat| fuel >= 2 * (len - p0) + 2 implies spec_parse_expr(
                        toks,
                        p0,
                        min_prec,
                        fuel,
                    ) == Some(expr_result_view(Ok(left), cur)) by {
                        lemma_expr_fuel(toks, p0, min_prec, fuel_expr(toks, p0), fuel);
                    }
                }
                return Ok(left);
            }
            proof {
                assert(prec_of(tok_at(toks, cur)) == Some(prec));
                assert(op_of(tok_at(toks, cur)) == op);
            }
            self.advance();
            let rr = self.parse_expr(prec + 1);
            match rr {
                Ok(right) => {
                    let ghost qq = self.position as int;
                    let ghost left_old = left;
                    let ghost folded = Expr::Binary {
                        left: Box::new(left_old),
                        op: op_of(tok_at(toks, cur)),
                        right: Box::new(right),
                    };
                    proof {
                        assert forall|res: Result<(Expr, int), ParseError>|
                            spec_parse_more(toks, qq, min_prec, folded, fuel_more(toks, qq))
                                == Some(res) implies spec_parse_expr(
                                toks,
                                p0,
                                min_prec,
                                fuel_expr(toks, p0),
                            ) == Some(res) by {
                            let fm = fuel_more(toks, cur);
                            assert(spec_parse_expr(toks, cur + 1, (prec + 1) as u8, (fm
                                - 1) as nat) == Some(expr_result_view(Ok(right), qq)));
                            lemma_more_fuel(
                                toks,
                                qq,
                                min_prec,
                                folded,
                                fuel_more(toks, qq),
                                (fm - 1) as nat,
                            );
                            assert(spec_parse_more(toks, cur, min_prec, left_old, fm) == Some(
                                res,
                            ));
                        }
                    }
                    left = Expr::Binary { left: Box::new(left), op, right: Box::new(right) };
                },
                Err(pe) => {
                    proof {
                        let fm = fuel_more(toks, cur);
                        assert(spec_parse_expr(toks, cur + 1, (prec + 1) as u8, (fm - 1) as nat)
                            == Some(Err::<(Expr, int), ParseError>(pe)));
                        assert(spec_parse_more(toks, cur, min_prec, left, fm) == Some(
                            Err::<(Expr, int), ParseError>(pe),
                        ));
                        assert(spec_parse_expr(toks, p0, min_prec, fuel_expr(toks, p0)) == Some(
                            Err::<(Expr, int), ParseError>(pe),
                        ));
                        assert forall|fuel: nat| fuel >= 2 * (len - p0) + 2 implies
                            spec_parse_expr(toks, p0, min_prec, fuel) == Some(
                                Err::<(Expr, int), ParseError>(pe),
                            ) by {
                            lemma_expr_fuel(toks, p0, min_prec, fuel_expr(toks, p0), fuel);
                        }
                    }
                    return Err(pe);
                },
            }
        }
    }

    /// Parse the whole token sequence into its statement list: statements
    /// in source order until the end-of-input marker, or the first syntax
    /// fault, which identifies the offending token and what was expected.
    #[verifier::loop_isolation(false)]
    pub fn parse(&mut self) -> (r: Result<Vec<Stmt>, ParseError>)
        requires
            old(self).wf(),
        ensures
            final(self).tokens == old(self).tokens,
            forall|fuel: nat|
                fuel >= 2 * (old(self).tokens@.len() - old(self).position) + 3
                    ==> spec_parse_program(old(self).tokens@, old(self).position as int, fuel)
                    == Some(parse_result_view(r)),
    {
        let ghost toks = self.tokens@;
        let ghost p0 = self.position as int;
        let ghost len = toks.len() as int;
        let mut stmts: Vec<Stmt> = Vec::new();
        proof {
            assert forall|res: Result<Seq<Stmt>, ParseError>|
                spec_parse_program(toks, p0, fuel_prog(toks, p0)) == Some(res) implies
                spec_parse_program(toks, p0, fuel_prog(toks, p0)) == Some(
                    prepend_stmts(Seq::<Stmt>::empty(), res),
                ) by {
                match res {
                    Ok(rest) => {
                        assert(Seq::<Stmt>::empty() + rest =~= rest);
                    },
                    Err(_) => {},
                }
            }
        }
        loop
            invariant
                self.tokens == old(self).tokens,
                self.wf(),
                self.position >= p0,
                forall|res: Result<Seq<Stmt>, ParseError>|
                    spec_parse_program(
                        toks,
                        self.position as int,
                        fuel_prog(toks, self.position as int),
                    ) == Some(res) ==> spec_parse_program(toks, p0, fuel_prog(toks, p0)) == Some(
                        prepend_stmts(stmts@, res),
                    ),
            decreases len - self.position,
        {
            let t = self.current();
            let ghost cur = self.position as int;
            let ghost fp = fuel_prog(toks, cur);
            match t {
                Tokens::EOF => {
                    proof {
                        assert(spec_parse_program(toks, cur, fp) == Some(
                            Ok::<Seq<Stmt>, ParseError>(Seq::empty()),
                        ));
                        assert(stmts@ + Seq::<Stmt>::empty() =~= stmts@);
                        assert(prepend_stmts(stmts@, Ok::<Seq<Stmt>, ParseError>(Seq::empty()))
                            == Ok::<Seq<Stmt>, ParseError>(stmts@));
                        assert(spec_parse_program(toks, p0, fuel_prog(toks, p0)) == Some(
                            Ok::<Seq<Stmt>, ParseError>(stmts@),
                        ));
                        assert forall|fuel: nat| fuel >= 2 * (len - p0) + 3 implies
                            spec_parse_program(toks, p0, fuel) == Some(
                                Ok::<Seq<Stmt>, ParseError>(stmts@),
                            ) by {
                            lemma_program_fuel(toks, p0, fuel_prog(toks, p0), fuel);
                        }
                    }
                    return Ok(stmts);
                },
                Tokens::Return => {
                    self.advance();
                    let er = self.parse_expr(0);
                    match er {
                        Ok(e) => {
                            let ghost qq = self.position as int;
                            if self.eat(&Tokens::SemiColon) {
                                proof {
                                    assert(tok_at(toks, qq) is SemiColon);
                                    assert(spec_parse_expr(toks, cur + 1, 0u8, (fp - 2) as nat)
                                        == Some(expr_result_view(Ok(e), qq)));
                                    assert(spec_parse_stmt(toks, cur, (fp - 1) as nat) == Some(
                                        Ok::<(Stmt, int), ParseError>(
                                            (Stmt::Return(e), qq + 1),
                                        ),
                                    ));
                                    lemma_parse_loop_step(
                                        toks,
                                        p0,
                                        cur,
                                        qq + 1,
                                        stmts@,
                                        Stmt::Return(e),
                                    );
                                }
                                stmts.push(Stmt::Return(e));
                            } else {
                                let c = self.current();
                                proof {
                                    assert(spec_parse_expr(toks, cur + 1, 0u8, (fp - 2) as nat)
                                        == Some(expr_result_view(Ok(e), qq)));
                                    lemma_parse_loop_err(
                                        toks,
                                        p0,
                                        cur,
                                        stmts@,
                                        ParseError::ExpectedSemicolon(tok_at(toks, qq)),
                                    );
                                }
                                return Err(ParseError::ExpectedSemicolon(c));
                            }
                        },
                        Err(pe) => {
                            proof {
                                assert(spec_parse_expr(toks, cur + 1, 0u8, (fp - 2) as nat)
                                    == Some(Err::<(Expr, int), ParseError>(pe)));
                                lemma_parse_loop_err(toks, p0, cur, stmts@, pe);
                            }
                            return Err(pe);
                        },
                    }
                },
                Tokens::Var => {
                    self.advance();
                    let name_tok = self.current();
                    let name = match name_tok {
                        Tokens::Ident(s) => {
                            self.advance();
                            s
                        },
                        other => {
                            proof {
                                lemma_parse_loop_err(
                                    toks,
                                    p0,
                                    cur,
                                    stmts@,
                                    ParseError::ExpectedIdent(tok_at(toks, cur + 1)),
                                );
                            }
                            return Err(ParseError::ExpectedIdent(other));
                        },
                    };
                    if !self.eat(&Tokens::Assign) {
                        let c = self.current();
                        proof {
                            assert(!(tok_at(toks, cur + 2) is Assign));
                            lemma_parse_loop_err(
                                toks,
                                p0,
                                cur,
                                stmts@,
                                ParseError::ExpectedAssign(tok_at(toks, cur + 2)),
                            );
                        }
                        return Err(ParseError::ExpectedAssign(c));
                    }
                    let er = self.parse_expr(0);
                    match er {
                        Ok(e) => {
                            let ghost qq = self.position as int;
                            if self.eat(&Tokens::SemiColon) {
                                proof {
                                    assert(tok_at(toks, qq) is SemiColon);
                                    assert(spec_parse_expr(toks, cur + 3, 0u8, (fp - 2) as nat)
                                        == Some(expr_result_view(Ok(e), qq)));
                                    assert(spec_parse_stmt(toks, cur, (fp - 1) as nat) == Some(
                                        Ok::<(Stmt, int), ParseError>(
                                            (Stmt::VarDecl { name: name, value: e }, qq + 1),
                                        ),
                                    ));
                                    lemma_parse_loop_step(
                                        toks,
                                        p0,
                                        cur,
                                        qq + 1,
                                        stmts@,
                                        Stmt::VarDecl { name: name, value: e },
                                    );
                                }
                                stmts.push(Stmt::VarDecl { name, value: e });
                            } else {
                                let c = self.current();
                                proof {
                                    assert(spec_parse_expr(toks, cur + 3, 0u8, (fp - 2) as nat)
                                        == Some(expr_result_view(Ok(e), qq)));
                                    lemma_parse_loop_err(
                                        toks,
                                        p0,
                                        cur,
                                        stmts@,
                                        ParseError::ExpectedSemicolon(tok_at(toks, qq)),
                                    );
                                }
                                return Err(ParseError::ExpectedSemicolon(c));
                            }
                        },
                        Err(pe) => {
                            proof {
                                assert(spec_parse_expr(toks, cur + 3, 0u8, (fp - 2) as nat)
                                    == Some(Err::<(Expr, int), ParseError>(pe)));
                                lemma_parse_loop_err(toks, p0, cur, stmts@, pe);
                            }
                            return Err(pe);
                        },
                    }
                },
                other => {
                    proof {
                        lemma_parse_loop_err(
                            toks,
                            p0,
                            cur,
                            stmts@,
                            ParseError::ExpectedStatement(tok_at(toks, cur)),
                        );
                    }
                    return Err(ParseError::ExpectedStatement(other));
                },
            }
        }
    }
}

/// Folding one parsed statement into the running list: if the description
/// answers for the rest of the program, it answers for the whole with the
/// statement in front.
proof fn lemma_parse_loop_step(
    toks: Seq<Tokens>,
    p0: int,
    cur: int,
    next: int,
    done: Seq<Stmt>,
    st: Stmt,
)
    requires
        0 <= p0 <= cur <= toks.len(),
        cur < next <= toks.len() + 1,
        !(tok_at(toks, cur) is EOF),
        spec_parse_stmt(toks, cur, (fuel_prog(toks, cur) - 1) as nat) == Some(
            Ok::<(Stmt, int), ParseError>((st, next)),
        ),
        forall|res: Result<Seq<Stmt>, ParseError>|
            spec_parse_program(toks, cur, fuel_prog(toks, cur)) == Some(res)
                ==> spec_parse_program(toks, p0, fuel_prog(toks, p0)) == Some(
                prepend_stmts(done, res),
            ),
    ensures
        forall|res: Result<Seq<Stmt>, ParseError>|
            spec_parse_program(toks, next, fuel_prog(toks, next)) == Some(res)
                ==> spec_parse_program(toks, p0, fuel_prog(toks, p0)) == Some(
                prepend_stmts(done.push(st), res),
            ),
{
    let fp = fuel_prog(toks, cur);
    assert forall|res: Result<Seq<Stmt>, ParseError>|
        spec_parse_program(toks, next, fuel_prog(toks, next)) == Some(res) implies
        spec_parse_program(toks, p0, fuel_prog(toks, p0)) == Some(
            prepend_stmts(done.push(st), res),
        ) by {
        lemma_program_fuel(toks, next, fuel_prog(toks, next), (fp - 1) as nat);
        assert(spec_parse_program(toks, next, (fp - 1) as nat) == Some(res));
        match res {
            Ok(rest) => {
                assert(spec_parse_program(toks, cur, fp) == Some(
                    Ok::<Seq<Stmt>, ParseError>(seq![st] + rest),
                ));
                assert(prepend_stmts(done, Ok::<Seq<Stmt>, ParseError>(seq![st] + rest))
                    == Ok::<Seq<Stmt>, ParseError>(done + (seq![st] + rest)));
                assert(spec_parse_program(toks, p0, fuel_prog(toks, p0)) == Some(
                    Ok::<Seq<Stmt>, ParseError>(done + (seq![st] + rest)),
                ));
                assert(done + (seq![st] + rest) =~= done.push(st) + rest);
            },
            Err(_) => {
                assert(spec_parse_program(toks, cur, fp) == Some(res));
                assert(spec_parse_program(toks, p0, fuel_prog(toks, p0)) == Some(
                    prepend_stmts(done, res),
                ));
            },
        }
    }
}

/// A statement-level fault is the whole program's answer.
proof fn lemma_parse_loop_err(toks: Seq<Tokens>, p0: int, cur: int, done: Seq<Stmt>, pe: ParseError)
    requires
        0 <= p0 <= cur <= toks.len(),
        !(tok_at(toks, cur) is EOF),
        spec_parse_stmt(toks, cur, (fuel_prog(toks, cur) - 1) as nat) == Some(
            Err::<(Stmt, int), ParseError>(pe),
        ),
        forall|res: Result<Seq<Stmt>, ParseError>|
            spec_parse_program(toks, cur, fuel_prog(toks, cur)) == Some(res)
                ==> spec_parse_program(toks, p0, fuel_prog(toks, p0)) == Some(
                prepend_stmts(done, res),
            ),
    ensures
        forall|fuel: nat|
            fuel >= 2 * (toks.len() - p0) + 3 ==> spec_parse_program(toks, p0, fuel) == Some(
                Err::<Seq<Stmt>, ParseError>(pe),
            ),
{
    let fp = fuel_prog(toks, cur);
    assert(spec_parse_program(toks, cur, fp) == Some(Err::<Seq<Stmt>, ParseError>(pe)));
    assert(spec_parse_program(toks, p0, fuel_prog(toks, p0)) == Some(
        prepend_stmts(done, Err(pe)),
    ));
    assert forall|fuel: nat| fuel >= 2 * (toks.len() - p0) + 3 implies spec_parse_program(
        toks,
        p0,
        fuel,
    ) == Some(Err::<Seq<Stmt>, ParseError>(pe)) by {
        lemma_program_fuel(toks, p0, fuel_prog(toks, p0), fuel);
    }
}

/// Parse a borrowed token sequence from its start; the cursor state stays
/// inside the call.
pub fn parse(tokens: &Vec<Tokens>) -> (r: Result<Vec<Stmt>, ParseError>)
    ensures
        forall|fuel: nat|
            fuel >= 2 * tokens@.len() + 3 ==> spec_parse_program(tokens@, 0, fuel) == Some(
                parse_result_view(r),
            ),
{
    let mut copy: Vec<Tokens> = Vec::new();
    let mut i: usize = 0;
    while i < tokens.len()
        invariant
            i <= tokens@.len(),
            copy@ == tokens@.take(i as int),
        decreases tokens@.len() - i,
    {
        let t = tokens[i].clone();
        copy.push(t);
        proof {
            assert(tokens@.take(i + 1) =~= tokens@.take(i as int).push(tokens@[i as int]));
        }
        i = i + 1;
    }
    proof {
        assert(tokens@.take(tokens@.len() as int) =~= tokens@);
    }
    let mut parser = Parser::new(copy);
    parser.parse()
}

} // verus!
