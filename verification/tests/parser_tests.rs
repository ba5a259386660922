use rusthon::lexer::{tokenize, Tokens};
use rusthon::parser::{parse, BinaryOp, Expr, ParseError, Stmt};

fn bin(left: Expr, op: BinaryOp, right: Expr) -> Expr {
    Expr::Binary {
        left: Box::new(left),
        op,
        right: Box::new(right),
    }
}

fn parse_source(src: &str) -> Result<Vec<Stmt>, ParseError> {
    let toks = tokenize(src.to_string()).unwrap();
    parse(&toks)
}

#[test]
fn multiplication_binds_tighter_than_addition() {
    let stmts = parse_source("return 1 + 2 * 3;").unwrap();
    assert_eq!(
        stmts,
        vec![Stmt::Return(bin(
            Expr::Number(1),
            BinaryOp::Plus,
            bin(Expr::Number(2), BinaryOp::Mul, Expr::Number(3)),
        ))]
    );
}

#[test]
fn subtraction_groups_to_the_left() {
    let stmts = parse_source("return 1 - 2 - 3;").unwrap();
    assert_eq!(
        stmts,
        vec![Stmt::Return(bin(
            bin(Expr::Number(1), BinaryOp::Minus, Expr::Number(2)),
            BinaryOp::Minus,
            Expr::Number(3),
        ))]
    );
}

#[test]
fn parentheses_override_precedence() {
    let stmts = parse_source("return (1 + 2) * 3;").unwrap();
    assert_eq!(
        stmts,
        vec![Stmt::Return(bin(
            bin(Expr::Number(1), BinaryOp::Plus, Expr::Number(2)),
            BinaryOp::Mul,
            Expr::Number(3),
        ))]
    );
}

#[test]
fn division_groups_to_the_left() {
    let stmts = parse_source("return 8 / 4 / 2;").unwrap();
    assert_eq!(
        stmts,
        vec![Stmt::Return(bin(
            bin(Expr::Number(8), BinaryOp::Div, Expr::Number(4)),
            BinaryOp::Div,
            Expr::Number(2),
        ))]
    );
}

#[test]
fn declaration_parses_to_var_decl() {
    let stmts = parse_source("var x = 5;").unwrap();
    assert_eq!(
        stmts,
        vec![Stmt::VarDecl {
            name: "x".to_string(),
            value: Expr::Number(5),
        }]
    );
}

#[test]
fn identifiers_are_no_primary_expressions() {
    let r = parse_source("var a = 1; return a;");
    assert_eq!(
        r,
        Err(ParseError::UnexpectedPrimary(Tokens::Ident(
            "a".to_string()
        )))
    );
}

#[test]
fn program_of_two_statements() {
    let stmts = parse_source("var a = 1; return 2;").unwrap();
    assert_eq!(
        stmts,
        vec![
            Stmt::VarDecl {
                name: "a".to_string(),
                value: Expr::Number(1),
            },
            Stmt::Return(Expr::Number(2)),
        ]
    );
}

#[test]
fn missing_expression_before_semicolon() {
    let r = parse_source("return ;");
    assert_eq!(r, Err(ParseError::UnexpectedPrimary(Tokens::SemiColon)));
}

#[test]
fn missing_assignment_mark() {
    let r = parse_source("var x 5;");
    assert_eq!(r, Err(ParseError::ExpectedAssign(Tokens::Number(5))));
}

#[test]
fn missing_variable_name() {
    let r = parse_source("var = 5;");
    assert_eq!(r, Err(ParseError::ExpectedIdent(Tokens::Assign)));
}

#[test]
fn missing_semicolon_at_end_of_input() {
    let r = parse_source("return 1");
    assert_eq!(r, Err(ParseError::ExpectedSemicolon(Tokens::EOF)));
}

#[test]
fn missing_closing_parenthesis() {
    let r = parse_source("return (1;");
    assert_eq!(r, Err(ParseError::ExpectedRParen(Tokens::SemiColon)));
}

#[test]
fn statement_cannot_start_with_an_operator() {
    let r = parse_source("+ 1;");
    assert_eq!(r, Err(ParseError::ExpectedStatement(Tokens::Plus)));
}

#[test]
fn empty_token_stream_is_an_empty_program() {
    let stmts = parse_source("").unwrap();
    assert_eq!(stmts, Vec::<Stmt>::new());
}

#[test]
fn mixed_precedence_chain() {
    let stmts = parse_source("return 1 + 2 * 3 - 4;").unwrap();
    assert_eq!(
        stmts,
        vec![Stmt::Return(bin(
            bin(
                Expr::Number(1),
                BinaryOp::Plus,
                bin(Expr::Number(2), BinaryOp::Mul, Expr::Number(3)),
            ),
            BinaryOp::Minus,
            Expr::Number(4),
        ))]
    );
}
