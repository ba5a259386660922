use rusthon::codegen::generate;
use rusthon::lexer::tokenize;
use rusthon::parser::{parse, BinaryOp, Expr, Stmt};

fn bin(left: Expr, op: BinaryOp, right: Expr) -> Expr {
    Expr::Binary {
        left: Box::new(left),
        op,
        right: Box::new(right),
    }
}

#[test]
fn literal_lands_in_the_primary_register() {
    let text = Expr::Number(5).codegen();
    assert_eq!(text, "    mov rax, 5");
}

#[test]
fn negative_literal_text() {
    let text = Expr::Number(-7).codegen();
    assert_eq!(text, "    mov rax, -7");
}

#[test]
fn smallest_literal_text() {
    let text = Expr::Number(i64::MIN).codegen();
    assert_eq!(text, "    mov rax, -9223372036854775808");
}

#[test]
fn subtraction_restores_operand_order() {
    let text = bin(Expr::Number(4), BinaryOp::Minus, Expr::Number(1)).codegen();
    assert_eq!(
        text,
        "    mov rax, 4\n    push rax\n    mov rax, 1\n    pop rbx\n    mov rcx, rax\n    mov rax, rbx\n    sub rax, rcx"
    );
}

#[test]
fn addition_combines_the_two_registers() {
    let text = bin(Expr::Number(1), BinaryOp::Plus, Expr::Number(2)).codegen();
    assert_eq!(
        text,
        "    mov rax, 1\n    push rax\n    mov rax, 2\n    pop rbx\n    add rax, rbx"
    );
}

#[test]
fn multiplication_swaps_before_combining() {
    let text = bin(Expr::Number(3), BinaryOp::Mul, Expr::Number(4)).codegen();
    assert_eq!(
        text,
        "    mov rax, 3\n    push rax\n    mov rax, 4\n    pop rbx\n    xchg rax, rbx\n    imul rax, rbx"
    );
}

#[test]
fn division_swaps_and_zeroes_the_remainder() {
    let text = bin(Expr::Number(8), BinaryOp::Div, Expr::Number(2)).codegen();
    assert_eq!(
        text,
        "    mov rax, 8\n    push rax\n    mov rax, 2\n    pop rbx\n    xchg rax, rbx\n    mov rdx, 0\n    div rbx"
    );
}

#[test]
fn return_statement_ends_in_the_syscall() {
    let text = Stmt::Return(Expr::Number(3)).codegen(8);
    assert_eq!(
        text,
        "    mov rax, 3\n    mov rdi, rax\n    mov rax, 60\n    syscall"
    );
}

#[test]
fn declaration_stores_at_its_offset() {
    let text = Stmt::VarDecl {
        name: "x".to_string(),
        value: Expr::Number(5),
    }
    .codegen(8);
    assert_eq!(
        text,
        "    mov rax, 5\n    ; store var x on stack \n    mov [rsp - 8], rax"
    );
}

#[test]
fn offsets_step_by_one_word_per_declaration() {
    let toks = tokenize("var a = 1; var b = 2; var c = 3;".to_string()).unwrap();
    let stmts = parse(&toks).unwrap();
    let text = generate(&stmts);
    let first = text.find("[rsp - 8]").unwrap();
    let second = text.find("[rsp - 16]").unwrap();
    let third = text.find("[rsp - 24]").unwrap();
    assert!(first < second && second < third);
    assert!(!text.contains("[rsp - 32]"));
}

#[test]
fn generated_program_text() {
    let toks = tokenize("var x = 2; return 1 + 2 * 3;".to_string()).unwrap();
    let stmts = parse(&toks).unwrap();
    let text = generate(&stmts);
    let expected = "    mov rax, 2\n    ; store var x on stack \n    mov [rsp - 8], rax\n    mov rax, 1\n    push rax\n    mov rax, 2\n    push rax\n    mov rax, 3\n    pop rbx\n    xchg rax, rbx\n    imul rax, rbx\n    pop rbx\n    add rax, rbx\n    mov rdi, rax\n    mov rax, 60\n    syscall";
    assert_eq!(text, expected);
}

#[test]
fn empty_program_generates_no_text() {
    let stmts: Vec<Stmt> = Vec::new();
    assert_eq!(generate(&stmts), "");
}
