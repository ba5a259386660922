//! Code generation: statements lowered into linear assembly text for an
//! abstract two-register stack machine. The lowering is described at the
//! instruction level; running the lowered instructions on the machine model
//! is proved to leave the expression's value in the primary register, and
//! the stack slots of declarations are proved to step by one word each.

use vstd::prelude::*;

verus! {

use crate::parser::BinaryOp;
use crate::parser::Expr;
use crate::parser::Stmt;
use crate::text::dec_i64;
use crate::text::dec_int;
use crate::text::join_lines;
use crate::text::join_lines_exec;
use crate::text::lines_view;
use vstd::string::StrSliceExecFns;
use vstd::string::StringExecFns;

/// One machine instruction, named by its effect on the abstract machine:
/// `prim` and `sec` are the two working registers, `scratch` the spill
/// register of subtraction, `rem` the remainder register of division, and
/// `arg` the argument register of the terminating system call.
pub enum Instr {
    /// Put a literal in the primary register.
    MovPrimImm(i64),
    /// Save the primary register on the machine's save-stack.
    PushPrim,
    /// Pop the top of the save-stack into the secondary register.
    PopSec,
    /// Add the secondary register into the primary one.
    AddPrimSec,
    /// Copy the primary register into the scratch register.
    MovScratchPrim,
    /// Copy the secondary register into the primary one.
    MovPrimSec,
    /// Subtract the scratch register from the primary one.
    SubPrimScratch,
    /// Exchange the primary and secondary registers.
    SwapPrimSec,
    /// Multiply the primary register by the secondary one.
    MulPrimSec,
    /// Zero the remainder register before a division.
    ZeroRem,
    /// Divide the primary register by the secondary one.
    DivPrimSec,
    /// Move the primary register into the termination argument register.
    MovArgPrim,
    /// The terminating system call.
    Syscall,
    /// A comment naming the variable being stored.
    VarComment(Seq<char>),
    /// Store the primary register at the given stack offset.
    StorePrim(int),
}

/// The text of one instruction line.
pub open spec fn instr_text(i: Instr) -> Seq<char> {
    match i {
        Instr::MovPrimImm(n) => "    mov rax, "@ + dec_int(n as int),
        Instr::PushPrim => "    push rax"@,
        Instr::PopSec => "    pop rbx"@,
        Instr::AddPrimSec => "    add rax, rbx"@,
        Instr::MovScratchPrim => "    mov rcx, rax"@,
        Instr::MovPrimSec => "    mov rax, rbx"@,
        Instr::SubPrimScratch => "    sub rax, rcx"@,
        Instr::SwapPrimSec => "    xchg rax, rbx"@,
        Instr::MulPrimSec => "    imul rax, rbx"@,
        Instr::ZeroRem => "    mov rdx, 0"@,
        Instr::DivPrimSec => "    div rbx"@,
        Instr::MovArgPrim => "    mov rdi, rax"@,
        Instr::Syscall => "    syscall"@,
        Instr::VarComment(name) => "    ; store var "@ + name + " on stack "@,
        Instr::StorePrim(off) => "    mov [rsp - "@ + dec_int(off) + "], rax"@,
    }
}

/// The texts of a run of instructions.
pub open spec fn instr_lines(instrs: Seq<Instr>) -> Seq<Seq<char>> {
    instrs.map_values(|i: Instr| instr_text(i))
}

/// The instructions that combine a left value (saved below the right value)
/// once both are in place: the right operand sits in the primary register
/// and the popped left operand in the secondary one, so non-commutative
/// operators first restore left-before-right order.
pub open spec fn op_instrs(op: BinaryOp) -> Seq<Instr> {
    match op {
        BinaryOp::Plus => seq![Instr::AddPrimSec],
        BinaryOp::Minus => seq![Instr::MovScratchPrim, Instr::MovPrimSec, Instr::SubPrimScratch],
        BinaryOp::Mul => seq![Instr::SwapPrimSec, Instr::MulPrimSec],
        BinaryOp::Div => seq![Instr::SwapPrimSec, Instr::ZeroRem, Instr::DivPrimSec],
    }
}

/// The instructions that leave an expression's value in the primary
/// register: a literal is moved there; a binary node lowers its left
/// operand, saves it, lowers its right operand, pops the saved value, and
/// combines the two.
pub open spec fn lower_expr(e: Expr) -> Seq<Instr>
    decreases e,
{
    match e {
        Expr::Number(n) => seq![Instr::MovPrimImm(n)],
        Expr::Binary { left, op, right } => lower_expr(*left) + seq![Instr::PushPrim] + lower_expr(
            *right,
        ) + seq![Instr::PopSec] + op_instrs(op),
    }
}

/// The instructions of one statement: a return evaluates its expression and
/// hands it to the terminating system call; a declaration evaluates its
/// expression and stores it at the given stack offset.
pub open spec fn lower_stmt(s: Stmt, off: int) -> Seq<Instr> {
    match s {
        Stmt::Return(e) => lower_expr(e) + seq![
            Instr::MovArgPrim,
            Instr::MovPrimImm(60),
            Instr::Syscall,
        ],
        Stmt::VarDecl { name, value } => lower_expr(value) + seq![
            Instr::VarComment(name@),
            Instr::StorePrim(off),
        ],
    }
}

/// The stack offset for the statement after this one: a declaration takes
/// one machine word; anything else leaves the counter alone.
pub open spec fn next_off(s: Stmt, off: int) -> int {
    if s is VarDecl {
        off + 8
    } else {
        off
    }
}

/// The instructions of a statement run, threading the stack-offset counter
/// across the whole run in source order.
pub open spec fn lower_program_from(stmts: Seq<Stmt>, off: int) -> Seq<Instr>
    decreases stmts.len(),
{
    if stmts.len() == 0 {
        Seq::empty()
    } else {
        lower_stmt(stmts[0], off) + lower_program_from(
            stmts.drop_first(),
            next_off(stmts[0], off),
        )
    }
}

/// How many statements of a run declare a variable.
pub open spec fn count_vars(stmts: Seq<Stmt>) -> int
    decreases stmts.len(),
{
    if stmts.len() == 0 {
        0
    } else {
        (if stmts[0] is VarDecl {
            1int
        } else {
            0int
        }) + count_vars(stmts.drop_first())
    }
}

/// The state of the abstract machine: the registers, the save-stack used
/// around binary operations, and the stored stack slots by offset.
pub struct Machine {
    pub prim: i64,
    pub sec: i64,
    pub scratch: i64,
    pub rem: i64,
    pub arg: i64,
    pub saved: Seq<i64>,
    pub mem: Map<int, i64>,
}

/// Reduction of an unbounded value into the 64-bit signed domain, the way
/// two's-complement hardware wraps.
pub open spec fn wrap64(n: int) -> i64 {
    let r = n % 0x1_0000_0000_0000_0000;
    if r >= 0x8000_0000_0000_0000 {
        (r - 0x1_0000_0000_0000_0000) as i64
    } else {
        r as i64
    }
}

/// Division truncating toward zero, defined for a nonzero divisor.
pub open spec fn t_div(a: int, b: int) -> int {
    if a >= 0 && b > 0 {
        a / b
    } else if a < 0 && b > 0 {
        -((-a) / b)
    } else if a >= 0 && b < 0 {
        -(a / (-b))
    } else {
        (-a) / (-b)
    }
}

/// What one operator computes over two register values; division by zero is
/// left at zero here and ruled out where results matter.
pub open spec fn op_val(op: BinaryOp, a: i64, b: i64) -> i64 {
    match op {
        BinaryOp::Plus => wrap64(a + b),
        BinaryOp::Minus => wrap64(a - b),
        BinaryOp::Mul => wrap64(a * b),
        BinaryOp::Div => if b == 0 {
            0
        } else {
            wrap64(t_div(a as int, b as int))
        },
    }
}

/// The value of an expression tree.
pub open spec fn eval(e: Expr) -> i64
    decreases e,
{
    match e {
        Expr::Number(n) => n,
        Expr::Binary { left, op, right } => op_val(op, eval(*left), eval(*right)),
    }
}

/// No division in the tree has a zero divisor; a division by zero is a
/// fault of the generated program, outside the compiler's account.
pub open spec fn no_div_by_zero(e: Expr) -> bool
    decreases e,
{
    match e {
        Expr::Number(_) => true,
        Expr::Binary { left, op, right } => no_div_by_zero(*left) && no_div_by_zero(*right) && (op
            is Div ==> eval(*right) != 0),
    }
}

/// The effect of one instruction on the machine. Popping an empty
/// save-stack and dividing by zero leave the machine unchanged; the lowered
/// programs this model is used for never reach either.
pub open spec fn step(m: Machine, i: Instr) -> Machine {
    match i {
        Instr::MovPrimImm(n) => Machine { prim: n, ..m },
        Instr::PushPrim => Machine { saved: m.saved.push(m.prim), ..m },
        Instr::PopSec => if m.saved.len() > 0 {
            Machine { sec: m.saved.last(), saved: m.saved.drop_last(), ..m }
        } else {
            m
        },
        Instr::AddPrimSec => Machine { prim: wrap64(m.prim + m.sec), ..m },
        Instr::MovScratchPrim => Machine { scratch: m.prim, ..m },
        Instr::MovPrimSec => Machine { prim: m.sec, ..m },
        Instr::SubPrimScratch => Machine { prim: wrap64(m.prim - m.scratch), ..m },
        Instr::SwapPrimSec => Machine { prim: m.sec, sec: m.prim, ..m },
        Instr::MulPrimSec => Machine { prim: wrap64(m.prim * m.sec), ..m },
        Instr::ZeroRem => Machine { rem: 0, ..m },
        Instr::DivPrimSec => if m.sec == 0 {
            m
        } else {
            Machine {
                prim: wrap64(t_div(m.prim as int, m.sec as int)),
                rem: wrap64(m.prim as int - t_div(m.prim as int, m.sec as int) * (m.sec as int)),
                ..m
            }
        },
        Instr::MovArgPrim => Machine { arg: m.prim, ..m },
        Instr::Syscall => m,
        Instr::VarComment(_) => m,
        Instr::StorePrim(off) => Machine { mem: m.mem.insert(off, m.prim), ..m },
    }
}

/// Running a run of instructions from a state, first instruction first.
pub open spec fn run(m: Machine, instrs: Seq<Instr>) -> Machine
    decreases instrs.len(),
{
    if instrs.len() == 0 {
        m
    } else {
        run(step(m, instrs[0]), instrs.drop_first())
    }
}

pub proof fn lemma_run_concat(m: Machine, a: Seq<Instr>, b: Seq<Instr>)
    ensures
        run(m, a + b) == run(run(m, a), b),
    decreases a.len(),
{
    if a.len() == 0 {
        assert(a + b =~= b);
    } else {
        assert((a + b)[0] == a[0]);
        assert((a + b).drop_first() =~= a.drop_first() + b);
        lemma_run_concat(step(m, a[0]), a.drop_first(), b);
    }
}

pub proof fn lemma_run_one(m: Machine, a: Instr)
    ensures
        run(m, seq![a]) == step(m, a),
{
    assert(seq![a].drop_first() =~= Seq::<Instr>::empty());
    assert(run(step(m, a), Seq::<Instr>::empty()) == step(m, a));
}

pub proof fn lemma_run_two(m: Machine, a: Instr, b: Instr)
    ensures
        run(m, seq![a, b]) == step(step(m, a), b),
{
    assert(seq![a, b] =~= seq![a] + seq![b]);
    lemma_run_concat(m, seq![a], seq![b]);
    lemma_run_one(m, a);
    lemma_run_one(run(m, seq![a]), b);
}

pub proof fn lemma_run_three(m: Machine, a: Instr, b: Instr, c: Instr)
    ensures
        run(m, seq![a, b, c]) == step(step(step(m, a), b), c),
{
    assert(seq![a, b, c] =~= seq![a, b] + seq![c]);
    lemma_run_concat(m, seq![a, b], seq![c]);
    lemma_run_two(m, a, b);
    lemma_run_one(run(m, seq![a, b]), c);
}

/// Lowering is faithful: from any starting state, running the instructions
/// of an expression with no zero divisor leaves the expression's value in
/// the primary register, and restores the save-stack and the stored slots
/// exactly as they were.
#[verifier::rlimit(100)]
pub proof fn lemma_lower_expr_correct(e: Expr, m: Machine)
    requires
        no_div_by_zero(e),
    ensures
        run(m, lower_expr(e)).prim == eval(e),
        run(m, lower_expr(e)).saved == m.saved,
        run(m, lower_expr(e)).mem == m.mem,
        run(m, lower_expr(e)).arg == m.arg,
    decreases e,
{
    match e {
        Expr::Number(n) => {
            lemma_run_one(m, Instr::MovPrimImm(n));
        },
        Expr::Binary { left, op, right } => {
            let il = lower_expr(*left);
            let ir = lower_expr(*right);
            let ops = op_instrs(op);
            lemma_run_concat(m, il + seq![Instr::PushPrim] + ir + seq![Instr::PopSec], ops);
            lemma_run_concat(m, il + seq![Instr::PushPrim] + ir, seq![Instr::PopSec]);
            lemma_run_concat(m, il + seq![Instr::PushPrim], ir);
            lemma_run_concat(m, il, seq![Instr::PushPrim]);
            lemma_lower_expr_correct(*left, m);
            let m1 = run(m, il);
            lemma_run_one(m1, Instr::PushPrim);
            let m2 = step(m1, Instr::PushPrim);
            lemma_lower_expr_correct(*right, m2);
            let m3 = run(m2, ir);
            lemma_run_one(m3, Instr::PopSec);
            let m4 = step(m3, Instr::PopSec);
            assert(m3.saved == m.saved.push(eval(*left)));
            assert(m4.sec == eval(*left));
            assert(m4.prim == eval(*right));
            assert(m4.saved =~= m.saved);
            match op {
                BinaryOp::Plus => {
                    lemma_run_one(m4, Instr::AddPrimSec);
                },
                BinaryOp::Minus => {
                    lemma_run_three(
                        m4,
                        Instr::MovScratchPrim,
                        Instr::MovPrimSec,
                        Instr::SubPrimScratch,
                    );
                },
                BinaryOp::Mul => {
                    lemma_run_two(m4, Instr::SwapPrimSec, Instr::MulPrimSec);
                },
                BinaryOp::Div => {
                    lemma_run_three(m4, Instr::SwapPrimSec, Instr::ZeroRem, Instr::DivPrimSec);
                    assert(eval(*right) != 0);
                },
            }
        },
    }
}

/// No division in any of the statements' expressions has a zero divisor.
pub open spec fn stmts_div_ok(stmts: Seq<Stmt>) -> bool
    decreases stmts.len(),
{
    if stmts.len() == 0 {
        true
    } else {
        (match stmts[0] {
            Stmt::Return(e) => no_div_by_zero(e),
            Stmt::VarDecl { name: _, value } => no_div_by_zero(value),
        }) && stmts_div_ok(stmts.drop_first())
    }
}

/// What one statement leaves in the stored slots.
pub open spec fn stmt_mem(s: Stmt, off: int, mem: Map<int, i64>) -> Map<int, i64> {
    match s {
        Stmt::Return(_) => mem,
        Stmt::VarDecl { name: _, value } => mem.insert(off, eval(value)),
    }
}

/// What a statement run leaves in the stored slots, statement by statement.
pub open spec fn program_mem(stmts: Seq<Stmt>, off: int, mem: Map<int, i64>) -> Map<int, i64>
    decreases stmts.len(),
{
    if stmts.len() == 0 {
        mem
    } else {
        program_mem(stmts.drop_first(), next_off(stmts[0], off), stmt_mem(stmts[0], off, mem))
    }
}

/// One lowered statement is faithful: a declaration stores its expression's
/// value at its offset and touches nothing else that matters; a return puts
/// its expression's value in the termination argument register.
pub proof fn lemma_lower_stmt_correct(s: Stmt, off: int, m: Machine)
    requires
        (match s {
            Stmt::Return(e) => no_div_by_zero(e),
            Stmt::VarDecl { name: _, value } => no_div_by_zero(value),
        }),
    ensures
        run(m, lower_stmt(s, off)).saved == m.saved,
        run(m, lower_stmt(s, off)).mem == stmt_mem(s, off, m.mem),
        (s matches Stmt::Return(e) ==> run(m, lower_stmt(s, off)).arg == eval(e)),
        (s is VarDecl ==> run(m, lower_stmt(s, off)).arg == m.arg),
{
    match s {
        Stmt::Return(e) => {
            let tail = seq![Instr::MovArgPrim, Instr::MovPrimImm(60), Instr::Syscall];
            lemma_run_concat(m, lower_expr(e), tail);
            lemma_lower_expr_correct(e, m);
            let m1 = run(m, lower_expr(e));
            lemma_run_three(m1, Instr::MovArgPrim, Instr::MovPrimImm(60), Instr::Syscall);
        },
        Stmt::VarDecl { name, value } => {
            let tail = seq![Instr::VarComment(name@), Instr::StorePrim(off)];
            lemma_run_concat(m, lower_expr(value), tail);
            lemma_lower_expr_correct(value, m);
            let m1 = run(m, lower_expr(value));
            lemma_run_two(m1, Instr::VarComment(name@), Instr::StorePrim(off));
        },
    }
}

/// A lowered statement run is faithful to the slots: it leaves exactly the
/// declared values at their offsets, and the save-stack as it was.
pub proof fn lemma_lower_program_correct(stmts: Seq<Stmt>, off: int, m: Machine)
    requires
        stmts_div_ok(stmts),
    ensures
        run(m, lower_program_from(stmts, off)).saved == m.saved,
        run(m, lower_program_from(stmts, off)).mem == program_mem(stmts, off, m.mem),
    decreases stmts.len(),
{
    if stmts.len() > 0 {
        let head = stmts[0];
        let rest = stmts.drop_first();
        lemma_run_concat(m, lower_stmt(head, off), lower_program_from(rest, next_off(head, off)));
        lemma_lower_stmt_correct(head, off, m);
        lemma_lower_program_correct(rest, next_off(head, off), run(m, lower_stmt(head, off)));
    }
}

/// The stack offsets of the store instructions in a run, in emission order.
pub open spec fn store_offsets(instrs: Seq<Instr>) -> Seq<int>
    decreases instrs.len(),
{
    if instrs.len() == 0 {
        Seq::empty()
    } else {
        match instrs[0] {
            Instr::StorePrim(off) => seq![off] + store_offsets(instrs.drop_first()),
            _ => store_offsets(instrs.drop_first()),
        }
    }
}

pub proof fn lemma_store_offsets_concat(a: Seq<Instr>, b: Seq<Instr>)
    ensures
        store_offsets(a + b) == store_offsets(a) + store_offsets(b),
    decreases a.len(),
{
    if a.len() == 0 {
        assert(a + b =~= b);
        assert(store_offsets(a) + store_offsets(b) =~= store_offsets(b));
    } else {
        assert((a + b)[0] == a[0]);
        assert((a + b).drop_first() =~= a.drop_first() + b);
        lemma_store_offsets_concat(a.drop_first(), b);
        match a[0] {
            Instr::StorePrim(off) => {
                assert(seq![off] + (store_offsets(a.drop_first()) + store_offsets(b)) =~= (seq![
                    off,
                ] + store_offsets(a.drop_first())) + store_offsets(b));
            },
            _ => {},
        }
    }
}

/// Expression lowering stores nothing on the stack slots.
pub proof fn lemma_lower_expr_no_stores(e: Expr)
    ensures
        store_offsets(lower_expr(e)) == Seq::<int>::empty(),
    decreases e,
{
    reveal_with_fuel(store_offsets, 5);
    match e {
        Expr::Number(n) => {
            assert(seq![Instr::MovPrimImm(n)].drop_first() =~= Seq::<Instr>::empty());
        },
        Expr::Binary { left, op, right } => {
            let il = lower_expr(*left);
            let ir = lower_expr(*right);
            let ops = op_instrs(op);
            lemma_store_offsets_concat(il + seq![Instr::PushPrim] + ir + seq![Instr::PopSec], ops);
            lemma_store_offsets_concat(il + seq![Instr::PushPrim] + ir, seq![Instr::PopSec]);
            lemma_store_offsets_concat(il + seq![Instr::PushPrim], ir);
            lemma_store_offsets_concat(il, seq![Instr::PushPrim]);
            lemma_lower_expr_no_stores(*left);
            lemma_lower_expr_no_stores(*right);
            assert(store_offsets(seq![Instr::PushPrim]) =~= Seq::<int>::empty());
            assert(store_offsets(seq![Instr::PopSec]) =~= Seq::<int>::empty());
            match op {
                BinaryOp::Plus => {
                    assert(store_offsets(ops) =~= Seq::<int>::empty());
                },
                BinaryOp::Minus => {
                    assert(store_offsets(ops) =~= Seq::<int>::empty());
                },
                BinaryOp::Mul => {
                    assert(store_offsets(ops) =~= Seq::<int>::empty());
                },
                BinaryOp::Div => {
                    assert(store_offsets(ops) =~= Seq::<int>::empty());
                },
            }
            assert(store_offsets(lower_expr(e)) =~= Seq::<int>::empty());
        },
    }
}

/// One statement stores at its own offset alone: nothing for a return, and
/// exactly the given offset for a declaration.
pub proof fn lemma_lower_stmt_stores(s: Stmt, off: int)
    ensures
        store_offsets(lower_stmt(s, off)) == if s is VarDecl {
            seq![off]
        } else {
            Seq::<int>::empty()
        },
{
    reveal_with_fuel(store_offsets, 5);
    match s {
        Stmt::Return(e) => {
            lemma_store_offsets_concat(
                lower_expr(e),
                seq![Instr::MovArgPrim, Instr::MovPrimImm(60), Instr::Syscall],
            );
            lemma_lower_expr_no_stores(e);
            assert(store_offsets(seq![Instr::MovArgPrim, Instr::MovPrimImm(60), Instr::Syscall])
                =~= Seq::<int>::empty());
            assert(store_offsets(lower_stmt(s, off)) =~= Seq::<int>::empty());
        },
        Stmt::VarDecl { name, value } => {
            lemma_store_offsets_concat(
                lower_expr(value),
                seq![Instr::VarComment(name@), Instr::StorePrim(off)],
            );
            lemma_lower_expr_no_stores(value);
            assert(store_offsets(seq![Instr::VarComment(name@), Instr::StorePrim(off)]) =~= seq![
                off,
            ]);
            assert(store_offsets(lower_stmt(s, off)) =~= seq![off]);
        },
    }
}

pub proof fn lemma_program_store_offsets(stmts: Seq<Stmt>, off: int)
    ensures
        ({
            let offs = store_offsets(lower_program_from(stmts, off));
            &&& offs.len() == count_vars(stmts)
            &&& forall|k: int| 0 <= k < offs.len() ==> #[trigger] offs[k] == off + 8 * k
        }),
    decreases stmts.len(),
{
    if stmts.len() > 0 {
        let head = stmts[0];
        let rest = stmts.drop_first();
        lemma_store_offsets_concat(
            lower_stmt(head, off),
            lower_program_from(rest, next_off(head, off)),
        );
        lemma_lower_stmt_stores(head, off);
        lemma_program_store_offsets(rest, next_off(head, off));
    }
}

/// Stack offsets are one word apart and strictly increasing: a run with N
/// declarations stores at 8, 16, and so on up to 8 N, in order, whatever
/// the declared names and values are.
pub proof fn lemma_stack_offsets(stmts: Seq<Stmt>)
    ensures
        ({
            let offs = store_offsets(lower_program_from(stmts, 8));
            &&& offs.len() == count_vars(stmts)
            &&& forall|k: int| 0 <= k < offs.len() ==> #[trigger] offs[k] == 8 * (k + 1)
            &&& forall|k1: int, k2: int|
                0 <= k1 < k2 < offs.len() ==> #[trigger] offs[k1] < #[trigger] offs[k2]
        }),
{
    lemma_program_store_offsets(stmts, 8);
}

pub proof fn lemma_instr_lines_concat(a: Seq<Instr>, b: Seq<Instr>)
    ensures
        instr_lines(a + b) == instr_lines(a) + instr_lines(b),
{
    assert(instr_lines(a + b) =~= instr_lines(a) + instr_lines(b));
}

pub proof fn lemma_lines_view_push(v: Seq<String>, x: String)
    ensures
        lines_view(v.push(x)) == lines_view(v).push(x@),
{
    assert(lines_view(v.push(x)) =~= lines_view(v).push(x@));
}

/// The text that moves a literal into the primary register.
fn mov_prim_imm_line(n: i64) -> (s: String)
    ensures
        s@ == instr_text(Instr::MovPrimImm(n)),
{
    let mut s = String::from_str("    mov rax, ");
    let d = dec_i64(n);
    s.append(d.as_str());
    s
}

impl Expr {
    /// Append the instruction lines that leave this expression's value in
    /// the primary register, never assuming prior register contents beyond
    /// what the appended lines themselves establish.
    pub fn codegen_into(&self, lines: &mut Vec<String>)
        ensures
            lines_view(final(lines)@) == lines_view(old(lines)@) + instr_lines(lower_expr(*self)),
        decreases *self,
    {
        match self {
            Expr::Number(n) => {
                let line = mov_prim_imm_line(*n);
                proof {
                    lemma_lines_view_push(lines@, line);
                    assert(instr_lines(seq![Instr::MovPrimImm(*n)]) =~= seq![
                        instr_text(Instr::MovPrimImm(*n)),
                    ]);
                    assert(lines_view(lines@).push(line@) =~= lines_view(lines@) + instr_lines(
                        lower_expr(*self),
                    ));
                }
                lines.push(line);
            },
            Expr::Binary { left, op, right } => {
                let ghost v0 = lines@;
                left.codegen_into(lines);
                let push_line = String::from_str("    push rax");
                proof {
                    lemma_lines_view_push(lines@, push_line);
                }
                lines.push(push_line);
                right.codegen_into(lines);
                let pop_line = String::from_str("    pop rbx");
                proof {
                    lemma_lines_view_push(lines@, pop_line);
                }
                lines.push(pop_line);
                let ghost v4 = lines@;
                match op {
                    BinaryOp::Plus => {
                        let l1 = String::from_str("    add rax, rbx");
                        proof {
                            lemma_lines_view_push(lines@, l1);
                        }
                        lines.push(l1);
                        proof {
                            assert(lines_view(lines@) =~= lines_view(v4) + instr_lines(
                                op_instrs(*op),
                            ));
                        }
                    },
                    BinaryOp::Minus => {
                        let l1 = String::from_str("    mov rcx, rax");
                        proof {
                            lemma_lines_view_push(lines@, l1);
                        }
                        lines.push(l1);
                        let l2 = String::from_str("    mov rax, rbx");
                        proof {
                            lemma_lines_view_push(lines@, l2);
                        }
                        lines.push(l2);
                        let l3 = String::from_str("    sub rax, rcx");
                        proof {
                            lemma_lines_view_push(lines@, l3);
                        }
                        lines.push(l3);
                        proof {
                            assert(lines_view(lines@) =~= lines_view(v4) + instr_lines(
                                op_instrs(*op),
                            ));
                        }
                    },
                    BinaryOp::Mul => {
                        let l1 = String::from_str("    xchg rax, rbx");
                        proof {
                            lemma_lines_view_push(lines@, l1);
                        }
                        lines.push(l1);
                        let l2 = String::from_str("    imul rax, rbx");
                        proof {
                            lemma_lines_view_push(lines@, l2);
                        }
                        lines.push(l2);
                        proof {
                            assert(lines_view(lines@) =~= lines_view(v4) + instr_lines(
                                op_instrs(*op),
                            ));
                        }
                    },
                    BinaryOp::Div => {
                        let l1 = String::from_str("    xchg rax, rbx");
                        proof {
                            lemma_lines_view_push(lines@, l1);
                        }
                        lines.push(l1);
                        let l2 = String::from_str("    mov rdx, 0");
                        proof {
                            lemma_lines_view_push(lines@, l2);
                        }
                        lines.push(l2);
                        let l3 = String::from_str("    div rbx");
                        proof {
                            lemma_lines_view_push(lines@, l3);
                        }
                        lines.push(l3);
                        proof {
                            assert(lines_view(lines@) =~= lines_view(v4) + instr_lines(
                                op_instrs(*op),
                            ));
                        }
                    },
                }
                proof {
                    let il = lower_expr(**left);
                    let ir = lower_expr(**right);
                    let ops = op_instrs(*op);
                    lemma_instr_lines_concat(il + seq![Instr::PushPrim] + ir + seq![Instr::PopSec],
                        ops);
                    lemma_instr_lines_concat(il + seq![Instr::PushPrim] + ir, seq![Instr::PopSec]);
                    lemma_instr_lines_concat(il + seq![Instr::PushPrim], ir);
                    lemma_instr_lines_concat(il, seq![Instr::PushPrim]);
                    assert(instr_lines(seq![Instr::PushPrim]) =~= seq![
                        instr_text(Instr::PushPrim),
                    ]);
                    assert(instr_lines(seq![Instr::PopSec]) =~= seq![instr_text(Instr::PopSec)]);
                    assert(lines_view(lines@) =~= lines_view(v0) + instr_lines(lower_expr(*self)));
                }
            },
        }
    }

    /// The newline-joined instruction text of this expression.
    pub fn codegen(&self) -> (r: String)
        ensures
            r@ == join_lines(instr_lines(lower_expr(*self))),
    {
        let mut lines: Vec<String> = Vec::new();
        self.codegen_into(&mut lines);
        proof {
            assert(lines_view(Seq::<String>::empty()) =~= Seq::<Seq<char>>::empty());
            assert(Seq::<Seq<char>>::empty() + instr_lines(lower_expr(*self)) =~= instr_lines(
                lower_expr(*self),
            ));
        }
        join_lines_exec(&lines)
    }
}

impl Stmt {
    /// The newline-joined instruction text of this statement, storing a
    /// declared variable at the given stack offset.
    pub fn codegen(&self, stack_position: i32) -> (r: String)
        ensures
            r@ == join_lines(instr_lines(lower_stmt(*self, stack_position as int))),
    {
        let mut lines: Vec<String> = Vec::new();
        match self {
            Stmt::Return(expr) => {
                expr.codegen_into(&mut lines);
                let l1 = String::from_str("    mov rdi, rax");
                proof {
                    lemma_lines_view_push(lines@, l1);
                }
                lines.push(l1);
                let l2 = mov_prim_imm_line(60);
                proof {
                    lemma_lines_view_push(lines@, l2);
                }
                lines.push(l2);
                let l3 = String::from_str("    syscall");
                proof {
                    lemma_lines_view_push(lines@, l3);
                }
                lines.push(l3);
                proof {
                    let tail = seq![Instr::MovArgPrim, Instr::MovPrimImm(60), Instr::Syscall];
                    lemma_instr_lines_concat(lower_expr(*expr), tail);
                    assert(instr_lines(tail) =~= seq![
                        instr_text(Instr::MovArgPrim),
                        instr_text(Instr::MovPrimImm(60)),
                        instr_text(Instr::Syscall),
                    ]);
                    assert(lines_view(Seq::<String>::empty()) =~= Seq::<Seq<char>>::empty());
                    assert(lines_view(lines@) =~= instr_lines(
                        lower_stmt(*self, stack_position as int),
                    ));
                }
            },
            Stmt::VarDecl { name, value } => {
                value.codegen_into(&mut lines);
                let mut comment = String::from_str("    ; store var ");
                comment.append(name.as_str());
                comment.append(" on stack ");
                proof {
                    lemma_lines_view_push(lines@, comment);
                }
                lines.push(comment);
                let mut store = String::from_str("    mov [rsp - ");
                let d = dec_i64(stack_position as i64);
                store.append(d.as_str());
                store.append("], rax");
                proof {
                    lemma_lines_view_push(lines@, store);
                }
                lines.push(store);
                proof {
                    let tail = seq![
                        Instr::VarComment(name@),
                        Instr::StorePrim(stack_position as int),
                    ];
                    lemma_instr_lines_concat(lower_expr(*value), tail);
                    assert(instr_lines(tail) =~= seq![
                        instr_text(Instr::VarComment(name@)),
                        instr_text(Instr::StorePrim(stack_position as int)),
                    ]);
                    assert(lines_view(Seq::<String>::empty()) =~= Seq::<Seq<char>>::empty());
                    assert(lines_view(lines@) =~= instr_lines(
                        lower_stmt(*self, stack_position as int),
                    ));
                }
            },
        }
        join_lines_exec(&lines)
    }
}

pub proof fn lemma_count_vars_concat(a: Seq<Stmt>, b: Seq<Stmt>)
    ensures
        count_vars(a + b) == count_vars(a) + count_vars(b),
    decreases a.len(),
{
    if a.len() == 0 {
        assert(a + b =~= b);
    } else {
        assert((a + b)[0] == a[0]);
        assert((a + b).drop_first() =~= a.drop_first() + b);
        lemma_count_vars_concat(a.drop_first(), b);
    }
}

pub proof fn lemma_count_vars_nonneg(s: Seq<Stmt>)
    ensures
        count_vars(s) >= 0,
    decreases s.len(),
{
    if s.len() > 0 {
        lemma_count_vars_nonneg(s.drop_first());
    }
}

/// Lowering one more statement at the end continues at the offset that the
/// earlier declarations have used up.
pub proof fn lemma_lower_program_snoc(s: Seq<Stmt>, x: Stmt, off: int)
    ensures
        lower_program_from(s.push(x), off) == lower_program_from(s, off) + lower_stmt(
            x,
            off + 8 * count_vars(s),
        ),
    decreases s.len(),
{
    if s.len() == 0 {
        assert(s.push(x)[0] == x);
        assert(s.push(x).drop_first() =~= Seq::<Stmt>::empty());
        assert(lower_program_from(s.push(x).drop_first(), next_off(x, off)) == Seq::<
            Instr,
        >::empty());
        assert(lower_program_from(s.push(x), off) == lower_stmt(x, off) + Seq::<Instr>::empty());
        assert(lower_stmt(x, off) + Seq::<Instr>::empty() =~= lower_stmt(x, off));
        assert(lower_program_from(s, off) + lower_stmt(x, off) =~= lower_stmt(x, off));
    } else {
        assert(s.push(x)[0] == s[0]);
        assert(s.push(x).drop_first() =~= s.drop_first().push(x));
        lemma_lower_program_snoc(s.drop_first(), x, next_off(s[0], off));
        assert(next_off(s[0], off) + 8 * count_vars(s.drop_first()) == off + 8 * count_vars(s));
        assert(lower_stmt(s[0], off) + (lower_program_from(s.drop_first(), next_off(s[0], off))
            + lower_stmt(x, off + 8 * count_vars(s))) =~= (lower_stmt(s[0], off)
            + lower_program_from(s.drop_first(), next_off(s[0], off))) + lower_stmt(
            x,
            off + 8 * count_vars(s),
        ));
    }
}

/// Produce the newline-joined instruction text of a whole statement run,
/// threading the stack-offset counter across the run: the first declaration
/// stores one word below the stack reference, the next one word further,
/// and so on.
#[verifier::loop_isolation(false)]
pub fn generate(stmts: &Vec<Stmt>) -> (r: String)
    requires
        8 * count_vars(stmts@) + 8 <= i32::MAX,
    ensures
        r@ == join_lines(instr_lines(lower_program_from(stmts@, 8))),
{
    let mut out = String::new();
    let mut stack_pos: i32 = 8;
    let mut i: usize = 0;
    proof {
        lemma_count_vars_nonneg(stmts@);
        assert(stmts@.take(0) =~= Seq::<Stmt>::empty());
    }
    while i < stmts.len()
        invariant
            i <= stmts@.len(),
            stack_pos == 8 + 8 * count_vars(stmts@.take(i as int)),
            out@ == join_lines(instr_lines(lower_program_from(stmts@.take(i as int), 8))),
        decreases stmts@.len() - i,
    {
        proof {
            reveal_with_fuel(count_vars, 3);
            assert(stmts@.take(i + 1) =~= stmts@.take(i as int).push(stmts@[i as int]));
            lemma_lower_program_snoc(stmts@.take(i as int), stmts@[i as int], 8);
            assert(stmts@ =~= stmts@.take(i + 1) + stmts@.skip(i + 1));
            lemma_count_vars_concat(stmts@.take(i + 1), stmts@.skip(i + 1));
            lemma_count_vars_concat(stmts@.take(i as int), seq![stmts@[i as int]]);
            lemma_count_vars_nonneg(stmts@.skip(i + 1));
            assert(stmts@.take(i as int).push(stmts@[i as int]) =~= stmts@.take(i as int) + seq![
                stmts@[i as int],
            ]);
            assert(seq![stmts@[i as int]].drop_first() =~= Seq::<Stmt>::empty());
            assert(count_vars(seq![stmts@[i as int]]) == (if stmts@[i as int] is VarDecl {
                1int
            } else {
                0int
            }));
            assert(count_vars(stmts@.take(i + 1)) == count_vars(stmts@.take(i as int)) + (
            if stmts@[i as int] is VarDecl {
                1int
            } else {
                0int
            }));
            assert(count_vars(stmts@.take(i + 1)) <= count_vars(stmts@));
        }
        let block = stmts[i].codegen(stack_pos);
        if i == 0 {
            out = block;
            proof {
                assert(lower_program_from(stmts@.take(0), 8) =~= Seq::<Instr>::empty());
                assert(Seq::<Instr>::empty() + lower_stmt(stmts@[0], 8) =~= lower_stmt(
                    stmts@[0],
                    8,
                ));
            }
        } else {
            out.append("\n");
            out.append(block.as_str());
            proof {
                let a = instr_lines(lower_program_from(stmts@.take(i as int), 8));
                let b = instr_lines(lower_stmt(stmts@[i as int], stack_pos as int));
                lemma_instr_lines_concat(
                    lower_program_from(stmts@.take(i as int), 8),
                    lower_stmt(stmts@[i as int], stack_pos as int),
                );
                assert(a.len() > 0);
                assert(b.len() > 0);
                crate::text::lemma_join_lines_concat(a, b);
                reveal_strlit("\n");
                assert("\n"@ =~= seq!['\n']);
            }
        }
        let is_var = match &stmts[i] {
            Stmt::VarDecl { .. } => true,
            _ => false,
        };
        if is_var {
            stack_pos = stack_pos + 8;
        }
        i = i + 1;
    }
    proof {
        assert(stmts@.take(stmts@.len() as int) =~= stmts@);
    }
    out
}

} // verus!
