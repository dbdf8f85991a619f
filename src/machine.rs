use vstd::prelude::*;

use crate::codegen::{gen_code, op_code, program_code, Instr};
use crate::parser::{Node, NodeKind};

verus! {

pub open spec fn word() -> int {
    0x1_0000_0000_0000_0000
}

pub open spec fn in_i64(x: int) -> bool {
    i64::MIN <= x <= i64::MAX
}

/// `x` reduced to a signed 64-bit value, as the machine's arithmetic does.
pub open spec fn wrap(x: int) -> int {
    let m = x % word();
    if m > i64::MAX {
        m - word()
    } else {
        m
    }
}

/// Quotient of `a / b` rounded toward zero.
pub open spec fn trunc_div(a: int, b: int) -> int {
    let q = abs(a) / abs(b);
    if (a < 0) != (b < 0) {
        -q
    } else {
        q
    }
}

pub open spec fn abs(x: int) -> int {
    if x < 0 {
        -x
    } else {
        x
    }
}

/// The registers that the generated code uses, the operands of the last `cmp`, and
/// the stack (top last). Values are signed 64-bit integers.
pub struct State {
    pub rax: int,
    pub rdi: int,
    pub rdx: int,
    pub cmp: (int, int),
    pub stack: Seq<int>,
}

/// `x` with its low byte replaced by `b`, as a write to `al` does.
pub open spec fn set_low_byte(x: int, b: int) -> int {
    x - x % 256 + b
}

pub open spec fn flag(b: bool) -> int {
    if b {
        1
    } else {
        0
    }
}

/// One instruction; `None` where the machine faults (an empty stack, a division by
/// zero or a quotient out of range).
pub open spec fn step(i: Instr, s: State) -> Option<State> {
    match i {
        Instr::Push(v) => Some(State { stack: s.stack.push(v as int), ..s }),
        Instr::PopRdi => if s.stack.len() > 0 {
            Some(State { rdi: s.stack.last(), stack: s.stack.drop_last(), ..s })
        } else {
            None
        },
        Instr::PopRax => if s.stack.len() > 0 {
            Some(State { rax: s.stack.last(), stack: s.stack.drop_last(), ..s })
        } else {
            None
        },
        Instr::PushRax => Some(State { stack: s.stack.push(s.rax), ..s }),
        Instr::Add => Some(State { rax: wrap(s.rax + s.rdi), ..s }),
        Instr::Sub => Some(State { rax: wrap(s.rax - s.rdi), ..s }),
        Instr::Imul => Some(State { rax: wrap(s.rax * s.rdi), ..s }),
        Instr::Cqo => Some(State { rdx: if s.rax < 0 { -1 } else { 0 }, ..s }),
        Instr::Idiv => {
            let dividend = s.rdx * word() + s.rax % word();
            let q = trunc_div(dividend, s.rdi);
            if s.rdi == 0 || !in_i64(q) {
                None
            } else {
                Some(State { rax: q, rdx: dividend - q * s.rdi, ..s })
            }
        },
        Instr::Cmp => Some(State { cmp: (s.rax, s.rdi), ..s }),
        Instr::Sete => Some(State { rax: set_low_byte(s.rax, flag(s.cmp.0 == s.cmp.1)), ..s }),
        Instr::Setne => Some(State { rax: set_low_byte(s.rax, flag(s.cmp.0 != s.cmp.1)), ..s }),
        Instr::Setl => Some(State { rax: set_low_byte(s.rax, flag(s.cmp.0 < s.cmp.1)), ..s }),
        Instr::Setle => Some(State { rax: set_low_byte(s.rax, flag(s.cmp.0 <= s.cmp.1)), ..s }),
        Instr::Movzx => Some(State { rax: s.rax % 256, ..s }),
        Instr::Ret => Some(s),
    }
}

/// The instructions in order, from state `s`.
pub open spec fn exec_code(code: Seq<Instr>, s: State) -> Option<State>
    decreases code.len(),
{
    if code.len() == 0 {
        Some(s)
    } else {
        match step(code[0], s) {
            Some(s1) => exec_code(code.drop_first(), s1),
            None => None,
        }
    }
}

pub open spec fn initial() -> State {
    State { rax: 0, rdi: 0, rdx: 0, cmp: (0, 0), stack: Seq::empty() }
}

/// The value that a program returns: rax when it ends.
pub open spec fn run(code: Seq<Instr>) -> Option<int> {
    match exec_code(code, initial()) {
        Some(s) => Some(s.rax),
        None => None,
    }
}

/// The value of `a <kind> b`; `None` where it is not a signed 64-bit value or the
/// divisor is zero. A comparison is 1 when it holds and 0 when not.
pub open spec fn apply(kind: NodeKind, a: int, b: int) -> Option<int> {
    let v = match kind {
        NodeKind::Add => a + b,
        NodeKind::Sub => a - b,
        NodeKind::Mul => a * b,
        NodeKind::Div => trunc_div(a, b),
        NodeKind::Eq => flag(a == b),
        NodeKind::Ne => flag(a != b),
        NodeKind::Lt => flag(a < b),
        NodeKind::Le => flag(a <= b),
        NodeKind::Num(v) => v as int,
    };
    if (kind == NodeKind::Div && b == 0) || !in_i64(v) {
        None
    } else {
        Some(v)
    }
}

/// The value of a tree, where each step stays a signed 64-bit value.
pub open spec fn eval(n: Node) -> Option<int>
    decreases n,
{
    match n.kind {
        NodeKind::Num(v) => Some(v as int),
        _ => match (n.lhs, n.rhs) {
            (Some(l), Some(r)) => match (eval(*l), eval(*r)) {
                (Some(a), Some(b)) => apply(n.kind, a, b),
                _ => None,
            },
            _ => None,
        },
    }
}

pub proof fn lemma_exec_concat(a: Seq<Instr>, b: Seq<Instr>, s: State)
    ensures
        exec_code(a + b, s) == match exec_code(a, s) {
            Some(s1) => exec_code(b, s1),
            None => None,
        },
    decreases a.len(),
{
    if a.len() == 0 {
        assert(a + b =~= b);
    } else {
        assert((a + b).drop_first() =~= a.drop_first() + b);
        assert((a + b)[0] == a[0]);
        if let Some(s1) = step(a[0], s) {
            lemma_exec_concat(a.drop_first(), b, s1);
        }
    }
}

proof fn lemma_mod_word(x: int)
    requires
        in_i64(x),
    ensures
        x % word() == if x < 0 {
            x + word()
        } else {
            x
        },
        wrap(x) == x,
{
    if x < 0 {
        vstd::arithmetic::div_mod::lemma_mod_add_multiples_vanish(x, word());
        vstd::arithmetic::div_mod::lemma_small_mod((x + word()) as nat, word() as nat);
    } else {
        vstd::arithmetic::div_mod::lemma_small_mod(x as nat, word() as nat);
    }
}

proof fn lemma_low_byte(x: int, f: int)
    requires
        0 <= f < 256,
    ensures
        set_low_byte(x, f) % 256 == f,
{
    vstd::arithmetic::div_mod::lemma_fundamental_div_mod(x, 256);
    assert(set_low_byte(x, f) == 256 * (x / 256) + f);
    vstd::arithmetic::div_mod::lemma_mod_multiples_vanish(x / 256, f, 256);
    vstd::arithmetic::div_mod::lemma_small_mod(f as nat, 256);
}

proof fn lemma_exec_one(i: Instr, s: State)
    ensures
        exec_code(seq![i], s) == step(i, s),
{
    reveal_with_fuel(exec_code, 2);
    assert(seq![i].drop_first() =~= Seq::<Instr>::empty());
}

proof fn lemma_exec_two(i: Instr, j: Instr, s: State)
    ensures
        exec_code(seq![i, j], s) == match step(i, s) {
            Some(s1) => step(j, s1),
            None => None,
        },
{
    reveal_with_fuel(exec_code, 2);
    assert(seq![i, j].drop_first() =~= seq![j]);
    if let Some(s1) = step(i, s) {
        lemma_exec_one(j, s1);
    }
}

proof fn lemma_exec_three(i: Instr, j: Instr, k: Instr, s: State)
    ensures
        exec_code(seq![i, j, k], s) == match step(i, s) {
            Some(s1) => match step(j, s1) {
                Some(s2) => step(k, s2),
                None => None,
            },
            None => None,
        },
{
    reveal_with_fuel(exec_code, 2);
    assert(seq![i, j, k].drop_first() =~= seq![j, k]);
    if let Some(s1) = step(i, s) {
        lemma_exec_two(j, k, s1);
    }
}

proof fn lemma_div_code(s: State)
    requires
        in_i64(s.rax),
        in_i64(s.rdi),
        apply(NodeKind::Div, s.rax, s.rdi) is Some,
    ensures
        exec_code(op_code(NodeKind::Div), s) is Some,
        exec_code(op_code(NodeKind::Div), s)->0.rax == apply(NodeKind::Div, s.rax, s.rdi)->0,
        exec_code(op_code(NodeKind::Div), s)->0.stack == s.stack,
{
    lemma_mod_word(s.rax);
    lemma_exec_two(Instr::Cqo, Instr::Idiv, s);
    let s1 = step(Instr::Cqo, s)->0;
    assert(s1.rdx * word() + s1.rax % word() == s.rax);
}

proof fn lemma_cmp_code(kind: NodeKind, s: State)
    requires
        kind is Eq || kind is Ne || kind is Lt || kind is Le,
    ensures
        exec_code(op_code(kind), s) is Some,
        exec_code(op_code(kind), s)->0.rax == apply(kind, s.rax, s.rdi)->0,
        exec_code(op_code(kind), s)->0.stack == s.stack,
{
    let code = op_code(kind);
    lemma_exec_three(code[0], code[1], code[2], s);
    assert(code =~= seq![code[0], code[1], code[2]]);
    let s1 = step(code[0], s)->0;
    let f = apply(kind, s.rax, s.rdi)->0;
    lemma_low_byte(s1.rax, f);
}

/// With the left operand in rax and the right in rdi, an operator's code leaves its
/// value in rax and the stack as it was.
proof fn lemma_op_code(kind: NodeKind, s: State)
    requires
        !(kind is Num),
        in_i64(s.rax),
        in_i64(s.rdi),
        apply(kind, s.rax, s.rdi) is Some,
    ensures
        exec_code(op_code(kind), s) is Some,
        exec_code(op_code(kind), s)->0.rax == apply(kind, s.rax, s.rdi)->0,
        exec_code(op_code(kind), s)->0.stack == s.stack,
{
    match kind {
        NodeKind::Add | NodeKind::Sub | NodeKind::Mul => {
            lemma_mod_word(apply(kind, s.rax, s.rdi)->0);
            lemma_exec_one(op_code(kind)[0], s);
            assert(op_code(kind) =~= seq![op_code(kind)[0]]);
        },
        NodeKind::Div => {
            lemma_div_code(s);
        },
        _ => {
            lemma_cmp_code(kind, s);
        },
    }
}

/// The code of a tree whose value is defined pushes that value and leaves the rest of
/// the stack as it was.
pub proof fn lemma_gen_pushes_value(n: Node, s: State)
    requires
        eval(n) is Some,
    ensures
        exec_code(gen_code(n), s) is Some,
        exec_code(gen_code(n), s)->0.stack == s.stack.push(eval(n)->0),
    decreases n,
{
    match n.kind {
        NodeKind::Num(v) => {
            lemma_exec_one(Instr::Push(v), s);
        },
        _ => {
            let l = *n.lhs->0;
            let r = *n.rhs->0;
            let a = eval(l)->0;
            let b = eval(r)->0;
            lemma_gen_pushes_value(l, s);
            let s1 = exec_code(gen_code(l), s)->0;
            lemma_gen_pushes_value(r, s1);
            let s2 = exec_code(gen_code(r), s1)->0;
            lemma_eval_in_range(l);
            lemma_eval_in_range(r);
            let pops = seq![Instr::PopRdi, Instr::PopRax];
            lemma_exec_two(Instr::PopRdi, Instr::PopRax, s2);
            let s3 = exec_code(pops, s2)->0;
            assert(s2.stack.drop_last() =~= s1.stack);
            assert(s1.stack.drop_last() =~= s.stack);
            assert(s3.rdi == b && s3.rax == a && s3.stack == s.stack);
            lemma_op_code(n.kind, s3);
            let s4 = exec_code(op_code(n.kind), s3)->0;
            let push = seq![Instr::PushRax];
            lemma_exec_one(Instr::PushRax, s4);
            let c1 = gen_code(l);
            let c2 = gen_code(r);
            lemma_exec_concat(c1, c2, s);
            lemma_exec_concat(c1 + c2, pops, s);
            lemma_exec_concat(c1 + c2 + pops, op_code(n.kind), s);
            lemma_exec_concat(c1 + c2 + pops + op_code(n.kind), push, s);
        },
    }
}

/// A defined value is a signed 64-bit value.
pub proof fn lemma_eval_in_range(n: Node)
    requires
        eval(n) is Some,
    ensures
        in_i64(eval(n)->0),
    decreases n,
{
    match n.kind {
        NodeKind::Num(v) => {},
        _ => {},
    }
}

/// The program of a tree returns the tree's value, wherever that value is defined.
pub proof fn law_program_returns_value(n: Node)
    requires
        eval(n) is Some,
    ensures
        run(program_code(n)) == eval(n),
{
    lemma_gen_pushes_value(n, initial());
    let s1 = exec_code(gen_code(n), initial())->0;
    lemma_exec_concat(gen_code(n), seq![Instr::PopRax, Instr::Ret], initial());
    lemma_exec_two(Instr::PopRax, Instr::Ret, s1);
}

} // verus!
