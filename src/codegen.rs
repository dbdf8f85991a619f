use vstd::prelude::*;

use crate::literal::{all_digits, decimal_value, is_digit};
use crate::parser::{Node, NodeKind};

verus! {

/// An instruction of the target stack machine (x86-64, Intel syntax).
#[derive(Clone, Copy, Debug, PartialEq, Eq, Structural)]
pub enum Instr {
    /// `push <value>`
    Push(isize),
    /// `pop rdi`
    PopRdi,
    /// `pop rax`
    PopRax,
    /// `push rax`
    PushRax,
    /// `add rax, rdi`
    Add,
    /// `sub rax, rdi`
    Sub,
    /// `imul rax, rdi`
    Imul,
    /// `cqo`: sign-extends rax into rdx:rax
    Cqo,
    /// `idiv rdi`
    Idiv,
    /// `cmp rax, rdi`
    Cmp,
    /// `sete al`
    Sete,
    /// `setne al`
    Setne,
    /// `setl al`
    Setl,
    /// `setle al`
    Setle,
    /// `movzx rax, al`
    Movzx,
    /// `ret`
    Ret,
}

/// What an operator node does once its operands are in rax (left) and rdi (right).
pub open spec fn op_code(kind: NodeKind) -> Seq<Instr> {
    match kind {
        NodeKind::Add => seq![Instr::Add],
        NodeKind::Sub => seq![Instr::Sub],
        NodeKind::Mul => seq![Instr::Imul],
        NodeKind::Div => seq![Instr::Cqo, Instr::Idiv],
        NodeKind::Eq => seq![Instr::Cmp, Instr::Sete, Instr::Movzx],
        NodeKind::Ne => seq![Instr::Cmp, Instr::Setne, Instr::Movzx],
        NodeKind::Lt => seq![Instr::Cmp, Instr::Setl, Instr::Movzx],
        NodeKind::Le => seq![Instr::Cmp, Instr::Setle, Instr::Movzx],
        NodeKind::Num(_) => seq![],
    }
}

/// Post-order code for a tree: a number is pushed; an operator node runs the code of
/// its left operand, then of its right, pops them into rdi and rax, computes into rax
/// and pushes rax.
pub open spec fn gen_code(n: Node) -> Seq<Instr>
    decreases n,
{
    match n.kind {
        NodeKind::Num(v) => seq![Instr::Push(v)],
        _ => {
            let l = match n.lhs {
                Some(l) => gen_code(*l),
                None => seq![],
            };
            let r = match n.rhs {
                Some(r) => gen_code(*r),
                None => seq![],
            };
            l + r + seq![Instr::PopRdi, Instr::PopRax] + op_code(n.kind) + seq![Instr::PushRax]
        },
    }
}

/// The whole program for a tree: its code, then the value on top of the stack is
/// popped into rax and returned.
pub open spec fn program_code(n: Node) -> Seq<Instr> {
    gen_code(n) + seq![Instr::PopRax, Instr::Ret]
}

fn push_op_code(kind: NodeKind, code: &mut Vec<Instr>)
    ensures
        final(code)@ == old(code)@ + op_code(kind),
{
    let ghost before = code@;
    match kind {
        NodeKind::Add => code.push(Instr::Add),
        NodeKind::Sub => code.push(Instr::Sub),
        NodeKind::Mul => code.push(Instr::Imul),
        NodeKind::Div => {
            code.push(Instr::Cqo);
            code.push(Instr::Idiv);
        },
        NodeKind::Eq | NodeKind::Ne | NodeKind::Lt | NodeKind::Le => {
            code.push(Instr::Cmp);
            match kind {
                NodeKind::Eq => code.push(Instr::Sete),
                NodeKind::Ne => code.push(Instr::Setne),
                NodeKind::Lt => code.push(Instr::Setl),
                _ => code.push(Instr::Setle),
            }
            code.push(Instr::Movzx);
        },
        NodeKind::Num(_) => {},
    }
    assert(code@ =~= before + op_code(kind));
}

/// Appends the code for `node` (see `gen_code`).
pub fn gen(node: &Node, code: &mut Vec<Instr>)
    ensures
        final(code)@ == old(code)@ + gen_code(*node),
    decreases node,
{
    let ghost before = code@;
    if let NodeKind::Num(num) = node.kind {
        code.push(Instr::Push(num));
        assert(code@ =~= before + gen_code(*node));
        return;
    }
    if let Some(lhs) = &node.lhs {
        gen(lhs, code);
    }
    let ghost mid = code@;
    if let Some(rhs) = &node.rhs {
        gen(rhs, code);
    }
    let ghost mid2 = code@;
    code.push(Instr::PopRdi);
    code.push(Instr::PopRax);
    let ghost mid3 = code@;
    push_op_code(node.kind, code);
    code.push(Instr::PushRax);
    assert(code@ =~= before + gen_code(*node));
}

/// The whole program for `node` (see `program_code`).
pub fn program(node: &Node) -> (r: Vec<Instr>)
    ensures
        r@ == program_code(*node),
{
    let mut code: Vec<Instr> = Vec::new();
    gen(node, &mut code);
    code.push(Instr::PopRax);
    code.push(Instr::Ret);
    assert(code@ =~= program_code(*node));
    code
}

pub open spec fn digit_char(d: int) -> char {
    ('0' as int + d) as char
}

/// Decimal digits of `n`, most significant first, without leading zeros.
pub open spec fn nat_text(n: nat) -> Seq<char>
    decreases n,
{
    if n < 10 {
        seq![digit_char(n as int)]
    } else {
        nat_text(n / 10).push(digit_char((n % 10) as int))
    }
}

/// Decimal text of `v`, with `-` in front when it is negative.
pub open spec fn int_text(v: int) -> Seq<char> {
    if v < 0 {
        seq!['-'] + nat_text((-v) as nat)
    } else {
        nat_text(v as nat)
    }
}

fn digit_str(d: u128) -> (r: &'static str)
    requires
        d < 10,
    ensures
        r@ == seq![digit_char(d as int)],
{
    proof {
        reveal_strlit("0");
        reveal_strlit("1");
        reveal_strlit("2");
        reveal_strlit("3");
        reveal_strlit("4");
        reveal_strlit("5");
        reveal_strlit("6");
        reveal_strlit("7");
        reveal_strlit("8");
        reveal_strlit("9");
    }
    let r = match d {
        0 => "0",
        1 => "1",
        2 => "2",
        3 => "3",
        4 => "4",
        5 => "5",
        6 => "6",
        7 => "7",
        8 => "8",
        _ => "9",
    };
    assert(r@ =~= seq![digit_char(d as int)]);
    r
}

fn append_nat(n: u128, s: &mut String)
    ensures
        final(s)@ == old(s)@ + nat_text(n as nat),
    decreases n,
{
    let ghost before = s@;
    if n >= 10 {
        append_nat(n / 10, s);
    }
    s.append(digit_str(n % 10));
    assert(s@ =~= before + nat_text(n as nat));
}

/// Decimal text of `v`.
pub fn decimal_text(v: isize) -> (r: String)
    ensures
        r@ == int_text(v as int),
{
    let mut s = String::new();
    if v < 0 {
        proof {
            reveal_strlit("-");
        }
        s.append("-");
        append_nat((-(v as i128)) as u128, &mut s);
    } else {
        append_nat(v as u128, &mut s);
    }
    s
}

impl Instr {
    /// The instruction as a line of assembly.
    pub open spec fn line(self) -> Seq<char> {
        match self {
            Instr::Push(v) => "  push "@ + int_text(v as int),
            Instr::PopRdi => "  pop rdi"@,
            Instr::PopRax => "  pop rax"@,
            Instr::PushRax => "  push rax"@,
            Instr::Add => "  add rax, rdi"@,
            Instr::Sub => "  sub rax, rdi"@,
            Instr::Imul => "  imul rax, rdi"@,
            Instr::Cqo => "  cqo"@,
            Instr::Idiv => "  idiv rdi"@,
            Instr::Cmp => "  cmp rax, rdi"@,
            Instr::Sete => "  sete al"@,
            Instr::Setne => "  setne al"@,
            Instr::Setl => "  setl al"@,
            Instr::Setle => "  setle al"@,
            Instr::Movzx => "  movzx rax, al"@,
            Instr::Ret => "  ret"@,
        }
    }

    /// The instruction as a line of assembly (see `line`).
    pub fn text(&self) -> (r: String)
        ensures
            r@ == self.line(),
    {
        match self {
            Instr::Push(v) => {
                let s = "  push ".to_owned();
                s.concat(decimal_text(*v).as_str())
            },
            Instr::PopRdi => "  pop rdi".to_owned(),
            Instr::PopRax => "  pop rax".to_owned(),
            Instr::PushRax => "  push rax".to_owned(),
            Instr::Add => "  add rax, rdi".to_owned(),
            Instr::Sub => "  sub rax, rdi".to_owned(),
            Instr::Imul => "  imul rax, rdi".to_owned(),
            Instr::Cqo => "  cqo".to_owned(),
            Instr::Idiv => "  idiv rdi".to_owned(),
            Instr::Cmp => "  cmp rax, rdi".to_owned(),
            Instr::Sete => "  sete al".to_owned(),
            Instr::Setne => "  setne al".to_owned(),
            Instr::Setl => "  setl al".to_owned(),
            Instr::Setle => "  setle al".to_owned(),
            Instr::Movzx => "  movzx rax, al".to_owned(),
            Instr::Ret => "  ret".to_owned(),
        }
    }
}

/// The assembly listing of a program: directives, the `main` label, then one line per
/// instruction.
pub open spec fn listing_lines(code: Seq<Instr>) -> Seq<Seq<char>> {
    seq![".intel_syntax noprefix"@, ".globl main"@, "main:"@] + code.map_values(
        |i: Instr| i.line(),
    )
}

/// The assembly listing of `code` (see `listing_lines`).
pub fn listing(code: &Vec<Instr>) -> (r: Vec<String>)
    ensures
        r@.map_values(|s: String| s@) == listing_lines(code@),
{
    let mut r: Vec<String> = Vec::new();
    r.push(".intel_syntax noprefix".to_owned());
    r.push(".globl main".to_owned());
    r.push("main:".to_owned());
    assert(r@[0]@ == listing_lines(code@)[0]);
    assert(r@[1]@ == listing_lines(code@)[1]);
    assert(r@[2]@ == listing_lines(code@)[2]);
    let mut k: usize = 0;
    while k < code.len()
        invariant
            k <= code.len(),
            r.len() == 3 + k,
            forall|j: int| 0 <= j < r.len() ==> #[trigger] r@[j]@ == listing_lines(code@)[j],
        decreases code.len() - k,
    {
        r.push(code[k].text());
        k = k + 1;
    }
    assert(r@.map_values(|s: String| s@) =~= listing_lines(code@));
    r
}

/// `nat_text(v)` is a decimal literal that writes `v`, and begins with `0` only when
/// it is `0` itself.
pub proof fn lemma_nat_text(v: nat)
    ensures
        all_digits(nat_text(v)),
        decimal_value(nat_text(v)) == v,
        nat_text(v).len() >= 1,
        nat_text(v)[0] == '0' ==> v == 0 && nat_text(v).len() == 1,
    decreases v,
{
    assert(digit_char((v % 10) as int) as int == '0' as int + v % 10);
    if v >= 10 {
        lemma_nat_text(v / 10);
        let t = nat_text(v);
        assert(t.drop_last() =~= nat_text(v / 10));
        assert(t[0] == nat_text(v / 10)[0]);
        assert forall|k: int| 0 <= k < t.len() implies is_digit(#[trigger] t[k]) by {
            if k < t.len() - 1 {
                assert(t[k] == nat_text(v / 10)[k]);
            }
        }
        vstd::arithmetic::div_mod::lemma_fundamental_div_mod(v as int, 10);
        assert(t.last() == digit_char((v % 10) as int));
        assert(decimal_value(t) == (v / 10) * 10 + v % 10);
    } else {
        assert(nat_text(v).drop_last() =~= Seq::<char>::empty());
        assert(decimal_value(Seq::<char>::empty()) == 0);
        vstd::arithmetic::div_mod::lemma_small_mod(v, 10);
        assert(nat_text(v).last() == digit_char((v % 10) as int));
    }
}

} // verus!
