use vstd::prelude::*;

use crate::codegen::{
    int_text, lemma_nat_text, listing_lines, nat_text, program, program_code, Instr,
};
use crate::lexer::{
    lemma_lex_end, lemma_lex_number, lemma_lex_symbol, lex, LexError, Lexer, Reserved,
};
use crate::machine::{eval, in_i64, law_program_returns_value, run, trunc_div};
use crate::parser::{
    bin, binary_node, is_binary, is_relational, leaf, lemma_parse_binary, lemma_parse_negated,
    lemma_expr_wf, lemma_parse_number, parse_tokens, Node, NodeKind, Parser, SyntaxError,
};

verus! {

/// Why an input could not be compiled.
#[derive(Clone, Copy, Debug, PartialEq, Eq, Structural)]
pub enum CompileError {
    Lex(LexError),
    Syntax(SyntaxError),
}

/// The tree of a whole input: its tokens, then one expression that uses them all.
pub open spec fn parse_spec(cs: Seq<char>) -> Result<Node, CompileError> {
    match lex(cs, 0) {
        Err(e) => Err(CompileError::Lex(e)),
        Ok(t) => match parse_tokens(t) {
            Err(e) => Err(CompileError::Syntax(e)),
            Ok(n) => Ok(n),
        },
    }
}

/// The program of a whole input.
pub open spec fn compile_spec(cs: Seq<char>) -> Result<Seq<Instr>, CompileError> {
    match parse_spec(cs) {
        Err(e) => Err(e),
        Ok(n) => Ok(program_code(n)),
    }
}

/// Splits `input` into tokens and parses them as one expression.
pub fn parse(input: &String) -> (r: Result<Node, CompileError>)
    ensures
        match r {
            Ok(n) => parse_spec(input@) == Ok::<Node, CompileError>(n),
            Err(e) => parse_spec(input@) == Err::<Node, CompileError>(e),
        },
        r is Ok ==> r->Ok_0.wf(),
{
    let mut lexer = Lexer::new(input);
    if let Err(e) = lexer.tokenize() {
        return Err(CompileError::Lex(e));
    }
    let mut parser = Parser::new(lexer);
    let ghost t = parser.lexer.tokens@;
    let node = match parser.expr() {
        Ok(node) => node,
        Err(e) => {
            return Err(CompileError::Syntax(e));
        },
    };
    proof {
        lemma_expr_wf(t, 0);
    }
    if !parser.lexer.at_eof() {
        return Err(
            CompileError::Syntax(SyntaxError::TrailingInput { pos: parser.lexer.token_pos() }),
        );
    }
    Ok(node)
}

/// Compiles `input` to a program for the stack machine.
pub fn compile(input: &String) -> (r: Result<Vec<Instr>, CompileError>)
    ensures
        match r {
            Ok(code) => compile_spec(input@) == Ok::<Seq<Instr>, CompileError>(code@),
            Err(e) => compile_spec(input@) == Err::<Seq<Instr>, CompileError>(e),
        },
{
    match parse(input) {
        Ok(node) => Ok(program(&node)),
        Err(e) => Err(e),
    }
}

impl CompileError {
    /// The character index that the error points at; none for an out-of-range number.
    pub open spec fn spec_pos(self) -> Option<usize> {
        match self {
            CompileError::Lex(LexError::UnexpectedChar { pos }) => Some(pos),
            CompileError::Lex(LexError::InvalidOperator { pos }) => Some(pos),
            CompileError::Lex(LexError::NumberOutOfRange) => None,
            CompileError::Syntax(SyntaxError::Expected { pos, .. }) => Some(pos),
            CompileError::Syntax(SyntaxError::ExpectedNumber { pos }) => Some(pos),
            CompileError::Syntax(SyntaxError::UnexpectedToken { pos }) => Some(pos),
            CompileError::Syntax(SyntaxError::TrailingInput { pos }) => Some(pos),
        }
    }

    /// The character index that the error points at (see `spec_pos`).
    pub fn pos(&self) -> (r: Option<usize>)
        ensures
            r == self.spec_pos(),
    {
        match *self {
            CompileError::Lex(LexError::UnexpectedChar { pos }) => Some(pos),
            CompileError::Lex(LexError::InvalidOperator { pos }) => Some(pos),
            CompileError::Lex(LexError::NumberOutOfRange) => None,
            CompileError::Syntax(SyntaxError::Expected { pos, .. }) => Some(pos),
            CompileError::Syntax(SyntaxError::ExpectedNumber { pos }) => Some(pos),
            CompileError::Syntax(SyntaxError::UnexpectedToken { pos }) => Some(pos),
            CompileError::Syntax(SyntaxError::TrailingInput { pos }) => Some(pos),
        }
    }
}

/// The text `a <op> b` with decimal literals and no white space.
pub open spec fn binary_input(a: nat, op: Reserved, b: nat) -> Seq<char> {
    nat_text(a) + op.text() + nat_text(b)
}

/// The value of `a <op> b` for an arithmetic symbol; division rounds toward zero.
pub open spec fn arith(op: Reserved, a: int, b: int) -> int {
    match op {
        Reserved::Plus => a + b,
        Reserved::Minus => a - b,
        Reserved::Asterisk => a * b,
        _ => trunc_div(a, b),
    }
}

pub open spec fn is_arith(op: Reserved) -> bool {
    op == Reserved::Plus || op == Reserved::Minus || op == Reserved::Asterisk || op
        == Reserved::Slash
}

/// Whether `a <op> b` holds for a comparison symbol.
pub open spec fn holds(op: Reserved, a: int, b: int) -> bool {
    match op {
        Reserved::Eq => a == b,
        Reserved::Ne => a != b,
        Reserved::Lt => a < b,
        Reserved::Le => a <= b,
        Reserved::Gt => a > b,
        _ => a >= b,
    }
}

pub open spec fn is_comparison(op: Reserved) -> bool {
    op == Reserved::Eq || op == Reserved::Ne || is_relational(op)
}

/// `a <op> b` parses to the symbol's tree over the two literals.
pub proof fn lemma_binary_input_parses(a: nat, op: Reserved, b: nat)
    requires
        a <= isize::MAX,
        b <= isize::MAX,
        is_binary(op),
    ensures
        parse_spec(binary_input(a, op, b)) == Ok::<Node, CompileError>(
            binary_node(op, leaf(a as isize), leaf(b as isize)),
        ),
{
    let ta = nat_text(a);
    let tb = nat_text(b);
    let cs = binary_input(a, op, b);
    let la = ta.len() as int;
    let lo = op.text().len() as int;
    lemma_nat_text(a);
    lemma_nat_text(b);
    assert(cs.subrange(0, la) =~= ta);
    assert(cs.subrange(la, la + lo) =~= op.text());
    assert(cs.subrange(la + lo, cs.len() as int) =~= tb);
    assert(cs[la] == op.text()[0]);
    assert(cs[la + lo] == tb[0]);
    lemma_lex_number(cs, 0, la, a);
    lemma_lex_symbol(cs, la, op);
    lemma_lex_number(cs, la + lo, cs.len() as int, b);
    lemma_lex_end(cs);
    let t = lex(cs, 0)->Ok_0;
    assert(t.len() == 4);
    lemma_parse_binary(t, a as isize, op, b as isize);
}

proof fn lemma_eval_binary(a: nat, op: Reserved, b: nat)
    requires
        a <= isize::MAX,
        b <= isize::MAX,
        is_binary(op),
    ensures
        is_arith(op) && !(op == Reserved::Slash && b == 0) && in_i64(arith(op, a as int, b as int))
            ==> eval(binary_node(op, leaf(a as isize), leaf(b as isize))) == Some(
            arith(op, a as int, b as int),
        ),
        is_comparison(op) ==> eval(binary_node(op, leaf(a as isize), leaf(b as isize))) == Some(
            if holds(op, a as int, b as int) {
                1int
            } else {
                0int
            },
        ),
{
    assert(isize::MAX <= i64::MAX);
    assert(eval(leaf(a as isize)) == Some(a as int));
    assert(eval(leaf(b as isize)) == Some(b as int));
}

/// An input that is one integer compiles to a program that returns that integer.
pub proof fn law_integer_input_returns_it(v: int)
    requires
        -isize::MAX <= v <= isize::MAX,
    ensures
        compile_spec(int_text(v)) is Ok,
        run(compile_spec(int_text(v))->Ok_0) == Some(v),
{
    let cs = int_text(v);
    if v >= 0 {
        assert(cs.subrange(0, cs.len() as int) =~= cs);
        lemma_lex_number(cs, 0, cs.len() as int, v as nat);
        lemma_lex_end(cs);
        lemma_parse_number(lex(cs, 0)->Ok_0, v as isize);
        law_program_returns_value(leaf(v as isize));
    } else {
        let m = (-v) as nat;
        lemma_nat_text(m);
        assert(cs.subrange(1, cs.len() as int) =~= nat_text(m));
        lemma_lex_number(cs, 1, cs.len() as int, m);
        lemma_lex_end(cs);
        assert(Reserved::of_char(cs[0]) == Some(Reserved::Minus));
        lemma_parse_negated(lex(cs, 0)->Ok_0, m as isize);
        assert(isize::MAX <= i64::MAX);
        assert(eval(leaf(m as isize)) == Some(m as int));
        assert(eval(leaf(0)) == Some(0int));
        assert(eval(bin(NodeKind::Sub, leaf(0), leaf(m as isize))) == Some(v));
        law_program_returns_value(bin(NodeKind::Sub, leaf(0), leaf(m as isize)));
    }
}

/// `a <op> b` with `+ - * /` returns the integer result, where the divisor is not zero
/// and the result is a signed 64-bit value.
pub proof fn law_arithmetic_input(a: nat, op: Reserved, b: nat)
    requires
        a <= isize::MAX,
        b <= isize::MAX,
        is_arith(op),
        op == Reserved::Slash ==> b != 0,
        in_i64(arith(op, a as int, b as int)),
    ensures
        compile_spec(binary_input(a, op, b)) is Ok,
        run(compile_spec(binary_input(a, op, b))->Ok_0) == Some(arith(op, a as int, b as int)),
{
    lemma_binary_input_parses(a, op, b);
    lemma_eval_binary(a, op, b);
    law_program_returns_value(binary_node(op, leaf(a as isize), leaf(b as isize)));
}

/// `a <op> b` with a comparison symbol returns 1 when it holds and 0 when not.
pub proof fn law_comparison_input(a: nat, op: Reserved, b: nat)
    requires
        a <= isize::MAX,
        b <= isize::MAX,
        is_comparison(op),
    ensures
        compile_spec(binary_input(a, op, b)) is Ok,
        run(compile_spec(binary_input(a, op, b))->Ok_0) == Some(
            if holds(op, a as int, b as int) {
                1int
            } else {
                0int
            },
        ),
{
    lemma_binary_input_parses(a, op, b);
    lemma_eval_binary(a, op, b);
    law_program_returns_value(binary_node(op, leaf(a as isize), leaf(b as isize)));
}

/// `a > b` is kept as the same tree as `b < a`, and `a >= b` as `b <= a`; so their
/// programs are the same too.
pub proof fn law_greater_is_swapped_less(a: nat, b: nat)
    requires
        a <= isize::MAX,
        b <= isize::MAX,
    ensures
        parse_spec(binary_input(a, Reserved::Gt, b)) is Ok,
        parse_spec(binary_input(a, Reserved::Gt, b)) == parse_spec(
            binary_input(b, Reserved::Lt, a),
        ),
        parse_spec(binary_input(a, Reserved::Ge, b)) == parse_spec(
            binary_input(b, Reserved::Le, a),
        ),
        compile_spec(binary_input(a, Reserved::Gt, b)) == compile_spec(
            binary_input(b, Reserved::Lt, a),
        ),
        compile_spec(binary_input(a, Reserved::Ge, b)) == compile_spec(
            binary_input(b, Reserved::Le, a),
        ),
{
    lemma_binary_input_parses(a, Reserved::Gt, b);
    lemma_binary_input_parses(b, Reserved::Lt, a);
    lemma_binary_input_parses(a, Reserved::Ge, b);
    lemma_binary_input_parses(b, Reserved::Le, a);
}

/// Compiling is a function of the input text: the same text gives the same program
/// and the same listing.
pub proof fn law_same_input_same_output(s1: Seq<char>, s2: Seq<char>)
    requires
        s1 == s2,
    ensures
        compile_spec(s1) == compile_spec(s2),
        compile_spec(s1) is Ok ==> listing_lines(compile_spec(s1)->Ok_0) == listing_lines(
            compile_spec(s2)->Ok_0,
        ),
{
}

} // verus!
