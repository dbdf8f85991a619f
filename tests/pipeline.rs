use exprcc::codegen::{decimal_text, gen, listing, program, Instr};
use exprcc::compiler::{compile, parse, CompileError};
use exprcc::lexer::{LexError, Lexer, Reserved};
use exprcc::parser::{Node, NodeKind, Parser, SyntaxError};

/// Runs a program on a model of the x86-64 registers it uses and returns rax.
fn run(code: &[Instr]) -> i64 {
    let (mut rax, mut rdi, mut rdx): (i64, i64, i64) = (0, 0, 0);
    let mut cmp: (i64, i64) = (0, 0);
    let mut stack: Vec<i64> = Vec::new();
    for ins in code {
        match *ins {
            Instr::Push(v) => stack.push(v as i64),
            Instr::PopRdi => rdi = stack.pop().unwrap(),
            Instr::PopRax => rax = stack.pop().unwrap(),
            Instr::PushRax => stack.push(rax),
            Instr::Add => rax = rax.wrapping_add(rdi),
            Instr::Sub => rax = rax.wrapping_sub(rdi),
            Instr::Imul => rax = rax.wrapping_mul(rdi),
            Instr::Cqo => rdx = if rax < 0 { -1 } else { 0 },
            Instr::Idiv => {
                let dividend = ((rdx as i128) << 64) | (rax as u64 as i128);
                let q = dividend / rdi as i128;
                rdx = (dividend % rdi as i128) as i64;
                rax = q as i64;
            }
            Instr::Cmp => cmp = (rax, rdi),
            Instr::Sete => rax = (rax & !0xff) | (cmp.0 == cmp.1) as i64,
            Instr::Setne => rax = (rax & !0xff) | (cmp.0 != cmp.1) as i64,
            Instr::Setl => rax = (rax & !0xff) | (cmp.0 < cmp.1) as i64,
            Instr::Setle => rax = (rax & !0xff) | (cmp.0 <= cmp.1) as i64,
            Instr::Movzx => rax &= 0xff,
            Instr::Ret => break,
        }
    }
    let _ = rdx;
    rax
}

fn value_of(input: &str) -> i64 {
    run(&compile(&input.to_string()).unwrap())
}

fn error_of(input: &str) -> CompileError {
    compile(&input.to_string()).unwrap_err()
}

fn num(v: isize) -> Node {
    Node::new(NodeKind::Num(v), None, None)
}

fn node(kind: NodeKind, l: Node, r: Node) -> Node {
    Node::new(kind, Some(Box::new(l)), Some(Box::new(r)))
}

#[test]
fn integer_input_returns_it() {
    assert_eq!(42, value_of("42"));
    assert_eq!(0, value_of("0"));
    assert_eq!(-7, value_of("-7"));
    assert_eq!(isize::MAX as i64, value_of("9223372036854775807"));
    assert_eq!(5, value_of("  5  "));
}

#[test]
fn arithmetic_input_returns_result() {
    assert_eq!(7, value_of("3+4"));
    assert_eq!(6, value_of("10-4"));
    assert_eq!(-6, value_of("4-10"));
    assert_eq!(42, value_of("6*7"));
    assert_eq!(3, value_of("7/2"));
    assert_eq!(-3, value_of("-7/2"));
    assert_eq!(-3, value_of("7/-2"));
    assert_eq!(0, value_of("0/5"));
}

#[test]
fn comparisons_return_zero_or_one() {
    assert_eq!(1, value_of("1==1"));
    assert_eq!(0, value_of("1==2"));
    assert_eq!(0, value_of("1!=1"));
    assert_eq!(1, value_of("1!=2"));
    assert_eq!(1, value_of("1<2"));
    assert_eq!(0, value_of("2<1"));
    assert_eq!(1, value_of("2<=2"));
    assert_eq!(0, value_of("3<=2"));
    assert_eq!(1, value_of("3>2"));
    assert_eq!(0, value_of("2>3"));
    assert_eq!(1, value_of("3>=3"));
    assert_eq!(0, value_of("2>=3"));
    assert_eq!(1, value_of("-1<0"));
}

#[test]
fn greater_is_kept_as_swapped_less() {
    let gt = parse(&"1 > 2".to_string()).unwrap();
    let lt = parse(&"2 < 1".to_string()).unwrap();
    assert_eq!(node(NodeKind::Lt, num(2), num(1)), gt);
    assert_eq!(lt, gt);
    assert_eq!(compile(&"1>2".to_string()), compile(&"2<1".to_string()));
    let ge = parse(&"1 >= 2".to_string()).unwrap();
    assert_eq!(node(NodeKind::Le, num(2), num(1)), ge);
    assert_eq!(compile(&"1>=2".to_string()), compile(&"2<=1".to_string()));
}

#[test]
fn minus_zero_literal_and_leading_zeros() {
    assert_eq!(0, value_of("-0"));
    assert_eq!(
        CompileError::Syntax(SyntaxError::TrailingInput { pos: 1 }),
        error_of("007")
    );
}

#[test]
fn precedence_and_parentheses() {
    assert_eq!(7, value_of("1 + 2 * 3"));
    assert_eq!(9, value_of("(1 + 2) * 3"));
    assert_eq!(9, value_of("2 * (3 + 4) - 5"));
    assert_eq!(2, value_of("10 - 5 - 3"));
    assert_eq!(1, value_of("8 / 4 / 2"));
    assert_eq!(1, value_of("1 + 1 == 2"));
    assert_eq!(1, value_of("1 < 2 == 2 > 1"));
    let tree = parse(&"1 - 2 - 3".to_string()).unwrap();
    assert_eq!(node(NodeKind::Sub, node(NodeKind::Sub, num(1), num(2)), num(3)), tree);
}

#[test]
fn unary_operators() {
    assert_eq!(2, value_of("-3 + 5"));
    assert_eq!(-2, value_of("+3 - 5"));
    assert_eq!(-9, value_of("-(4 + 5)"));
    let tree = parse(&"-3".to_string()).unwrap();
    assert_eq!(node(NodeKind::Sub, num(0), num(3)), tree);
}

#[test]
fn malformed_input_errors() {
    assert_eq!(
        CompileError::Syntax(SyntaxError::Expected { symbol: Reserved::RightParen, pos: 6 }),
        error_of("(1 + 2")
    );
    assert_eq!(Some(6), error_of("(1 + 2").pos());
    assert_eq!(CompileError::Syntax(SyntaxError::UnexpectedToken { pos: 4 }), error_of("1 + "));
    assert_eq!(CompileError::Lex(LexError::UnexpectedChar { pos: 2 }), error_of("1 $ 2"));
    assert_eq!(CompileError::Syntax(SyntaxError::TrailingInput { pos: 2 }), error_of("1 2"));
    assert_eq!(CompileError::Syntax(SyntaxError::TrailingInput { pos: 1 }), error_of("1)"));
    assert_eq!(CompileError::Syntax(SyntaxError::UnexpectedToken { pos: 0 }), error_of(""));
    assert_eq!(CompileError::Syntax(SyntaxError::UnexpectedToken { pos: 1 }), error_of("--1"));
    assert_eq!(CompileError::Lex(LexError::InvalidOperator { pos: 1 }), error_of("1=2"));
    assert_eq!(CompileError::Lex(LexError::NumberOutOfRange), error_of("9223372036854775808"));
    assert_eq!(None, error_of("9223372036854775808").pos());
}

#[test]
fn same_input_same_listing() {
    let input = "2 * (3 + 4) - 5 >= 9".to_string();
    let a = listing(&compile(&input).unwrap());
    let b = listing(&compile(&input).unwrap());
    assert_eq!(a, b);
}

#[test]
fn listing_text() {
    let lines = listing(&compile(&"1+2".to_string()).unwrap());
    let expected = vec![
        ".intel_syntax noprefix",
        ".globl main",
        "main:",
        "  push 1",
        "  push 2",
        "  pop rdi",
        "  pop rax",
        "  add rax, rdi",
        "  push rax",
        "  pop rax",
        "  ret",
    ];
    assert_eq!(expected, lines);
    let lines = listing(&compile(&"6/-2<3".to_string()).unwrap());
    let expected = vec![
        ".intel_syntax noprefix",
        ".globl main",
        "main:",
        "  push 6",
        "  push 0",
        "  push 2",
        "  pop rdi",
        "  pop rax",
        "  sub rax, rdi",
        "  push rax",
        "  pop rdi",
        "  pop rax",
        "  cqo",
        "  idiv rdi",
        "  push rax",
        "  push 3",
        "  pop rdi",
        "  pop rax",
        "  cmp rax, rdi",
        "  setl al",
        "  movzx rax, al",
        "  push rax",
        "  pop rax",
        "  ret",
    ];
    assert_eq!(expected, lines);
    assert_eq!("  sete al", Instr::Sete.text());
    assert_eq!("  setne al", Instr::Setne.text());
    assert_eq!("  setle al", Instr::Setle.text());
    assert_eq!("  imul rax, rdi", Instr::Imul.text());
    assert_eq!("  push -12", Instr::Push(-12).text());
}

#[test]
fn decimal_text_of_extremes() {
    assert_eq!("0", decimal_text(0));
    assert_eq!("-123", decimal_text(-123));
    assert_eq!(isize::MIN.to_string(), decimal_text(isize::MIN));
    assert_eq!(isize::MAX.to_string(), decimal_text(isize::MAX));
}

#[test]
fn gen_appends_post_order_code() {
    let tree = node(NodeKind::Mul, num(2), node(NodeKind::Add, num(3), num(4)));
    let mut code = vec![Instr::Push(9)];
    gen(&tree, &mut code);
    assert_eq!(
        vec![
            Instr::Push(9),
            Instr::Push(2),
            Instr::Push(3),
            Instr::Push(4),
            Instr::PopRdi,
            Instr::PopRax,
            Instr::Add,
            Instr::PushRax,
            Instr::PopRdi,
            Instr::PopRax,
            Instr::Imul,
            Instr::PushRax,
        ],
        code
    );
    let mut whole = program(&tree);
    assert_eq!(Some(&Instr::Ret), whole.last());
    whole.pop();
    assert_eq!(Some(Instr::PopRax), whole.pop());
    assert_eq!(14, run(&program(&tree)));
}

#[test]
fn parser_rules_and_node_getters() {
    let input = "(1+2)*3 rest".to_string();
    let mut lexer = Lexer::new(&input);
    assert!(lexer.tokenize().is_err());
    let input = "(1+2)*3 4".to_string();
    let mut lexer = Lexer::new(&input);
    lexer.tokenize().unwrap();
    let mut parser = Parser::new(lexer);
    let tree = parser.expr().unwrap();
    assert!(!parser.get_lexer().at_eof());
    assert_eq!(7, parser.get_lexer().next);
    assert_eq!(NodeKind::Mul, tree.get_kind());
    assert_eq!(Some(Box::new(num(3))), tree.get_rhs());
    let lhs = tree.get_lhs().unwrap();
    assert_eq!(NodeKind::Add, lhs.get_kind());
    assert_eq!(Some(Box::new(num(1))), lhs.get_lhs());
    assert_eq!(None, num(1).get_lhs());
    assert_eq!(tree.clone(), tree);
}

#[test]
fn parser_levels_one_by_one() {
    let make = |s: &str| {
        let input = s.to_string();
        let mut lexer = Lexer::new(&input);
        lexer.tokenize().unwrap();
        Parser::new(lexer)
    };
    assert_eq!(Ok(num(5)), make("5").primary());
    assert_eq!(Ok(num(5)), make("(5)").primary());
    assert_eq!(Ok(node(NodeKind::Sub, num(0), num(5))), make("-5").unary());
    assert_eq!(Ok(num(2)), make("2*3").unary());
    assert_eq!(Ok(node(NodeKind::Mul, num(2), num(3))), make("2*3+1").mul());
    assert_eq!(Ok(num(1)), make("1<2").add());
    assert_eq!(Ok(node(NodeKind::Lt, num(1), num(2))), make("1<2==1").relational());
    assert_eq!(
        Ok(node(NodeKind::Eq, node(NodeKind::Lt, num(1), num(2)), num(1))),
        make("1<2==1").equality()
    );
    assert_eq!(Ok(node(NodeKind::Ne, num(1), num(2))), make("1!=2").expr());
}
