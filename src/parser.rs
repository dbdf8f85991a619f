use vstd::prelude::*;

use crate::lexer::{Lexer, Reserved, Token, TokenKind};

verus! {

/// What a node of the syntax tree is. `>` and `>=` have no kind of their own: they
/// are kept as `Lt` and `Le` with the operands swapped.
#[derive(Clone, Copy, Debug, PartialEq, Eq, Structural)]
pub enum NodeKind {
    Add,
    Sub,
    Mul,
    Div,
    Eq,
    Lt,
    Le,
    Ne,
    Num(isize),
}

/// A node of the syntax tree; it owns its operands.
#[derive(Debug, PartialEq, Eq)]
pub struct Node {
    pub kind: NodeKind,
    pub lhs: Option<Box<Node>>,
    pub rhs: Option<Box<Node>>,
}

/// A token sequence that the grammar does not derive.
#[derive(Clone, Copy, Debug, PartialEq, Eq, Structural)]
pub enum SyntaxError {
    /// This symbol was required at the token that starts at this character index.
    Expected { symbol: Reserved, pos: usize },
    /// A number was required at this character index.
    ExpectedNumber { pos: usize },
    /// Neither a number nor `(` at this character index.
    UnexpectedToken { pos: usize },
    /// Tokens are left after a complete expression, from this character index.
    TrailingInput { pos: usize },
}

pub open spec fn leaf(v: isize) -> Node {
    Node { kind: NodeKind::Num(v), lhs: None, rhs: None }
}

pub open spec fn bin(kind: NodeKind, l: Node, r: Node) -> Node {
    Node { kind, lhs: Some(Box::new(l)), rhs: Some(Box::new(r)) }
}

impl Node {
    /// A leaf is a number and has no operands; every other node has both.
    pub open spec fn wf(self) -> bool
        decreases self,
    {
        match self.kind {
            NodeKind::Num(_) => self.lhs is None && self.rhs is None,
            _ => match (self.lhs, self.rhs) {
                (Some(l), Some(r)) => l.wf() && r.wf(),
                _ => false,
            },
        }
    }

    pub fn new(kind: NodeKind, lhs: Option<Box<Node>>, rhs: Option<Box<Node>>) -> (r: Node)
        ensures
            r == (Node { kind, lhs, rhs }),
    {
        Node { kind, lhs, rhs }
    }

    pub fn get_kind(&self) -> (r: NodeKind)
        ensures
            r == self.kind,
    {
        self.kind
    }

    pub fn get_lhs(&self) -> (r: Option<Box<Node>>)
        ensures
            r == self.lhs,
    {
        match &self.lhs {
            Some(l) => Some(Box::new((**l).clone())),
            None => None,
        }
    }

    pub fn get_rhs(&self) -> (r: Option<Box<Node>>)
        ensures
            r == self.rhs,
    {
        match &self.rhs {
            Some(r) => Some(Box::new((**r).clone())),
            None => None,
        }
    }
}

impl Clone for Node {
    fn clone(&self) -> (r: Self)
        ensures
            r == *self,
        decreases self,
    {
        let lhs = match &self.lhs {
            Some(l) => Some(Box::new((**l).clone())),
            None => None,
        };
        let rhs = match &self.rhs {
            Some(r) => Some(Box::new((**r).clone())),
            None => None,
        };
        Node { kind: self.kind, lhs, rhs }
    }
}

/// The outcome of a grammar rule at a token index: the tree and the index after it.
pub type Parsed = Result<(Node, int), SyntaxError>;

/// The kind of token `i`; past the end, `EOF`.
pub open spec fn tok(t: Seq<Token>, i: int) -> TokenKind {
    if 0 <= i < t.len() {
        t[i].kind
    } else {
        TokenKind::EOF
    }
}

/// Where token `i` starts in the input.
pub open spec fn tok_pos(t: Seq<Token>, i: int) -> usize {
    if 0 <= i < t.len() {
        t[i].pos
    } else {
        0
    }
}

pub open spec fn is_sym(t: Seq<Token>, i: int, r: Reserved) -> bool {
    tok(t, i) == TokenKind::Reserved(r)
}

/// A rule that ended at `j` after starting at `i` read at least one token.
pub open spec fn advanced(t: Seq<Token>, i: int, j: int) -> bool {
    i < j <= t.len()
}

/// A token sequence as the lexer makes it: it ends with `EOF`.
pub open spec fn tokens_ok(t: Seq<Token>) -> bool {
    t.len() > 0 && t.last().kind == TokenKind::EOF
}

/// `expr = equality`
pub open spec fn expr_at(t: Seq<Token>, i: int) -> Parsed
    decreases t.len() - i, 8int,
{
    equality_at(t, i)
}

/// `equality = relational ("==" relational | "!=" relational)*`
pub open spec fn equality_at(t: Seq<Token>, i: int) -> Parsed
    decreases t.len() - i, 7int,
{
    match relational_at(t, i) {
        Ok((l, j)) => if advanced(t, i, j) {
            equality_tail(t, j, l)
        } else {
            Ok((l, j))
        },
        Err(e) => Err(e),
    }
}

/// The repeated part of `equality`, with the tree so far.
pub open spec fn equality_tail(t: Seq<Token>, i: int, acc: Node) -> Parsed
    decreases t.len() - i, 1int,
{
    if is_sym(t, i, Reserved::Eq) || is_sym(t, i, Reserved::Ne) {
        let kind = if is_sym(t, i, Reserved::Eq) {
            NodeKind::Eq
        } else {
            NodeKind::Ne
        };
        match relational_at(t, i + 1) {
            Ok((r, j)) => if advanced(t, i + 1, j) {
                equality_tail(t, j, bin(kind, acc, r))
            } else {
                Ok((bin(kind, acc, r), j))
            },
            Err(e) => Err(e),
        }
    } else {
        Ok((acc, i))
    }
}

/// `relational = add ("<" add | "<=" add | ">" add | ">=" add)*`, where `a > b` is
/// kept as `b < a` and `a >= b` as `b <= a`.
pub open spec fn relational_at(t: Seq<Token>, i: int) -> Parsed
    decreases t.len() - i, 6int,
{
    match add_at(t, i) {
        Ok((l, j)) => if advanced(t, i, j) {
            relational_tail(t, j, l)
        } else {
            Ok((l, j))
        },
        Err(e) => Err(e),
    }
}

/// The tree for `acc <op> r` with the relational symbol `op`.
pub open spec fn relation(op: Reserved, acc: Node, r: Node) -> Node {
    match op {
        Reserved::Lt => bin(NodeKind::Lt, acc, r),
        Reserved::Le => bin(NodeKind::Le, acc, r),
        Reserved::Gt => bin(NodeKind::Lt, r, acc),
        _ => bin(NodeKind::Le, r, acc),
    }
}

pub open spec fn is_relational(op: Reserved) -> bool {
    op == Reserved::Lt || op == Reserved::Le || op == Reserved::Gt || op == Reserved::Ge
}

/// The repeated part of `relational`, with the tree so far.
pub open spec fn relational_tail(t: Seq<Token>, i: int, acc: Node) -> Parsed
    decreases t.len() - i, 1int,
{
    match tok(t, i) {
        TokenKind::Reserved(op) => if is_relational(op) {
            match add_at(t, i + 1) {
                Ok((r, j)) => if advanced(t, i + 1, j) {
                    relational_tail(t, j, relation(op, acc, r))
                } else {
                    Ok((relation(op, acc, r), j))
                },
                Err(e) => Err(e),
            }
        } else {
            Ok((acc, i))
        },
        _ => Ok((acc, i)),
    }
}

/// `add = mul ("+" mul | "-" mul)*`
pub open spec fn add_at(t: Seq<Token>, i: int) -> Parsed
    decreases t.len() - i, 5int,
{
    match mul_at(t, i) {
        Ok((l, j)) => if advanced(t, i, j) {
            add_tail(t, j, l)
        } else {
            Ok((l, j))
        },
        Err(e) => Err(e),
    }
}

/// The repeated part of `add`, with the tree so far.
pub open spec fn add_tail(t: Seq<Token>, i: int, acc: Node) -> Parsed
    decreases t.len() - i, 1int,
{
    if is_sym(t, i, Reserved::Plus) || is_sym(t, i, Reserved::Minus) {
        let kind = if is_sym(t, i, Reserved::Plus) {
            NodeKind::Add
        } else {
            NodeKind::Sub
        };
        match mul_at(t, i + 1) {
            Ok((r, j)) => if advanced(t, i + 1, j) {
                add_tail(t, j, bin(kind, acc, r))
            } else {
                Ok((bin(kind, acc, r), j))
            },
            Err(e) => Err(e),
        }
    } else {
        Ok((acc, i))
    }
}

/// `mul = unary ("*" unary | "/" unary)*`
pub open spec fn mul_at(t: Seq<Token>, i: int) -> Parsed
    decreases t.len() - i, 4int,
{
    match unary_at(t, i) {
        Ok((l, j)) => if advanced(t, i, j) {
            mul_tail(t, j, l)
        } else {
            Ok((l, j))
        },
        Err(e) => Err(e),
    }
}

/// The repeated part of `mul`, with the tree so far.
pub open spec fn mul_tail(t: Seq<Token>, i: int, acc: Node) -> Parsed
    decreases t.len() - i, 1int,
{
    if is_sym(t, i, Reserved::Asterisk) || is_sym(t, i, Reserved::Slash) {
        let kind = if is_sym(t, i, Reserved::Asterisk) {
            NodeKind::Mul
        } else {
            NodeKind::Div
        };
        match unary_at(t, i + 1) {
            Ok((r, j)) => if advanced(t, i + 1, j) {
                mul_tail(t, j, bin(kind, acc, r))
            } else {
                Ok((bin(kind, acc, r), j))
            },
            Err(e) => Err(e),
        }
    } else {
        Ok((acc, i))
    }
}

/// `unary = "+" primary | "-" primary | primary`, where `-x` is kept as `0 - x`.
pub open spec fn unary_at(t: Seq<Token>, i: int) -> Parsed
    decreases t.len() - i, 3int,
{
    if is_sym(t, i, Reserved::Plus) {
        primary_at(t, i + 1)
    } else if is_sym(t, i, Reserved::Minus) {
        match primary_at(t, i + 1) {
            Ok((n, j)) => Ok((bin(NodeKind::Sub, leaf(0), n), j)),
            Err(e) => Err(e),
        }
    } else {
        primary_at(t, i)
    }
}

/// `primary = number | "(" expr ")"`
pub open spec fn primary_at(t: Seq<Token>, i: int) -> Parsed
    decreases t.len() - i, 2int,
{
    if is_sym(t, i, Reserved::LeftParen) {
        match expr_at(t, i + 1) {
            Ok((n, j)) => if is_sym(t, j, Reserved::RightParen) {
                Ok((n, j + 1))
            } else {
                Err(SyntaxError::Expected { symbol: Reserved::RightParen, pos: tok_pos(t, j) })
            },
            Err(e) => Err(e),
        }
    } else {
        match tok(t, i) {
            TokenKind::Num(v) => Ok((leaf(v), i + 1)),
            _ => Err(SyntaxError::UnexpectedToken { pos: tok_pos(t, i) }),
        }
    }
}

/// A whole token sequence: one expression, then `EOF`.
pub open spec fn parse_tokens(t: Seq<Token>) -> Result<Node, SyntaxError> {
    match expr_at(t, 0) {
        Ok((n, j)) => if tok(t, j) == TokenKind::EOF {
            Ok(n)
        } else {
            Err(SyntaxError::TrailingInput { pos: tok_pos(t, j) })
        },
        Err(e) => Err(e),
    }
}

/// A recursive-descent parser over the tokens of a lexer.
pub struct Parser {
    pub lexer: Lexer,
}

/// The exec outcome `r`, with the token cursor moved from `i` to `j`, is what the
/// rule gives.
pub open spec fn agrees(rule: Parsed, r: Result<Node, SyntaxError>, i: int, j: int) -> bool {
    match r {
        Ok(n) => rule == Ok::<(Node, int), SyntaxError>((n, j)) && i < j,
        Err(e) => rule == Err::<(Node, int), SyntaxError>(e),
    }
}

impl Parser {
    /// The lexer is ready and its tokens end with `EOF`, which the cursor has not passed.
    pub open spec fn wf(&self) -> bool {
        &&& self.lexer.wf()
        &&& tokens_ok(self.lexer.tokens@)
        &&& self.lexer.next < self.lexer.tokens.len()
    }

    /// `other` has the same input and tokens; only the token cursor may differ.
    pub open spec fn same_tokens(&self, other: &Parser) -> bool {
        &&& other.lexer.input == self.lexer.input
        &&& other.lexer.chars == self.lexer.chars
        &&& other.lexer.pos == self.lexer.pos
        &&& other.lexer.tokens == self.lexer.tokens
    }

    pub open spec fn tokens(&self) -> Seq<Token> {
        self.lexer.tokens@
    }

    pub open spec fn at(&self) -> int {
        self.lexer.next as int
    }

    pub fn new(lexer: Lexer) -> (r: Parser)
        ensures
            r.lexer == lexer,
    {
        Parser { lexer }
    }

    /// A copy of the lexer, with both cursors where they stand.
    pub fn get_lexer(&self) -> (r: Lexer)
        ensures
            r.input@ == self.lexer.input@,
            r.chars@ == self.lexer.chars@,
            r.pos == self.lexer.pos,
            r.tokens@ == self.lexer.tokens@,
            r.next == self.lexer.next,
    {
        self.lexer.clone()
    }

    /// `expr`: see `expr_at`.
    pub fn expr(&mut self) -> (r: Result<Node, SyntaxError>)
        requires
            old(self).wf(),
        ensures
            final(self).wf(),
            old(self).same_tokens(final(self)),
            agrees(
                expr_at(old(self).tokens(), old(self).at()),
                r,
                old(self).at(),
                final(self).at(),
            ),
        decreases old(self).tokens().len() - old(self).at(), 8int,
    {
        self.equality()
    }

    /// `equality`: see `equality_at`.
    pub fn equality(&mut self) -> (r: Result<Node, SyntaxError>)
        requires
            old(self).wf(),
        ensures
            final(self).wf(),
            old(self).same_tokens(final(self)),
            agrees(
                equality_at(old(self).tokens(), old(self).at()),
                r,
                old(self).at(),
                final(self).at(),
            ),
        decreases old(self).tokens().len() - old(self).at(), 7int,
    {
        let ghost t = self.tokens();
        let ghost i = self.at();
        let mut node = match self.relational() {
            Ok(node) => node,
            Err(msg) => {
                return Err(msg);
            },
        };
        loop
            invariant
                self.wf(),
                old(self).same_tokens(self),
                t == self.tokens(),
                t == old(self).tokens(),
                i == old(self).at(),
                i < self.at(),
                equality_at(t, i) == equality_tail(t, self.at(), node),
            decreases t.len() - self.at(),
        {
            let kind = if self.lexer.consume(Reserved::Eq) {
                NodeKind::Eq
            } else if self.lexer.consume(Reserved::Ne) {
                NodeKind::Ne
            } else {
                return Ok(node);
            };
            match self.relational() {
                Ok(relational) => {
                    node = Node::new(kind, Some(Box::new(node)), Some(Box::new(relational)));
                },
                Err(msg) => {
                    return Err(msg);
                },
            }
        }
    }

    /// `relational`: see `relational_at`.
    pub fn relational(&mut self) -> (r: Result<Node, SyntaxError>)
        requires
            old(self).wf(),
        ensures
            final(self).wf(),
            old(self).same_tokens(final(self)),
            agrees(
                relational_at(old(self).tokens(), old(self).at()),
                r,
                old(self).at(),
                final(self).at(),
            ),
        decreases old(self).tokens().len() - old(self).at(), 6int,
    {
        let ghost t = self.tokens();
        let ghost i = self.at();
        let mut node = match self.add() {
            Ok(node) => node,
            Err(msg) => {
                return Err(msg);
            },
        };
        loop
            invariant
                self.wf(),
                old(self).same_tokens(self),
                t == self.tokens(),
                t == old(self).tokens(),
                i == old(self).at(),
                i < self.at(),
                relational_at(t, i) == relational_tail(t, self.at(), node),
            decreases t.len() - self.at(),
        {
            let (kind, is_reverse) = if self.lexer.consume(Reserved::Lt) {
                (NodeKind::Lt, false)
            } else if self.lexer.consume(Reserved::Le) {
                (NodeKind::Le, false)
            } else if self.lexer.consume(Reserved::Gt) {
                (NodeKind::Lt, true)
            } else if self.lexer.consume(Reserved::Ge) {
                (NodeKind::Le, true)
            } else {
                return Ok(node);
            };
            match self.add() {
                Ok(add) => {
                    if is_reverse {
                        node = Node::new(kind, Some(Box::new(add)), Some(Box::new(node)));
                    } else {
                        node = Node::new(kind, Some(Box::new(node)), Some(Box::new(add)));
                    }
                },
                Err(msg) => {
                    return Err(msg);
                },
            }
        }
    }

    /// `add`: see `add_at`.
    pub fn add(&mut self) -> (r: Result<Node, SyntaxError>)
        requires
            old(self).wf(),
        ensures
            final(self).wf(),
            old(self).same_tokens(final(self)),
            agrees(
                add_at(old(self).tokens(), old(self).at()),
                r,
                old(self).at(),
                final(self).at(),
            ),
        decreases old(self).tokens().len() - old(self).at(), 5int,
    {
        let ghost t = self.tokens();
        let ghost i = self.at();
        let mut node = match self.mul() {
            Ok(node) => node,
            Err(msg) => {
                return Err(msg);
            },
        };
        loop
            invariant
                self.wf(),
                old(self).same_tokens(self),
                t == self.tokens(),
                t == old(self).tokens(),
                i == old(self).at(),
                i < self.at(),
                add_at(t, i) == add_tail(t, self.at(), node),
            decreases t.len() - self.at(),
        {
            if self.lexer.consume(Reserved::Plus) {
                match self.mul() {
                    Ok(mul) => {
                        node = Node::new(NodeKind::Add, Some(Box::new(node)), Some(Box::new(mul)));
                    },
                    Err(msg) => {
                        return Err(msg);
                    },
                }
            } else if self.lexer.consume(Reserved::Minus) {
                match self.mul() {
                    Ok(mul) => {
                        node = Node::new(NodeKind::Sub, Some(Box::new(node)), Some(Box::new(mul)));
                    },
                    Err(msg) => {
                        return Err(msg);
                    },
                }
            } else {
                return Ok(node);
            }
        }
    }

    /// `mul`: see `mul_at`.
    pub fn mul(&mut self) -> (r: Result<Node, SyntaxError>)
        requires
            old(self).wf(),
        ensures
            final(self).wf(),
            old(self).same_tokens(final(self)),
            agrees(
                mul_at(old(self).tokens(), old(self).at()),
                r,
                old(self).at(),
                final(self).at(),
            ),
        decreases old(self).tokens().len() - old(self).at(), 4int,
    {
        let ghost t = self.tokens();
        let ghost i = self.at();
        let mut node = match self.unary() {
            Ok(node) => node,
            Err(msg) => {
                return Err(msg);
            },
        };
        loop
            invariant
                self.wf(),
                old(self).same_tokens(self),
                t == self.tokens(),
                t == old(self).tokens(),
                i == old(self).at(),
                i < self.at(),
                mul_at(t, i) == mul_tail(t, self.at(), node),
            decreases t.len() - self.at(),
        {
            if self.lexer.consume(Reserved::Asterisk) {
                match self.unary() {
                    Ok(unary) => {
                        node = Node::new(
                            NodeKind::Mul,
                            Some(Box::new(node)),
                            Some(Box::new(unary)),
                        );
                    },
                    Err(msg) => {
                        return Err(msg);
                    },
                }
            } else if self.lexer.consume(Reserved::Slash) {
                match self.unary() {
                    Ok(unary) => {
                        node = Node::new(
                            NodeKind::Div,
                            Some(Box::new(node)),
                            Some(Box::new(unary)),
                        );
                    },
                    Err(msg) => {
                        return Err(msg);
                    },
                }
            } else {
                return Ok(node);
            }
        }
    }

    /// `unary`: see `unary_at`.
    pub fn unary(&mut self) -> (r: Result<Node, SyntaxError>)
        requires
            old(self).wf(),
        ensures
            final(self).wf(),
            old(self).same_tokens(final(self)),
            agrees(
                unary_at(old(self).tokens(), old(self).at()),
                r,
                old(self).at(),
                final(self).at(),
            ),
        decreases old(self).tokens().len() - old(self).at(), 3int,
    {
        if self.lexer.consume(Reserved::Plus) {
            return self.primary();
        }
        if self.lexer.consume(Reserved::Minus) {
            match self.primary() {
                Ok(node) => {
                    return Ok(
                        Node::new(
                            NodeKind::Sub,
                            Some(Box::new(Node::new(NodeKind::Num(0), None, None))),
                            Some(Box::new(node)),
                        ),
                    );
                },
                Err(msg) => {
                    return Err(msg);
                },
            }
        }
        self.primary()
    }

    /// `primary`: see `primary_at`.
    pub fn primary(&mut self) -> (r: Result<Node, SyntaxError>)
        requires
            old(self).wf(),
        ensures
            final(self).wf(),
            old(self).same_tokens(final(self)),
            agrees(
                primary_at(old(self).tokens(), old(self).at()),
                r,
                old(self).at(),
                final(self).at(),
            ),
        decreases old(self).tokens().len() - old(self).at(), 2int,
    {
        if self.lexer.consume(Reserved::LeftParen) {
            let node = match self.expr() {
                Ok(node) => node,
                Err(msg) => {
                    return Err(msg);
                },
            };
            if let Err(msg) = self.lexer.expect(Reserved::RightParen) {
                return Err(msg);
            }
            return Ok(node);
        }
        match self.lexer.expect_number() {
            Ok(num) => Ok(Node::new(NodeKind::Num(num), None, None)),
            Err(_) => Err(SyntaxError::UnexpectedToken { pos: self.lexer.token_pos() }),
        }
    }
}

/// The tree that `l <op> r` is kept as, for a binary symbol `op`.
pub open spec fn binary_node(op: Reserved, l: Node, r: Node) -> Node {
    match op {
        Reserved::Plus => bin(NodeKind::Add, l, r),
        Reserved::Minus => bin(NodeKind::Sub, l, r),
        Reserved::Asterisk => bin(NodeKind::Mul, l, r),
        Reserved::Slash => bin(NodeKind::Div, l, r),
        Reserved::Eq => bin(NodeKind::Eq, l, r),
        Reserved::Ne => bin(NodeKind::Ne, l, r),
        _ => relation(op, l, r),
    }
}

pub open spec fn is_binary(op: Reserved) -> bool {
    op != Reserved::LeftParen && op != Reserved::RightParen
}

proof fn lemma_operand(t: Seq<Token>, i: int, v: isize)
    requires
        tok(t, i) == TokenKind::Num(v),
    ensures
        primary_at(t, i) == Ok::<(Node, int), SyntaxError>((leaf(v), i + 1)),
        unary_at(t, i) == Ok::<(Node, int), SyntaxError>((leaf(v), i + 1)),
{
}

proof fn lemma_tails_stop(t: Seq<Token>, j: int, acc: Node)
    requires
        tok(t, j) == TokenKind::EOF,
    ensures
        mul_tail(t, j, acc) == Ok::<(Node, int), SyntaxError>((acc, j)),
        add_tail(t, j, acc) == Ok::<(Node, int), SyntaxError>((acc, j)),
        relational_tail(t, j, acc) == Ok::<(Node, int), SyntaxError>((acc, j)),
        equality_tail(t, j, acc) == Ok::<(Node, int), SyntaxError>((acc, j)),
{
}

/// A number and then `EOF` is a leaf.
pub proof fn lemma_parse_number(t: Seq<Token>, v: isize)
    requires
        t.len() == 2,
        t[0].kind == TokenKind::Num(v),
        t[1].kind == TokenKind::EOF,
    ensures
        parse_tokens(t) == Ok::<Node, SyntaxError>(leaf(v)),
{
    lemma_operand(t, 0, v);
    lemma_tails_stop(t, 1, leaf(v));
    assert(mul_at(t, 0) == Ok::<(Node, int), SyntaxError>((leaf(v), 1)));
    assert(add_at(t, 0) == Ok::<(Node, int), SyntaxError>((leaf(v), 1)));
    assert(relational_at(t, 0) == Ok::<(Node, int), SyntaxError>((leaf(v), 1)));
    assert(equality_at(t, 0) == Ok::<(Node, int), SyntaxError>((leaf(v), 1)));
}

/// `-` and a number, then `EOF`, is `0 - v`.
pub proof fn lemma_parse_negated(t: Seq<Token>, v: isize)
    requires
        t.len() == 3,
        t[0].kind == TokenKind::Reserved(Reserved::Minus),
        t[1].kind == TokenKind::Num(v),
        t[2].kind == TokenKind::EOF,
    ensures
        parse_tokens(t) == Ok::<Node, SyntaxError>(bin(NodeKind::Sub, leaf(0), leaf(v))),
{
    let n = bin(NodeKind::Sub, leaf(0), leaf(v));
    lemma_operand(t, 1, v);
    lemma_tails_stop(t, 2, n);
    assert(unary_at(t, 0) == Ok::<(Node, int), SyntaxError>((n, 2)));
    assert(mul_at(t, 0) == Ok::<(Node, int), SyntaxError>((n, 2)));
    assert(add_at(t, 0) == Ok::<(Node, int), SyntaxError>((n, 2)));
    assert(relational_at(t, 0) == Ok::<(Node, int), SyntaxError>((n, 2)));
    assert(equality_at(t, 0) == Ok::<(Node, int), SyntaxError>((n, 2)));
}

/// A number, a binary symbol, a number, then `EOF`, is the symbol's tree over two leaves.
pub proof fn lemma_parse_binary(t: Seq<Token>, a: isize, op: Reserved, b: isize)
    requires
        t.len() == 4,
        t[0].kind == TokenKind::Num(a),
        t[1].kind == TokenKind::Reserved(op),
        t[2].kind == TokenKind::Num(b),
        t[3].kind == TokenKind::EOF,
        is_binary(op),
    ensures
        parse_tokens(t) == Ok::<Node, SyntaxError>(binary_node(op, leaf(a), leaf(b))),
{
    let n = binary_node(op, leaf(a), leaf(b));
    lemma_operand(t, 0, a);
    lemma_operand(t, 2, b);
    lemma_tails_stop(t, 3, leaf(b));
    lemma_tails_stop(t, 3, n);
    assert(mul_at(t, 2) == Ok::<(Node, int), SyntaxError>((leaf(b), 3)));
    assert(add_at(t, 2) == Ok::<(Node, int), SyntaxError>((leaf(b), 3)));
    if op == Reserved::Asterisk || op == Reserved::Slash {
        assert(mul_tail(t, 1, leaf(a)) == Ok::<(Node, int), SyntaxError>((n, 3)));
        assert(mul_at(t, 0) == Ok::<(Node, int), SyntaxError>((n, 3)));
        assert(add_at(t, 0) == Ok::<(Node, int), SyntaxError>((n, 3)));
    } else {
        assert(mul_at(t, 0) == Ok::<(Node, int), SyntaxError>((leaf(a), 1)));
        if op == Reserved::Plus || op == Reserved::Minus {
            assert(add_tail(t, 1, leaf(a)) == Ok::<(Node, int), SyntaxError>((n, 3)));
            assert(add_at(t, 0) == Ok::<(Node, int), SyntaxError>((n, 3)));
        } else {
            assert(add_at(t, 0) == Ok::<(Node, int), SyntaxError>((leaf(a), 1)));
        }
    }
    if is_relational(op) {
        assert(relational_tail(t, 1, leaf(a)) == Ok::<(Node, int), SyntaxError>((n, 3)));
        assert(relational_at(t, 0) == Ok::<(Node, int), SyntaxError>((n, 3)));
    } else if op == Reserved::Eq || op == Reserved::Ne {
        assert(relational_at(t, 0) == Ok::<(Node, int), SyntaxError>((leaf(a), 1)));
        assert(relational_at(t, 2) == Ok::<(Node, int), SyntaxError>((leaf(b), 3)));
        assert(equality_tail(t, 1, leaf(a)) == Ok::<(Node, int), SyntaxError>((n, 3)));
    } else {
        assert(relational_at(t, 0) == Ok::<(Node, int), SyntaxError>((n, 3)));
    }
    assert(equality_at(t, 0) == Ok::<(Node, int), SyntaxError>((n, 3)));
}

/// What a rule gives is a well-formed tree.
pub open spec fn gives_wf(p: Parsed) -> bool {
    p is Ok ==> p->Ok_0.0.wf()
}

pub proof fn lemma_expr_wf(t: Seq<Token>, i: int)
    ensures
        gives_wf(expr_at(t, i)),
    decreases t.len() - i, 8int,
{
    lemma_equality_wf(t, i);
}

pub proof fn lemma_equality_wf(t: Seq<Token>, i: int)
    ensures
        gives_wf(equality_at(t, i)),
    decreases t.len() - i, 7int,
{
    lemma_relational_wf(t, i);
    if let Ok((l, j)) = relational_at(t, i) {
        if advanced(t, i, j) {
            lemma_equality_tail_wf(t, j, l);
        }
    }
}

pub proof fn lemma_equality_tail_wf(t: Seq<Token>, i: int, acc: Node)
    requires
        acc.wf(),
    ensures
        gives_wf(equality_tail(t, i, acc)),
    decreases t.len() - i, 1int,
{
    if is_sym(t, i, Reserved::Eq) || is_sym(t, i, Reserved::Ne) {
        let kind = if is_sym(t, i, Reserved::Eq) {
            NodeKind::Eq
        } else {
            NodeKind::Ne
        };
        lemma_relational_wf(t, i + 1);
        if let Ok((r, j)) = relational_at(t, i + 1) {
            assert(bin(kind, acc, r).wf());
            if advanced(t, i + 1, j) {
                lemma_equality_tail_wf(t, j, bin(kind, acc, r));
            }
        }
    }
}

pub proof fn lemma_relational_wf(t: Seq<Token>, i: int)
    ensures
        gives_wf(relational_at(t, i)),
    decreases t.len() - i, 6int,
{
    lemma_add_wf(t, i);
    if let Ok((l, j)) = add_at(t, i) {
        if advanced(t, i, j) {
            lemma_relational_tail_wf(t, j, l);
        }
    }
}

pub proof fn lemma_relational_tail_wf(t: Seq<Token>, i: int, acc: Node)
    requires
        acc.wf(),
    ensures
        gives_wf(relational_tail(t, i, acc)),
    decreases t.len() - i, 1int,
{
    if let TokenKind::Reserved(op) = tok(t, i) {
        if is_relational(op) {
            lemma_add_wf(t, i + 1);
            if let Ok((r, j)) = add_at(t, i + 1) {
                assert(relation(op, acc, r).wf());
                if advanced(t, i + 1, j) {
                    lemma_relational_tail_wf(t, j, relation(op, acc, r));
                }
            }
        }
    }
}

pub proof fn lemma_add_wf(t: Seq<Token>, i: int)
    ensures
        gives_wf(add_at(t, i)),
    decreases t.len() - i, 5int,
{
    lemma_mul_wf(t, i);
    if let Ok((l, j)) = mul_at(t, i) {
        if advanced(t, i, j) {
            lemma_add_tail_wf(t, j, l);
        }
    }
}

pub proof fn lemma_add_tail_wf(t: Seq<Token>, i: int, acc: Node)
    requires
        acc.wf(),
    ensures
        gives_wf(add_tail(t, i, acc)),
    decreases t.len() - i, 1int,
{
    if is_sym(t, i, Reserved::Plus) || is_sym(t, i, Reserved::Minus) {
        let kind = if is_sym(t, i, Reserved::Plus) {
            NodeKind::Add
        } else {
            NodeKind::Sub
        };
        lemma_mul_wf(t, i + 1);
        if let Ok((r, j)) = mul_at(t, i + 1) {
            assert(bin(kind, acc, r).wf());
            if advanced(t, i + 1, j) {
                lemma_add_tail_wf(t, j, bin(kind, acc, r));
            }
        }
    }
}

pub proof fn lemma_mul_wf(t: Seq<Token>, i: int)
    ensures
        gives_wf(mul_at(t, i)),
    decreases t.len() - i, 4int,
{
    lemma_unary_wf(t, i);
    if let Ok((l, j)) = unary_at(t, i) {
        if advanced(t, i, j) {
            lemma_mul_tail_wf(t, j, l);
        }
    }
}

pub proof fn lemma_mul_tail_wf(t: Seq<Token>, i: int, acc: Node)
    requires
        acc.wf(),
    ensures
        gives_wf(mul_tail(t, i, acc)),
    decreases t.len() - i, 1int,
{
    if is_sym(t, i, Reserved::Asterisk) || is_sym(t, i, Reserved::Slash) {
        let kind = if is_sym(t, i, Reserved::Asterisk) {
            NodeKind::Mul
        } else {
            NodeKind::Div
        };
        lemma_unary_wf(t, i + 1);
        if let Ok((r, j)) = unary_at(t, i + 1) {
            assert(bin(kind, acc, r).wf());
            if advanced(t, i + 1, j) {
                lemma_mul_tail_wf(t, j, bin(kind, acc, r));
            }
        }
    }
}

pub proof fn lemma_unary_wf(t: Seq<Token>, i: int)
    ensures
        gives_wf(unary_at(t, i)),
    decreases t.len() - i, 3int,
{
    if is_sym(t, i, Reserved::Plus) || is_sym(t, i, Reserved::Minus) {
        lemma_primary_wf(t, i + 1);
        if let Ok((n, j)) = primary_at(t, i + 1) {
            assert(leaf(0).wf());
            assert(bin(NodeKind::Sub, leaf(0), n).wf());
        }
    } else {
        lemma_primary_wf(t, i);
    }
}

pub proof fn lemma_primary_wf(t: Seq<Token>, i: int)
    ensures
        gives_wf(primary_at(t, i)),
    decreases t.len() - i, 2int,
{
    if is_sym(t, i, Reserved::LeftParen) {
        lemma_expr_wf(t, i + 1);
    } else if let TokenKind::Num(v) = tok(t, i) {
        assert(leaf(v).wf());
    }
}

} // verus!
