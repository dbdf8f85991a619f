use vstd::prelude::*;

use crate::literal::{
    captured, is_digit, is_digit_char, is_space, is_space_char, isize_of, lemma_scan_digit,
    lemma_scan_run, literal_text, parse_isize, scan_num,
};
use crate::parser::SyntaxError;
use crate::report::{error_report, render_error};

verus! {

/// A reserved symbol of the expression language.
#[derive(Clone, Copy, Debug, PartialEq, Eq, Structural)]
pub enum Reserved {
    LeftParen,
    RightParen,
    Plus,
    Minus,
    Asterisk,
    Slash,
    Eq,
    Gt,
    Ge,
    Le,
    Lt,
    Ne,
}

impl Reserved {
    /// The symbol's text.
    pub open spec fn text(self) -> Seq<char> {
        match self {
            Reserved::LeftParen => seq!['('],
            Reserved::RightParen => seq![')'],
            Reserved::Plus => seq!['+'],
            Reserved::Minus => seq!['-'],
            Reserved::Asterisk => seq!['*'],
            Reserved::Slash => seq!['/'],
            Reserved::Eq => seq!['=', '='],
            Reserved::Gt => seq!['>'],
            Reserved::Ge => seq!['>', '='],
            Reserved::Le => seq!['<', '='],
            Reserved::Lt => seq!['<'],
            Reserved::Ne => seq!['!', '='],
        }
    }

    /// The symbol's text (see `text`).
    pub fn to_text(&self) -> (r: String)
        ensures
            r@ == self.text(),
    {
        proof {
            reveal_strlit("(");
            reveal_strlit(")");
            reveal_strlit("+");
            reveal_strlit("-");
            reveal_strlit("*");
            reveal_strlit("/");
            reveal_strlit("==");
            reveal_strlit(">");
            reveal_strlit(">=");
            reveal_strlit("<=");
            reveal_strlit("<");
            reveal_strlit("!=");
        }
        let s = match self {
            Reserved::LeftParen => "(",
            Reserved::RightParen => ")",
            Reserved::Plus => "+",
            Reserved::Minus => "-",
            Reserved::Asterisk => "*",
            Reserved::Slash => "/",
            Reserved::Eq => "==",
            Reserved::Gt => ">",
            Reserved::Ge => ">=",
            Reserved::Le => "<=",
            Reserved::Lt => "<",
            Reserved::Ne => "!=",
        };
        assert(s@ =~= self.text());
        s.to_owned()
    }

    /// Length of the symbol's text.
    pub fn len(&self) -> (r: usize)
        ensures
            r == self.text().len(),
    {
        match self {
            Reserved::Eq | Reserved::Ge | Reserved::Le | Reserved::Ne => 2,
            _ => 1,
        }
    }
}

/// Error returned when a character is not a one-character symbol.
pub struct ReservedError(pub char);

impl Reserved {
    /// The one-character symbol written `c`, if there is one.
    pub open spec fn of_char(c: char) -> Option<Reserved> {
        if c == '(' {
            Some(Reserved::LeftParen)
        } else if c == ')' {
            Some(Reserved::RightParen)
        } else if c == '+' {
            Some(Reserved::Plus)
        } else if c == '-' {
            Some(Reserved::Minus)
        } else if c == '*' {
            Some(Reserved::Asterisk)
        } else if c == '/' {
            Some(Reserved::Slash)
        } else {
            None
        }
    }

    /// The one-character symbol written `c`; the character itself as the error otherwise.
    pub fn try_from_char(c: &char) -> (r: Result<Reserved, ReservedError>)
        ensures
            match r {
                Ok(s) => Reserved::of_char(*c) == Some(s),
                Err(e) => Reserved::of_char(*c) is None && e.0 == *c,
            },
    {
        match *c {
            '(' => Ok(Reserved::LeftParen),
            ')' => Ok(Reserved::RightParen),
            '+' => Ok(Reserved::Plus),
            '-' => Ok(Reserved::Minus),
            '*' => Ok(Reserved::Asterisk),
            '/' => Ok(Reserved::Slash),
            _ => Err(ReservedError(*c)),
        }
    }
}

/// What a token is.
#[derive(Clone, Copy, Debug, PartialEq, Eq, Structural)]
pub enum TokenKind {
    Reserved(Reserved),
    Num(isize),
    EOF,
}

/// A token and the index, in characters, of the input where it starts.
#[derive(Clone, Copy, Debug, PartialEq, Eq, Structural)]
pub struct Token {
    pub kind: TokenKind,
    pub pos: usize,
}

impl Token {
    pub fn new(kind: TokenKind, pos: usize) -> (r: Token)
        ensures
            r == (Token { kind, pos }),
    {
        Token { kind, pos }
    }
}

/// A failure to split the input into tokens.
#[derive(Clone, Copy, Debug, PartialEq, Eq, Structural)]
pub enum LexError {
    /// A character that starts no token, at this character index.
    UnexpectedChar { pos: usize },
    /// `=` or `!` not followed by `=`, at this character index.
    InvalidOperator { pos: usize },
    /// A number literal whose value does not fit in `isize`.
    NumberOutOfRange,
}

/// The input, a cursor over its characters, and the tokens once they are made,
/// with a cursor over them.
pub struct Lexer {
    pub input: String,
    pub chars: Vec<char>,
    /// Index of the next character to scan.
    pub pos: usize,
    pub tokens: Vec<Token>,
    /// Index of the next token to hand out.
    pub next: usize,
}

pub open spec fn opt_index(o: Option<usize>) -> Option<int> {
    match o {
        Some(x) => Some(x as int),
        None => None,
    }
}

/// The number scanner's outcome with each text viewed as characters.
pub open spec fn scan_view(r: Result<String, (String, char)>) -> Result<
    Seq<char>,
    (Seq<char>, char),
> {
    match r {
        Ok(s) => Ok(s@),
        Err((s, c)) => Err((s@, c)),
    }
}

/// `p` stands in `cs` from index `i` on.
pub open spec fn starts_at(cs: Seq<char>, i: int, p: Seq<char>) -> bool {
    &&& 0 <= i
    &&& i + p.len() <= cs.len()
    &&& forall|k: int| 0 <= k < p.len() ==> cs[i + k] == #[trigger] p[k]
}

impl Lexer {
    pub open spec fn wf(&self) -> bool {
        &&& self.chars@ == self.input@
        &&& self.pos <= self.chars.len()
        &&& self.next <= self.tokens.len()
        &&& forall|k: int|
            0 <= k < self.tokens.len() ==> #[trigger] self.tokens@[k].pos <= self.chars.len()
    }

    pub fn new(input: &String) -> (r: Lexer)
        ensures
            r.wf(),
            r.input@ == input@,
            r.pos == 0,
            r.tokens@ == Seq::<Token>::empty(),
            r.next == 0,
    {
        let s = input.as_str();
        let n = s.unicode_len();
        let mut chars: Vec<char> = Vec::new();
        let mut i: usize = 0;
        while i < n
            invariant
                n == s@.len(),
                s@ == input@,
                i <= n,
                chars@ == s@.take(i as int),
            decreases n - i,
        {
            chars.push(s.get_char(i));
            i = i + 1;
            assert(chars@ =~= s@.take(i as int));
        }
        assert(chars@ =~= input@);
        Lexer { input: input.clone(), chars, pos: 0, tokens: Vec::new(), next: 0 }
    }

    /// The whole input.
    pub fn get_input(&self) -> (r: String)
        ensures
            r@ == self.input@,
    {
        self.input.clone()
    }

    /// The characters not yet scanned.
    pub fn get_chars(&self) -> (r: Vec<char>)
        requires
            self.wf(),
        ensures
            r@ == self.chars@.subrange(self.pos as int, self.chars.len() as int),
    {
        let mut r: Vec<char> = Vec::new();
        let mut i: usize = self.pos;
        while i < self.chars.len()
            invariant
                self.pos <= i <= self.chars.len(),
                r@ == self.chars@.subrange(self.pos as int, i as int),
            decreases self.chars.len() - i,
        {
            r.push(self.chars[i]);
            i = i + 1;
            assert(r@ =~= self.chars@.subrange(self.pos as int, i as int));
        }
        r
    }

    /// The tokens not yet handed out.
    pub fn get_tokens(&self) -> (r: Vec<Token>)
        requires
            self.wf(),
        ensures
            r@ == self.tokens@.subrange(self.next as int, self.tokens.len() as int),
    {
        let mut r: Vec<Token> = Vec::new();
        let mut i: usize = self.next;
        while i < self.tokens.len()
            invariant
                self.next <= i <= self.tokens.len(),
                r@ == self.tokens@.subrange(self.next as int, i as int),
            decreases self.tokens.len() - i,
        {
            r.push(self.tokens[i]);
            i = i + 1;
            assert(r@ =~= self.tokens@.subrange(self.next as int, i as int));
        }
        r
    }

    /// Whether the characters not yet scanned begin with `s`. The cursor does not move.
    pub fn start_with(&self, s: &str) -> (r: bool)
        requires
            self.wf(),
        ensures
            r == starts_at(self.chars@, self.pos as int, s@),
    {
        let m = s.unicode_len();
        let n = self.chars.len();
        if m > n - self.pos {
            return false;
        }
        let mut k: usize = 0;
        while k < m
            invariant
                m == s@.len(),
                n == self.chars@.len(),
                self.pos + m <= n,
                k <= m,
                forall|j: int| 0 <= j < k ==> self.chars@[self.pos + j] == #[trigger] s@[j],
            decreases m - k,
        {
            if self.chars[self.pos + k] != s.get_char(k) {
                return false;
            }
            k = k + 1;
        }
        true
    }

    /// The captured text `chars[start..pos]`, or an empty text.
    fn captured_text(&self, start: Option<usize>) -> (r: String)
        requires
            self.wf(),
            match start {
                Some(x) => x <= self.pos,
                None => true,
            },
        ensures
            r@ == captured(self.chars@, opt_index(start), self.pos as int),
    {
        match start {
            Some(x) => self.input.as_str().substring_char(x, self.pos).to_owned(),
            None => String::new(),
        }
    }

    /// Takes a signed-integer literal from the cursor on (see `scan_num`). On success,
    /// the literal's text; otherwise the text read so far and the character that
    /// stopped the scan. The cursor moves past what was read.
    pub fn take_num_str(&mut self) -> (r: Result<String, (String, char)>)
        requires
            old(self).wf(),
        ensures
            final(self).wf(),
            final(self).input == old(self).input,
            final(self).chars == old(self).chars,
            final(self).tokens == old(self).tokens,
            final(self).next == old(self).next,
            scan_num(old(self).chars@, old(self).pos as int, None) == (
            scan_view(r),
            final(self).pos as int,
            ),
    {
        let n = self.chars.len();
        let mut start: Option<usize> = None;
        while self.pos < n
            invariant
                self.wf(),
                n == self.chars.len(),
                self.input == old(self).input,
                self.chars == old(self).chars,
                self.tokens == old(self).tokens,
                self.next == old(self).next,
                scan_num(self.chars@, old(self).pos as int, None) == scan_num(
                    self.chars@,
                    self.pos as int,
                    opt_index(start),
                ),
                match start {
                    Some(x) => x < self.pos,
                    None => true,
                },
            decreases n - self.pos,
        {
            let c = self.chars[self.pos];
            if start.is_none() && is_space_char(c) {
                self.pos = self.pos + 1;
            } else if c == '+' || c == '-' {
                if start.is_some() {
                    let text = self.captured_text(start);
                    return Err((text, c));
                }
                if self.pos + 1 < n && is_digit_char(self.chars[self.pos + 1]) {
                    if c == '-' && self.chars[self.pos + 1] != '0' {
                        start = Some(self.pos);
                    }
                    self.pos = self.pos + 1;
                } else {
                    return Err((String::new(), c));
                }
            } else if is_digit_char(c) {
                if start.is_none() && c == '0' {
                    self.pos = self.pos + 1;
                    let zero = self.captured_text(Some(self.pos - 1));
                    assert(zero@ =~= seq!['0']);
                    if self.pos < n {
                        return Err((zero, self.chars[self.pos]));
                    } else {
                        return Ok(zero);
                    }
                }
                if start.is_none() {
                    start = Some(self.pos);
                }
                self.pos = self.pos + 1;
            } else {
                let text = self.captured_text(start);
                return Err((text, c));
            }
        }
        let text = self.captured_text(start);
        Ok(text)
    }
}

/// The two-character symbol that `c` followed by `=` writes.
pub open spec fn two_char_symbol(c: char) -> Reserved {
    if c == '=' {
        Reserved::Eq
    } else if c == '!' {
        Reserved::Ne
    } else if c == '<' {
        Reserved::Le
    } else {
        Reserved::Ge
    }
}

/// `t` in front of the tokens of a successful scan; an error passes through.
pub open spec fn cons_token(t: Token, r: Result<Seq<Token>, LexError>) -> Result<
    Seq<Token>,
    LexError,
> {
    match r {
        Ok(rest) => Ok(seq![t] + rest),
        Err(e) => Err(e),
    }
}

/// `v` in front of the tokens of a successful scan; an error passes through.
pub open spec fn prepend_tokens(v: Seq<Token>, r: Result<Seq<Token>, LexError>) -> Result<
    Seq<Token>,
    LexError,
> {
    match r {
        Ok(rest) => Ok(v + rest),
        Err(e) => Err(e),
    }
}

/// The tokens of `cs` from index `i` on, ending with `EOF`; or the first error.
pub open spec fn lex(cs: Seq<char>, i: int) -> Result<Seq<Token>, LexError>
    decreases cs.len() - i,
{
    if i < 0 || i >= cs.len() {
        Ok(seq![Token { kind: TokenKind::EOF, pos: cs.len() as usize }])
    } else {
        let c = cs[i];
        if is_space(c) {
            lex(cs, i + 1)
        } else if Reserved::of_char(c) is Some {
            cons_token(
                Token { kind: TokenKind::Reserved(Reserved::of_char(c)->0), pos: i as usize },
                lex(cs, i + 1),
            )
        } else if c == '=' || c == '!' || c == '<' || c == '>' {
            if i + 1 < cs.len() && cs[i + 1] == '=' {
                cons_token(
                    Token { kind: TokenKind::Reserved(two_char_symbol(c)), pos: i as usize },
                    lex(cs, i + 2),
                )
            } else if c == '<' {
                cons_token(
                    Token { kind: TokenKind::Reserved(Reserved::Lt), pos: i as usize },
                    lex(cs, i + 1),
                )
            } else if c == '>' {
                cons_token(
                    Token { kind: TokenKind::Reserved(Reserved::Gt), pos: i as usize },
                    lex(cs, i + 1),
                )
            } else {
                Err(LexError::InvalidOperator { pos: i as usize })
            }
        } else if is_digit(c) {
            let q = scan_num(cs, i, None).1;
            proof {
                lemma_scan_digit(cs, i);
            }
            match isize_of(literal_text(scan_num(cs, i, None).0)) {
                Some(v) => cons_token(
                    Token { kind: TokenKind::Num(v), pos: i as usize },
                    lex(cs, q),
                ),
                None => Err(LexError::NumberOutOfRange),
            }
        } else {
            Err(LexError::UnexpectedChar { pos: i as usize })
        }
    }
}

proof fn lemma_prepend_cons(v: Seq<Token>, t: Token, r: Result<Seq<Token>, LexError>)
    ensures
        prepend_tokens(v, cons_token(t, r)) == prepend_tokens(v.push(t), r),
{
    if let Ok(rest) = r {
        assert(v + (seq![t] + rest) =~= v.push(t) + rest);
    }
}

proof fn lemma_starts_at_pair(cs: Seq<char>, i: int, a: char, b: char)
    requires
        0 <= i < cs.len(),
    ensures
        starts_at(cs, i, seq![a, b]) <==> (i + 1 < cs.len() && cs[i] == a && cs[i + 1] == b),
{
    let p = seq![a, b];
    if i + 1 < cs.len() && cs[i] == a && cs[i + 1] == b {
        assert forall|k: int| 0 <= k < p.len() implies cs[i + k] == #[trigger] p[k] by {
            if k == 1 {
            }
        }
    }
    if starts_at(cs, i, p) {
        assert(p[0] == a && p[1] == b);
    }
}

proof fn lemma_starts_at_one(cs: Seq<char>, i: int, a: char)
    requires
        0 <= i < cs.len(),
    ensures
        starts_at(cs, i, seq![a]) <==> cs[i] == a,
{
    let p = seq![a];
    if starts_at(cs, i, p) {
        assert(p[0] == a);
    }
}

/// A successful scan ends with `EOF`, and every token starts within the input.
pub proof fn lemma_lex_shape(cs: Seq<char>, i: int)
    requires
        0 <= i,
        cs.len() <= usize::MAX,
    ensures
        lex(cs, i) is Ok ==> ({
            let t = lex(cs, i)->Ok_0;
            &&& t.len() > 0
            &&& t.last().kind == TokenKind::EOF
            &&& forall|k: int| 0 <= k < t.len() ==> #[trigger] t[k].pos <= cs.len()
        }),
    decreases cs.len() - i,
{
    if 0 <= i < cs.len() {
        let c = cs[i];
        if c == '=' || c == '!' || c == '<' || c == '>' {
            lemma_lex_shape(cs, i + 1);
            if i + 1 < cs.len() {
                lemma_lex_shape(cs, i + 2);
            }
        } else if is_digit(c) {
            lemma_scan_digit(cs, i);
            lemma_lex_shape(cs, scan_num(cs, i, None).1);
        } else {
            lemma_lex_shape(cs, i + 1);
        }
        if let Ok(t) = lex(cs, i) {
            if t.len() > 1 && !is_space(c) {
                assert forall|k: int| 0 <= k < t.len() implies #[trigger] t[k].pos <= cs.len() by {
                    if k > 0 {
                        assert(t[k] == t.drop_first()[k - 1]);
                    }
                }
            }
        }
    }
}

fn copy_vec<T: Copy>(v: &Vec<T>) -> (r: Vec<T>)
    ensures
        r@ == v@,
{
    let mut r: Vec<T> = Vec::new();
    let mut i: usize = 0;
    while i < v.len()
        invariant
            i <= v.len(),
            r@ == v@.take(i as int),
        decreases v.len() - i,
    {
        r.push(v[i]);
        i = i + 1;
        assert(r@ =~= v@.take(i as int));
    }
    assert(r@ =~= v@);
    r
}

impl Clone for Lexer {
    fn clone(&self) -> (r: Self)
        ensures
            r.input@ == self.input@,
            r.chars@ == self.chars@,
            r.pos == self.pos,
            r.tokens@ == self.tokens@,
            r.next == self.next,
    {
        Lexer {
            input: self.input.clone(),
            chars: copy_vec(&self.chars),
            pos: self.pos,
            tokens: copy_vec(&self.tokens),
            next: self.next,
        }
    }
}

impl Lexer {
    /// Splits the characters from the cursor on into tokens, ending with `EOF`
    /// (see `lex`). On success the tokens are also kept, with the token cursor at
    /// the first. On an error at a character, the cursor stays at that character.
    ///
    /// A number literal is read with `take_num_str`. Where that scan stops with an
    /// error, the text read so far is taken as the literal and tokenizing goes on at
    /// the character that stopped it: `007` is the three literals `0`, `0` and `7`,
    /// and `12a` is `12` followed by an unexpected character.
    pub fn tokenize(&mut self) -> (r: Result<Vec<Token>, LexError>)
        requires
            old(self).wf(),
        ensures
            final(self).wf(),
            final(self).input == old(self).input,
            final(self).chars == old(self).chars,
            lex(old(self).chars@, old(self).pos as int) == match r {
                Ok(v) => Ok(v@),
                Err(e) => Err(e),
            },
            r is Ok ==> final(self).tokens@ == r->Ok_0@ && final(self).next == 0
                && final(self).pos == final(self).chars.len(),
            r is Ok ==> final(self).tokens.len() > 0 && final(self).tokens@.last().kind
                == TokenKind::EOF,
            r is Err ==> final(self).tokens == old(self).tokens && final(self).next == old(
                self,
            ).next,
            r matches Err(LexError::UnexpectedChar { pos }) ==> final(self).pos == pos,
            r matches Err(LexError::InvalidOperator { pos }) ==> final(self).pos == pos,
    {
        let mut result: Vec<Token> = Vec::new();
        let n = self.chars.len();
        proof {
            if let Ok(rest) = lex(self.chars@, self.pos as int) {
                assert(result@ + rest =~= rest);
            }
        }
        while self.pos < n
            invariant
                self.wf(),
                n == self.chars.len(),
                self.input == old(self).input,
                self.chars == old(self).chars,
                self.tokens == old(self).tokens,
                self.next == old(self).next,
                lex(self.chars@, old(self).pos as int) == prepend_tokens(
                    result@,
                    lex(self.chars@, self.pos as int),
                ),
            decreases n - self.pos,
        {
            let ghost cs = self.chars@;
            let ghost i = self.pos as int;
            let c = self.chars[self.pos];
            if is_space_char(c) {
                self.pos = self.pos + 1;
            } else if c == '(' || c == ')' || c == '+' || c == '-' || c == '*' || c == '/' {
                match Reserved::try_from_char(&c) {
                    Ok(reserved) => {
                        let token = Token::new(TokenKind::Reserved(reserved), self.pos);
                        proof {
                            lemma_prepend_cons(result@, token, lex(cs, i + 1));
                        }
                        self.pos = self.pos + 1;
                        result.push(token);
                    },
                    Err(_) => {
                        return Err(LexError::UnexpectedChar { pos: self.pos });
                    },
                }
            } else if c == '=' || c == '!' || c == '<' || c == '>' {
                proof {
                    reveal_strlit("==");
                    reveal_strlit("!=");
                    reveal_strlit("<=");
                    reveal_strlit(">=");
                    reveal_strlit("<");
                    reveal_strlit(">");
                    assert("=="@ =~= seq!['=', '=']);
                    assert("!="@ =~= seq!['!', '=']);
                    assert("<="@ =~= seq!['<', '=']);
                    assert(">="@ =~= seq!['>', '=']);
                    assert("<"@ =~= seq!['<']);
                    assert(">"@ =~= seq!['>']);
                    lemma_starts_at_pair(cs, i, '=', '=');
                    lemma_starts_at_pair(cs, i, '!', '=');
                    lemma_starts_at_pair(cs, i, '<', '=');
                    lemma_starts_at_pair(cs, i, '>', '=');
                    lemma_starts_at_one(cs, i, '<');
                    lemma_starts_at_one(cs, i, '>');
                }
                let reserved = if self.start_with("==") {
                    Reserved::Eq
                } else if self.start_with("!=") {
                    Reserved::Ne
                } else if self.start_with("<=") {
                    Reserved::Le
                } else if self.start_with(">=") {
                    Reserved::Ge
                } else if self.start_with("<") {
                    Reserved::Lt
                } else if self.start_with(">") {
                    Reserved::Gt
                } else {
                    return Err(LexError::InvalidOperator { pos: self.pos });
                };
                let len = reserved.len();
                let token = Token::new(TokenKind::Reserved(reserved), self.pos);
                proof {
                    lemma_prepend_cons(result@, token, lex(cs, i + len));
                }
                self.pos = self.pos + len;
                result.push(token);
            } else if is_digit_char(c) {
                let start = self.pos;
                let num = match self.take_num_str() {
                    Ok(s) => s,
                    Err((s, _)) => s,
                };
                match parse_isize(num.as_str()) {
                    Some(v) => {
                        let token = Token::new(TokenKind::Num(v), start);
                        proof {
                            lemma_scan_digit(cs, i);
                            lemma_prepend_cons(result@, token, lex(cs, self.pos as int));
                        }
                        result.push(token);
                    },
                    None => {
                        return Err(LexError::NumberOutOfRange);
                    },
                }
            } else {
                return Err(LexError::UnexpectedChar { pos: self.pos });
            }
        }
        let eof = Token::new(TokenKind::EOF, self.pos);
        let ghost before = result@;
        assert(lex(self.chars@, self.pos as int) == Ok::<Seq<Token>, LexError>(seq![eof]));
        result.push(eof);
        assert(before + seq![eof] =~= result@);
        proof {
            lemma_lex_shape(self.chars@, old(self).pos as int);
        }
        self.tokens = copy_vec(&result);
        self.next = 0;
        Ok(result)
    }
}

impl Lexer {
    /// The kind of the next token, if there is one.
    pub open spec fn next_kind(&self) -> Option<TokenKind> {
        if self.next < self.tokens.len() {
            Some(self.tokens@[self.next as int].kind)
        } else {
            None
        }
    }

    /// Where the next token starts, in characters; the end of the input if none is left.
    pub open spec fn next_pos(&self) -> usize {
        if self.next < self.tokens.len() {
            self.tokens@[self.next as int].pos
        } else {
            self.chars.len()
        }
    }

    /// Only the token cursor moved, to `next`.
    pub open spec fn moved_to(&self, other: &Lexer, next: int) -> bool {
        &&& other.input == self.input
        &&& other.chars == self.chars
        &&& other.pos == self.pos
        &&& other.tokens == self.tokens
        &&& other.next == next
    }

    pub(crate) fn token_pos(&self) -> (r: usize)
        requires
            self.wf(),
        ensures
            r == self.next_pos(),
    {
        if self.next < self.tokens.len() {
            self.tokens[self.next].pos
        } else {
            self.chars.len()
        }
    }

    /// Whether the next token is the end of the input.
    pub fn at_eof(&self) -> (r: bool)
        requires
            self.wf(),
        ensures
            r == (self.next_kind() == Some(TokenKind::EOF)),
    {
        self.next < self.tokens.len() && matches!(self.tokens[self.next].kind, TokenKind::EOF)
    }

    /// When the next token is the symbol `expect`, moves past it and returns true;
    /// otherwise moves nothing and returns false.
    pub fn consume(&mut self, expect: Reserved) -> (r: bool)
        requires
            old(self).wf(),
        ensures
            final(self).wf(),
            r == (old(self).next_kind() == Some(TokenKind::Reserved(expect))),
            old(self).moved_to(final(self), old(self).next + if r { 1int } else { 0int }),
    {
        if self.next < self.tokens.len() {
            if let TokenKind::Reserved(reserved) = self.tokens[self.next].kind {
                if reserved == expect {
                    self.next = self.next + 1;
                    return true;
                }
            }
        }
        false
    }

    /// When the next token is the symbol `expect`, moves past it; otherwise moves
    /// nothing and reports where the symbol was required.
    pub fn expect(&mut self, expect: Reserved) -> (r: Result<(), SyntaxError>)
        requires
            old(self).wf(),
        ensures
            final(self).wf(),
            old(self).next_kind() == Some(TokenKind::Reserved(expect)) ==> r is Ok
                && old(self).moved_to(final(self), old(self).next + 1),
            old(self).next_kind() != Some(TokenKind::Reserved(expect)) ==> r == Err::<
                (),
                SyntaxError,
            >(SyntaxError::Expected { symbol: expect, pos: old(self).next_pos() })
                && old(self).moved_to(final(self), old(self).next as int),
    {
        if self.consume(expect) {
            Ok(())
        } else {
            Err(SyntaxError::Expected { symbol: expect, pos: self.token_pos() })
        }
    }

    /// When the next token is a number, moves past it and returns its value;
    /// otherwise moves nothing and reports where a number was required.
    pub fn expect_number(&mut self) -> (r: Result<isize, SyntaxError>)
        requires
            old(self).wf(),
        ensures
            final(self).wf(),
            match old(self).next_kind() {
                Some(TokenKind::Num(v)) => r == Ok::<isize, SyntaxError>(v) && old(
                    self,
                ).moved_to(final(self), old(self).next + 1),
                _ => r == Err::<isize, SyntaxError>(
                    SyntaxError::ExpectedNumber { pos: old(self).next_pos() },
                ) && old(self).moved_to(final(self), old(self).next as int),
            },
    {
        if self.next < self.tokens.len() {
            if let TokenKind::Num(num) = self.tokens[self.next].kind {
                self.next = self.next + 1;
                return Ok(num);
            }
        }
        Err(SyntaxError::ExpectedNumber { pos: self.token_pos() })
    }
}

impl Lexer {
    /// Where an error stands: the scan cursor while characters are left to scan,
    /// else the next token.
    pub open spec fn error_pos(&self) -> usize {
        if self.pos < self.chars.len() {
            self.pos
        } else {
            self.next_pos()
        }
    }

    /// Renders `msg` under the input with a caret where the lexer stands
    /// (see `error_pos`).
    pub fn error_at(&self, msg: &str) -> (r: String)
        requires
            self.wf(),
        ensures
            r@ == error_report(self.input@, self.error_pos() as int, msg@),
    {
        let pos = if self.pos < self.chars.len() {
            self.pos
        } else {
            self.token_pos()
        };
        render_error(self.input.as_str(), pos, msg)
    }
}

/// The decimal literal of `v`, followed by a non-digit or the end, is one `Num` token.
pub proof fn lemma_lex_number(cs: Seq<char>, i: int, m: int, v: nat)
    requires
        0 <= i < m <= cs.len(),
        cs.subrange(i, m) == crate::codegen::nat_text(v),
        v <= isize::MAX,
        m == cs.len() || !is_digit(cs[m]),
    ensures
        lex(cs, i) == cons_token(
            Token { kind: TokenKind::Num(v as isize), pos: i as usize },
            lex(cs, m),
        ),
{
    let d = crate::codegen::nat_text(v);
    crate::codegen::lemma_nat_text(v);
    assert(cs[i] == d[0]);
    assert forall|k: int| i <= k < m implies is_digit(#[trigger] cs[k]) by {
        assert(cs[k] == d[k - i]);
    }
    let c = cs[i];
    assert(is_digit(c));
    if c == '0' {
        assert(d =~= seq!['0']);
        assert(literal_text(scan_num(cs, i, None).0) == d);
    } else {
        lemma_scan_run(cs, i + 1, i, m);
        assert(literal_text(scan_num(cs, i, None).0) == d);
    }
    assert(isize_of(d) == Some(v as isize));
}

/// A symbol's text, followed by a digit, is one `Reserved` token.
pub proof fn lemma_lex_symbol(cs: Seq<char>, i: int, op: Reserved)
    requires
        0 <= i,
        i + op.text().len() < cs.len(),
        cs.subrange(i, i + op.text().len()) == op.text(),
        is_digit(cs[i + op.text().len()]),
    ensures
        lex(cs, i) == cons_token(
            Token { kind: TokenKind::Reserved(op), pos: i as usize },
            lex(cs, i + op.text().len()),
        ),
{
    assert(cs[i] == op.text()[0]);
    if op.text().len() == 2 {
        assert(cs[i + 1] == op.text()[1]);
    }
}

/// At the end of the input the tokens are `EOF` alone.
pub proof fn lemma_lex_end(cs: Seq<char>)
    ensures
        lex(cs, cs.len() as int) == Ok::<Seq<Token>, LexError>(
            seq![Token { kind: TokenKind::EOF, pos: cs.len() as usize }],
        ),
{
}

} // verus!
