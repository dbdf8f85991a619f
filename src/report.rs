use vstd::prelude::*;

verus! {

/// Number of bytes in the UTF-8 encoding of `c`.
pub open spec fn utf8_width(c: char) -> nat {
    if (c as u32) < 0x80 {
        1
    } else if (c as u32) < 0x800 {
        2
    } else if (c as u32) < 0x10000 {
        3
    } else {
        4
    }
}

pub proof fn lemma_encode_scalar_len(c: char)
    ensures
        vstd::utf8::encode_scalar(c as u32).len() == utf8_width(c),
{
    vstd::utf8::char_is_scalar(c);
}

pub proof fn lemma_encode_utf8_concat(a: Seq<char>, b: Seq<char>)
    ensures
        vstd::utf8::encode_utf8(a + b) == vstd::utf8::encode_utf8(a) + vstd::utf8::encode_utf8(b),
    decreases a.len(),
{
    if a.len() > 0 {
        assert((a + b).drop_first() =~= a.drop_first() + b);
        lemma_encode_utf8_concat(a.drop_first(), b);
        assert(vstd::utf8::encode_utf8(a + b) =~= vstd::utf8::encode_utf8(a)
            + vstd::utf8::encode_utf8(b));
    } else {
        assert(a + b =~= b);
        assert(vstd::utf8::encode_utf8(a) + vstd::utf8::encode_utf8(b) =~= vstd::utf8::encode_utf8(
            b,
        ));
    }
}

fn char_width(c: char) -> (r: u128)
    ensures
        r == utf8_width(c),
{
    let u = c as u32;
    if u < 0x80 {
        1
    } else if u < 0x800 {
        2
    } else if u < 0x10000 {
        3
    } else {
        4
    }
}

/// Byte offset, in the UTF-8 text, of character index `pos`.
pub fn byte_offset(s: &str, pos: usize) -> (r: u128)
    requires
        pos <= s@.len(),
    ensures
        r == vstd::utf8::encode_utf8(s@.take(pos as int)).len(),
{
    let mut off: u128 = 0;
    let mut k: usize = 0;
    while k < pos
        invariant
            pos <= s@.len(),
            k <= pos,
            off == vstd::utf8::encode_utf8(s@.take(k as int)).len(),
            off <= 4 * k,
        decreases pos - k,
    {
        let c = s.get_char(k);
        proof {
            assert(s@.take(k + 1) =~= s@.take(k as int) + seq![c]);
            lemma_encode_utf8_concat(s@.take(k as int), seq![c]);
            lemma_encode_scalar_len(c);
            assert(seq![c].drop_first() =~= Seq::<char>::empty());
            assert(vstd::utf8::encode_utf8(Seq::<char>::empty()) =~= Seq::<u8>::empty());
            assert(seq![c][0] == c);
            assert(vstd::utf8::encode_utf8(seq![c]) =~= vstd::utf8::encode_scalar(c as u32));
        }
        off = off + char_width(c);
        k = k + 1;
    }
    off
}

pub open spec fn spaces(n: nat) -> Seq<char> {
    Seq::new(n, |_k: int| ' ')
}

/// The input, then a line with a caret under the byte at character index `pos`,
/// followed by the message.
pub open spec fn error_report(input: Seq<char>, pos: int, msg: Seq<char>) -> Seq<char> {
    input + seq!['\n'] + spaces(vstd::utf8::encode_utf8(input.take(pos)).len()) + seq!['^', ' ']
        + msg
}

/// Renders `msg` under the input with a caret at character index `pos`
/// (see `error_report`).
pub fn render_error(input: &str, pos: usize, msg: &str) -> (r: String)
    requires
        pos <= input@.len(),
    ensures
        r@ == error_report(input@, pos as int, msg@),
{
    let off = byte_offset(input, pos);
    let mut r = input.to_owned();
    proof {
        reveal_strlit("\n");
    }
    r.append("\n");
    let ghost head = r@;
    let mut k: u128 = 0;
    while k < off
        invariant
            k <= off,
            r@ == head + spaces(k as nat),
        decreases off - k,
    {
        proof {
            reveal_strlit(" ");
        }
        r.append(" ");
        k = k + 1;
        assert(r@ =~= head + spaces(k as nat));
    }
    proof {
        reveal_strlit("^ ");
    }
    r.append("^ ");
    r.append(msg);
    assert(r@ =~= error_report(input@, pos as int, msg@));
    r
}

} // verus!
