use vstd::prelude::*;

verus! {

/// The characters that `char::is_whitespace` accepts (Unicode White_Space).
pub open spec fn is_space(c: char) -> bool {
    ||| c == ' '
    ||| '\t' <= c <= '\r'
    ||| c == '\u{85}'
    ||| c == '\u{a0}'
    ||| c == '\u{1680}'
    ||| '\u{2000}' <= c <= '\u{200a}'
    ||| c == '\u{2028}'
    ||| c == '\u{2029}'
    ||| c == '\u{202f}'
    ||| c == '\u{205f}'
    ||| c == '\u{3000}'
}

pub open spec fn is_digit(c: char) -> bool {
    '0' <= c <= '9'
}

pub fn is_space_char(c: char) -> (r: bool)
    ensures
        r == is_space(c),
{
    c == ' ' || ('\t' <= c && c <= '\r') || c == '\u{85}' || c == '\u{a0}' || c == '\u{1680}'
        || ('\u{2000}' <= c && c <= '\u{200a}') || c == '\u{2028}' || c == '\u{2029}'
        || c == '\u{202f}' || c == '\u{205f}' || c == '\u{3000}'
}

pub fn is_digit_char(c: char) -> (r: bool)
    ensures
        r == is_digit(c),
{
    '0' <= c && c <= '9'
}

/// Text captured by the number scanner: from `start` up to `p`, or nothing.
pub open spec fn captured(cs: Seq<char>, start: Option<int>, p: int) -> Seq<char> {
    match start {
        Some(s) => cs.subrange(s, p),
        None => Seq::empty(),
    }
}

/// The signed-integer literal scanner, from index `p` with the text captured so far
/// starting at `start`. Returns the scan's outcome and the index where it stopped.
/// Leading white space is skipped; a sign is accepted only before the first digit and
/// only when a digit follows; `+` is dropped, and so is `-` before `0`; a first digit
/// `0` ends the literal; any other character ends the scan with an error that holds
/// the text so far and that character.
pub open spec fn scan_num(cs: Seq<char>, p: int, start: Option<int>) -> (Result<
    Seq<char>,
    (Seq<char>, char),
>, int)
    decreases cs.len() - p,
{
    if p < 0 || p >= cs.len() {
        (Ok(captured(cs, start, p)), p)
    } else {
        let c = cs[p];
        if start is None && is_space(c) {
            scan_num(cs, p + 1, None)
        } else if c == '+' || c == '-' {
            if start is None {
                if p + 1 < cs.len() && is_digit(cs[p + 1]) {
                    if c == '-' && cs[p + 1] != '0' {
                        scan_num(cs, p + 1, Some(p))
                    } else {
                        scan_num(cs, p + 1, None)
                    }
                } else {
                    (Err((Seq::empty(), c)), p)
                }
            } else {
                (Err((captured(cs, start, p), c)), p)
            }
        } else if is_digit(c) {
            if start is None && c == '0' {
                if p + 1 < cs.len() {
                    (Err((seq!['0'], cs[p + 1])), p + 1)
                } else {
                    (Ok(seq!['0']), p + 1)
                }
            } else {
                scan_num(cs, p + 1, if start is None { Some(p) } else { start })
            }
        } else {
            (Err((captured(cs, start, p), c)), p)
        }
    }
}

/// Value of a string of decimal digits.
pub open spec fn decimal_value(d: Seq<char>) -> int
    decreases d.len(),
{
    if d.len() == 0 {
        0
    } else {
        decimal_value(d.drop_last()) * 10 + (d.last() as int - '0' as int)
    }
}

pub open spec fn all_digits(d: Seq<char>) -> bool {
    forall|k: int| 0 <= k < d.len() ==> is_digit(#[trigger] d[k])
}

/// The `isize` that the text writes: an optional sign and at least one decimal digit,
/// with a value in range.
pub open spec fn isize_of(t: Seq<char>) -> Option<isize> {
    let signed = t.len() > 0 && (t[0] == '-' || t[0] == '+');
    let d = if signed { t.drop_first() } else { t };
    let v = if t.len() > 0 && t[0] == '-' { -decimal_value(d) } else { decimal_value(d) };
    if d.len() > 0 && all_digits(d) && isize::MIN <= v <= isize::MAX {
        Some(v as isize)
    } else {
        None
    }
}

proof fn lemma_decimal_push(s: Seq<char>, a: int, k: int)
    requires
        0 <= a <= k < s.len(),
    ensures
        decimal_value(s.subrange(a, k + 1)) == decimal_value(s.subrange(a, k)) * 10 + (
        s[k] as int - '0' as int),
{
    assert(s.subrange(a, k + 1).drop_last() =~= s.subrange(a, k));
}

proof fn lemma_decimal_nonneg(d: Seq<char>)
    requires
        all_digits(d),
    ensures
        decimal_value(d) >= 0,
    decreases d.len(),
{
    if d.len() > 0 {
        assert(is_digit(d[d.len() - 1]));
        lemma_decimal_nonneg(d.drop_last());
    }
}

/// A prefix of a digit string has no greater value than the whole.
proof fn lemma_decimal_prefix(d: Seq<char>, k: int)
    requires
        all_digits(d),
        0 <= k <= d.len(),
    ensures
        decimal_value(d.take(k)) <= decimal_value(d),
    decreases d.len(),
{
    if k < d.len() {
        let e = d.drop_last();
        assert(e.take(k) =~= d.take(k));
        assert(is_digit(d[d.len() - 1]));
        lemma_decimal_prefix(e, k);
        lemma_decimal_nonneg(e);
    } else {
        assert(d.take(k) =~= d);
    }
}

/// Reads the `isize` that `t` writes, as `str::parse::<isize>` does.
pub fn parse_isize(t: &str) -> (r: Option<isize>)
    ensures
        r == isize_of(t@),
{
    let n = t.unicode_len();
    if n == 0 {
        return None;
    }
    let first = t.get_char(0);
    let neg = first == '-';
    let start: usize = if first == '-' || first == '+' { 1 } else { 0 };
    let ghost d = if start == 1 { t@.drop_first() } else { t@ };
    assert(d =~= t@.subrange(start as int, n as int));
    if start >= n {
        return None;
    }
    let mut acc: i128 = 0;
    let mut k: usize = start;
    while k < n
        invariant
            n == t@.len(),
            n > 0,
            neg == (t@[0] == '-'),
            start == (if t@[0] == '-' || t@[0] == '+' { 1usize } else { 0usize }),
            start <= k <= n,
            d =~= t@.subrange(start as int, n as int),
            d == (if start == 1 { t@.drop_first() } else { t@ }),
            all_digits(t@.subrange(start as int, k as int)),
            acc == decimal_value(t@.subrange(start as int, k as int)),
            0 <= acc <= isize::MAX as int + 1,
        decreases n - k,
    {
        let c = t.get_char(k);
        if !is_digit_char(c) {
            assert(d[k - start] == c);
            assert(!all_digits(d));
            return None;
        }
        proof {
            lemma_decimal_push(t@, start as int, k as int);
            assert forall|j: int| 0 <= j < (k + 1 - start) implies is_digit(
                #[trigger] t@.subrange(start as int, k + 1)[j],
            ) by {
                if j < k - start {
                    assert(t@.subrange(start as int, k + 1)[j] == t@.subrange(
                        start as int,
                        k as int,
                    )[j]);
                }
            }
        }
        acc = acc * 10 + (c as u32 - '0' as u32) as i128;
        k = k + 1;
        if acc > isize::MAX as i128 + 1 {
            proof {
                if all_digits(d) {
                    assert(d.take(k - start) =~= t@.subrange(start as int, k as int));
                    lemma_decimal_prefix(d, k - start);
                    assert(decimal_value(d) > isize::MAX + 1);
                    assert(isize::MIN == -isize::MAX - 1);
                }
            }
            return None;
        }
    }
    assert(t@.subrange(start as int, k as int) =~= d);
    let v: i128 = if neg { -acc } else { acc };
    if v < isize::MIN as i128 || v > isize::MAX as i128 {
        None
    } else {
        Some(v as isize)
    }
}

/// The text of the literal that the scanner reads, whether it stopped cleanly or
/// not: the lexer takes the longest well-formed prefix.
pub open spec fn literal_text(r: Result<Seq<char>, (Seq<char>, char)>) -> Seq<char> {
    match r {
        Ok(t) => t,
        Err((t, _)) => t,
    }
}

pub proof fn lemma_scan_bounds(cs: Seq<char>, p: int, start: Option<int>)
    requires
        0 <= p <= cs.len(),
    ensures
        p <= scan_num(cs, p, start).1 <= cs.len(),
    decreases cs.len() - p,
{
    if p < cs.len() {
        let c = cs[p];
        if start is None && is_space(c) {
            lemma_scan_bounds(cs, p + 1, None);
        } else if c == '+' || c == '-' {
            if start is None && p + 1 < cs.len() && is_digit(cs[p + 1]) {
                lemma_scan_bounds(cs, p + 1, Some(p));
                lemma_scan_bounds(cs, p + 1, None);
            }
        } else if is_digit(c) {
            lemma_scan_bounds(cs, p + 1, if start is None { Some(p) } else { start });
        }
    }
}

pub proof fn lemma_scan_digit(cs: Seq<char>, i: int)
    requires
        0 <= i < cs.len(),
        is_digit(cs[i]),
    ensures
        i < scan_num(cs, i, None).1 <= cs.len(),
{
    if cs[i] != '0' {
        lemma_scan_bounds(cs, i + 1, Some(i));
    }
}

/// A run of digits after the start of a literal is read up to the first non-digit.
pub proof fn lemma_scan_run(cs: Seq<char>, p: int, s: int, m: int)
    requires
        0 <= s < p <= m <= cs.len(),
        forall|k: int| p <= k < m ==> is_digit(#[trigger] cs[k]),
        m == cs.len() || !is_digit(cs[m]),
    ensures
        scan_num(cs, p, Some(s)).1 == m,
        literal_text(scan_num(cs, p, Some(s)).0) == cs.subrange(s, m),
    decreases m - p,
{
    if p < m {
        lemma_scan_run(cs, p + 1, s, m);
    }
}

/// A literal `-0` reads as `0`: the scanner drops a minus sign before a zero.
pub proof fn law_minus_zero_reads_as_zero(rest: Seq<char>)
    ensures
        scan_num(seq!['-', '0'] + rest, 0, None).0 == scan_num(seq!['0'] + rest, 0, None).0,
{
    let a = seq!['-', '0'] + rest;
    let b = seq!['0'] + rest;
    assert(a[0] == '-' && a[1] == '0');
    assert(b[0] == '0');
    if rest.len() > 0 {
        assert(a[2] == rest[0] && b[1] == rest[0]);
    }
    assert(is_digit(a[1]));
    assert(scan_num(a, 0, None) == scan_num(a, 1, None));
}

/// A literal does not read past a leading zero: the character after it ends the scan.
pub proof fn law_leading_zero_ends_literal(rest: Seq<char>)
    requires
        rest.len() > 0,
    ensures
        scan_num(seq!['0'] + rest, 0, None) == (
            Err::<Seq<char>, (Seq<char>, char)>((seq!['0'], rest[0])),
            1int,
        ),
{
    let b = seq!['0'] + rest;
    assert(b[0] == '0' && b[1] == rest[0]);
}

} // verus!
