//! Byte and text helpers shared by the codec: decimal numbers, searches in byte
//! strings, ASCII case folding, and slicing text at ASCII delimiters.

use vstd::prelude::*;
use vstd::string::*;
use vstd::utf8::*;

verus! {

/// The character for the decimal digit `d`.
pub open spec fn digit_char(d: nat) -> char {
    ((48 + d) as u8) as char
}

/// The decimal digits of `n`, most significant first, without leading zeros.
pub open spec fn decimal(n: nat) -> Seq<char>
    decreases n,
{
    if n < 10 {
        seq![digit_char(n)]
    } else {
        decimal(n / 10).push(digit_char(n % 10))
    }
}

fn digit_str(d: u64) -> (r: &'static str)
    requires
        d < 10,
    ensures
        r@ == seq![digit_char(d as nat)],
{
    if d == 0 {
        proof {
            reveal_strlit("0");
        }
        "0"
    } else if d == 1 {
        proof {
            reveal_strlit("1");
        }
        "1"
    } else if d == 2 {
        proof {
            reveal_strlit("2");
        }
        "2"
    } else if d == 3 {
        proof {
            reveal_strlit("3");
        }
        "3"
    } else if d == 4 {
        proof {
            reveal_strlit("4");
        }
        "4"
    } else if d == 5 {
        proof {
            reveal_strlit("5");
        }
        "5"
    } else if d == 6 {
        proof {
            reveal_strlit("6");
        }
        "6"
    } else if d == 7 {
        proof {
            reveal_strlit("7");
        }
        "7"
    } else if d == 8 {
        proof {
            reveal_strlit("8");
        }
        "8"
    } else {
        proof {
            reveal_strlit("9");
        }
        "9"
    }
}

/// Appends the decimal digits of `n` to `out`.
pub fn push_decimal(out: &mut String, n: u64)
    ensures
        final(out)@ == old(out)@ + decimal(n as nat),
    decreases n,
{
    if n >= 10 {
        push_decimal(out, n / 10);
    }
    out.append(digit_str(n % 10));
}

/// Appends the bytes of `src` to `out`.
pub fn push_bytes(out: &mut Vec<u8>, src: &[u8])
    ensures
        final(out)@ == old(out)@ + src@,
{
    let mut i: usize = 0;
    while i < src.len()
        invariant
            i <= src@.len(),
            out@ == old(out)@ + src@.subrange(0, i as int),
        decreases src@.len() - i,
    {
        out.push(src[i]);
        i += 1;
        assert(src@.subrange(0, i as int) =~= src@.subrange(0, i - 1).push(src@[i - 1]));
    }
    assert(src@.subrange(0, i as int) =~= src@);
}

/// Appends the UTF-8 encoding of `s` to `out`.
pub fn push_text(out: &mut Vec<u8>, s: &str)
    ensures
        final(out)@ == old(out)@ + encode_utf8(s@),
{
    push_bytes(out, s.as_bytes());
}

/// Byte values of the ASCII characters that the wire format uses.
pub const LF: u8 = 10;
pub const CR: u8 = 13;
pub const SPACE: u8 = 32;
pub const PERCENT: u8 = 37;
pub const PLUS: u8 = 43;
pub const MINUS: u8 = 45;
pub const COLON: u8 = 58;
pub const SLASH: u8 = 47;
pub const DOT: u8 = 46;

/// The first position at or after `i` that holds `x`, or the length of `b` if none does.
pub open spec fn find_byte(b: Seq<u8>, x: u8, i: int) -> int
    decreases b.len() - i,
{
    if i < 0 || i >= b.len() {
        b.len() as int
    } else if b[i] == x {
        i
    } else {
        find_byte(b, x, i + 1)
    }
}

pub proof fn lemma_find_byte(b: Seq<u8>, x: u8, i: int)
    requires
        0 <= i,
    ensures
        i <= b.len() ==> i <= find_byte(b, x, i) <= b.len(),
        find_byte(b, x, i) < b.len() ==> b[find_byte(b, x, i)] == x,
        forall|k: int| i <= k < find_byte(b, x, i) ==> b[k] != x,
    decreases b.len() - i,
{
    if i < b.len() && b[i] != x {
        lemma_find_byte(b, x, i + 1);
    }
}

/// The first position at or after `from` in `b` that holds `x`, or the length of `b`.
pub fn find(b: &[u8], x: u8, from: usize) -> (r: usize)
    requires
        from <= b@.len(),
    ensures
        r == find_byte(b@, x, from as int),
        from <= r <= b@.len(),
{
    let mut k = from;
    while k < b.len()
        invariant
            from <= k <= b@.len(),
            find_byte(b@, x, k as int) == find_byte(b@, x, from as int),
        decreases b@.len() - k,
    {
        if b[k] == x {
            return k;
        }
        k += 1;
    }
    k
}

/// Whether `b[from..to]` begins with `p`.
pub fn has_prefix(b: &[u8], from: usize, to: usize, p: &[u8]) -> (r: bool)
    requires
        from <= to <= b@.len(),
    ensures
        r == p@.is_prefix_of(b@.subrange(from as int, to as int)),
{
    if p.len() > to - from {
        return false;
    }
    let mut i: usize = 0;
    while i < p.len()
        invariant
            p@.len() <= to - from,
            from <= to <= b@.len(),
            i <= p@.len(),
            forall|k: int| 0 <= k < i ==> p@[k] == b@[from + k],
        decreases p@.len() - i,
    {
        if p[i] != b[from + i] {
            return false;
        }
        i += 1;
    }
    true
}

/// ASCII upper-case letters turned into lower case; every other byte kept.
pub open spec fn ascii_lower(c: u8) -> u8 {
    if 65 <= c <= 90 {
        (c + 32) as u8
    } else {
        c
    }
}

pub open spec fn lower(s: Seq<u8>) -> Seq<u8> {
    s.map_values(|c: u8| ascii_lower(c))
}

/// Whether `b[from..to]`, with ASCII letters in lower case, is `lit`.
pub fn lower_matches(b: &[u8], from: usize, to: usize, lit: &[u8]) -> (r: bool)
    requires
        from <= to <= b@.len(),
    ensures
        r == (lower(b@.subrange(from as int, to as int)) == lit@),
{
    let ghost key = b@.subrange(from as int, to as int);
    if lit.len() != to - from {
        assert(lower(key).len() != lit@.len());
        return false;
    }
    let mut i: usize = 0;
    while i < lit.len()
        invariant
            lit@.len() == to - from,
            from <= to <= b@.len(),
            key == b@.subrange(from as int, to as int),
            i <= lit@.len(),
            forall|k: int| 0 <= k < i ==> lit@[k] == ascii_lower(key[k]),
        decreases lit@.len() - i,
    {
        let c = b[from + i];
        let l = if 65 <= c && c <= 90 {
            c + 32
        } else {
            c
        };
        if l != lit[i] {
            assert(lower(key)[i as int] != lit@[i as int]);
            return false;
        }
        i += 1;
    }
    assert(lower(key) =~= lit@);
    true
}

/// Whether every byte of `s` is an ASCII digit.
pub open spec fn all_digits(s: Seq<u8>) -> bool {
    forall|k: int| 0 <= k < s.len() ==> 48 <= #[trigger] s[k] <= 57
}

/// The number that the ASCII digits `s` write in base ten.
pub open spec fn digits_value(s: Seq<u8>) -> nat
    decreases s.len(),
{
    if s.len() == 0 {
        0
    } else {
        digits_value(s.drop_last()) * 10 + (s.last() - 48) as nat
    }
}

/// The digits of a number written with an optional leading `+`.
pub open spec fn unsigned_digits(s: Seq<u8>) -> Seq<u8> {
    if s.len() > 0 && s[0] == PLUS {
        s.subrange(1, s.len() as int)
    } else {
        s
    }
}

/// The `usize` that `s` writes: an optional `+`, then one digit or more, with a value
/// that fits.
pub open spec fn parse_usize(s: Seq<u8>) -> Option<usize> {
    let d = unsigned_digits(s);
    if d.len() > 0 && all_digits(d) && digits_value(d) <= usize::MAX {
        Some(digits_value(d) as usize)
    } else {
        None
    }
}

proof fn lemma_digits_value_grows(s: Seq<u8>, j: int)
    requires
        all_digits(s),
        0 <= j <= s.len(),
    ensures
        digits_value(s.subrange(0, j)) <= digits_value(s),
    decreases s.len(),
{
    if j < s.len() {
        lemma_digits_value_grows(s.drop_last(), j);
        assert(s.drop_last().subrange(0, j) =~= s.subrange(0, j));
        assert(digits_value(s.drop_last()) <= digits_value(s)) by (nonlinear_arith)
            requires
                digits_value(s) == digits_value(s.drop_last()) * 10 + (s.last() - 48) as nat,
        ;
    } else {
        assert(s.subrange(0, j) =~= s);
    }
}

/// Reads the `usize` that `b[from..to]` writes in decimal.
pub fn parse_decimal(b: &[u8], from: usize, to: usize) -> (r: Option<usize>)
    requires
        from <= to <= b@.len(),
    ensures
        r == parse_usize(b@.subrange(from as int, to as int)),
{
    let ghost s = b@.subrange(from as int, to as int);
    let mut start = from;
    if start < to && b[start] == PLUS {
        start += 1;
    }
    let ghost d = b@.subrange(start as int, to as int);
    assert(d =~= unsigned_digits(s));
    if start >= to {
        return None;
    }
    let mut acc: usize = 0;
    let mut i = start;
    while i < to
        invariant
            from <= start <= i <= to <= b@.len(),
            d == b@.subrange(start as int, to as int),
            s == b@.subrange(from as int, to as int),
            d.len() > 0,
            d == unsigned_digits(s),
            all_digits(d.subrange(0, i - start)),
            acc == digits_value(d.subrange(0, i - start)),
        decreases to - i,
    {
        let c = b[i];
        if c < 48 || c > 57 {
            assert(!all_digits(d)) by {
                assert(d[i - start] == c);
            }
            return None;
        }
        let dig = (c - 48) as usize;
        let ghost next = d.subrange(0, i - start + 1);
        assert(next.drop_last() =~= d.subrange(0, i - start));
        assert(all_digits(next));
        if acc > (usize::MAX - dig) / 10 {
            assert(digits_value(next) > usize::MAX) by (nonlinear_arith)
                requires
                    acc > (usize::MAX - dig) / 10,
                    digits_value(next) == acc * 10 + dig,
            ;
            proof {
                if all_digits(d) {
                    lemma_digits_value_grows(d, i - start + 1);
                }
            }
            return None;
        }
        assert(acc * 10 + dig <= usize::MAX) by (nonlinear_arith)
            requires
                acc <= (usize::MAX - dig) / 10,
        ;
        acc = acc * 10 + dig;
        i += 1;
    }
    assert(d.subrange(0, i - start) =~= d);
    Some(acc)
}

/// The value of a hexadecimal digit, upper or lower case.
pub open spec fn hex_value(c: u8) -> Option<u8> {
    if 48 <= c <= 57 {
        Some((c - 48) as u8)
    } else if 97 <= c <= 102 {
        Some((c - 87) as u8)
    } else if 65 <= c <= 70 {
        Some((c - 55) as u8)
    } else {
        None
    }
}

pub fn hex_digit(c: u8) -> (r: Option<u8>)
    ensures
        r == hex_value(c),
{
    if 48 <= c && c <= 57 {
        Some(c - 48)
    } else if 97 <= c && c <= 102 {
        Some(c - 87)
    } else if 65 <= c && c <= 70 {
        Some(c - 55)
    } else {
        None
    }
}

/// Whether the text `a` is the text `b`.
pub fn str_eq(a: &str, b: &str) -> (r: bool)
    ensures
        r == (a@ == b@),
{
    let x = a.as_bytes();
    let y = b.as_bytes();
    proof {
        encode_utf8_decode_utf8(a@);
        encode_utf8_decode_utf8(b@);
    }
    if x.len() != y.len() {
        return false;
    }
    let r = has_prefix(x, 0, x.len(), y);
    assert(x@.subrange(0, x@.len() as int) =~= x@);
    proof {
        if r {
            assert(x@ =~= y@);
        }
    }
    r
}

/// Whether position `i` of `b` falls just before or just after an ASCII byte, or at
/// either end: in UTF-8, such a position starts a character.
pub open spec fn ascii_cut(b: Seq<u8>, i: int) -> bool {
    ||| i == 0
    ||| i == b.len()
    ||| (0 <= i < b.len() && b[i] < 0x80)
    ||| (0 < i <= b.len() && b[i - 1] < 0x80)
}

proof fn lemma_boundary_after_ascii(b: Seq<u8>, i: int)
    requires
        valid_utf8(b),
        0 < i <= b.len(),
        b[i - 1] < 0x80,
    ensures
        is_char_boundary(b, i),
    decreases b.len(),
{
    reveal_with_fuel(is_char_boundary, 2);
    let n = length_of_first_scalar(b);
    let tail = pop_first_scalar(b);
    assert(valid_first_scalar(b) && valid_utf8(tail));
    assert(1 <= n <= b.len());
    if i - n > 0 {
        assert(tail[i - 1 - n] == b[i - 1]);
        lemma_boundary_after_ascii(tail, i - n);
    } else if i < n {
        assert(i - 1 >= 1);
        assert(is_continuation_byte(b[i - 1]));
    }
}

pub proof fn lemma_ascii_cut(b: Seq<u8>, i: int)
    requires
        valid_utf8(b),
        ascii_cut(b, i),
    ensures
        is_char_boundary(b, i),
{
    is_char_boundary_start_end_of_seq(b);
    if 0 <= i < b.len() && b[i] < 0x80 {
        is_char_boundary_iff_not_is_continuation_byte(b, i);
    } else if 0 < i <= b.len() && b[i - 1] < 0x80 {
        lemma_boundary_after_ascii(b, i);
    }
}

/// The text of `s` between two byte positions that fall next to ASCII bytes.
pub fn slice_str(s: &str, from: usize, to: usize) -> (r: &str)
    requires
        from <= to <= s.spec_bytes().len(),
        ascii_cut(s.spec_bytes(), from as int),
        ascii_cut(s.spec_bytes(), to as int),
    ensures
        r.spec_bytes() == s.spec_bytes().subrange(from as int, to as int),
        r@ == decode_utf8(s.spec_bytes().subrange(from as int, to as int)),
{
    let ghost b = s.spec_bytes();
    proof {
        encode_utf8_valid_utf8(s@);
        lemma_ascii_cut(b, from as int);
    }
    let (_, rest) = s.split_at(from);
    let ghost c = rest.spec_bytes();
    assert(c =~= b.subrange(from as int, b.len() as int));
    proof {
        encode_utf8_valid_utf8(rest@);
        let j = to - from;
        if j > 0 && to < b.len() && b[to as int] < 0x80 {
            assert(c[j] == b[to as int]);
        }
        if j > 0 && b[to - 1] < 0x80 {
            assert(c[j - 1] == b[to - 1]);
        }
        lemma_ascii_cut(c, j);
    }
    let (mid, _) = rest.split_at(to - from);
    assert(mid.spec_bytes() =~= b.subrange(from as int, to as int));
    proof {
        encode_utf8_decode_utf8(mid@);
    }
    mid
}

} // verus!
