//! Text building blocks: decimal numbers, padding, string comparison.

use vstd::prelude::*;
use vstd::utf8::*;

verus! {

/// The character of a decimal digit.
pub open spec fn digit(d: nat) -> char
    recommends
        d < 10,
{
    (48 + d) as char
}

/// `n` in decimal, without leading zeros.
pub open spec fn decimal(n: nat) -> Seq<char>
    decreases n,
{
    if n < 10 {
        seq![digit(n)]
    } else {
        decimal(n / 10).push(digit(n % 10))
    }
}

/// The number that a sequence of decimal digits stands for, leading zeros or not.
pub open spec fn digits_value(s: Seq<char>) -> nat
    decreases s.len(),
{
    if s.len() == 0 {
        0
    } else {
        digits_value(s.drop_last()) * 10 + (s.last() as int - 48) as nat
    }
}

pub open spec fn is_digit(c: char) -> bool {
    48 <= c as int <= 57
}

/// A nonempty sequence of decimal digits.
pub open spec fn is_number(s: Seq<char>) -> bool {
    s.len() > 0 && forall|i: int| 0 <= i < s.len() ==> is_digit(#[trigger] s[i])
}

/// The digits of a number that may have a plus sign.
pub open spec fn unsigned_part(s: Seq<char>) -> Seq<char> {
    if s.len() > 0 && s[0] == '+' {
        s.skip(1)
    } else {
        s
    }
}

/// The number that `s` is, if it is one and fits: an optional plus sign and digits.
pub open spec fn as_u32(s: Seq<char>) -> Option<u32> {
    let d = unsigned_part(s);
    if is_number(d) && digits_value(d) <= u32::MAX {
        Some(digits_value(d) as u32)
    } else {
        None
    }
}

/// `n` blanks.
pub open spec fn blanks(n: nat) -> Seq<char> {
    Seq::new(n, |i: int| ' ')
}

/// `s`, filled up with blanks on the right to at least `width` characters.
pub open spec fn pad_right(s: Seq<char>, width: nat) -> Seq<char> {
    if s.len() < width {
        s + blanks((width - s.len()) as nat)
    } else {
        s
    }
}

/// The sequences, one after the other.
pub open spec fn concat<A>(parts: Seq<Seq<A>>) -> Seq<A>
    decreases parts.len(),
{
    if parts.len() == 0 {
        Seq::empty()
    } else {
        concat(parts.drop_last()) + parts.last()
    }
}

/// The strings, with `sep` between them.
pub open spec fn join(parts: Seq<Seq<char>>, sep: Seq<char>) -> Seq<char>
    decreases parts.len(),
{
    if parts.len() == 0 {
        Seq::empty()
    } else if parts.len() == 1 {
        parts[0]
    } else {
        join(parts.drop_last(), sep) + sep + parts.last()
    }
}

/// `s` ends with `suffix`.
pub open spec fn ends_with(s: Seq<char>, suffix: Seq<char>) -> bool {
    suffix.len() <= s.len() && s.skip(s.len() - suffix.len()) == suffix
}

fn push_digit(s: &mut String, d: u64)
    requires
        d < 10,
    ensures
        final(s)@ == old(s)@.push(digit(d as nat)),
{
    proof {
        reveal_strlit("0");
        reveal_strlit("1");
        reveal_strlit("2");
        reveal_strlit("3");
        reveal_strlit("4");
        reveal_strlit("5");
        reveal_strlit("6");
        reveal_strlit("7");
        reveal_strlit("8");
        reveal_strlit("9");
    }
    let t: &str = if d == 0 {
        "0"
    } else if d == 1 {
        "1"
    } else if d == 2 {
        "2"
    } else if d == 3 {
        "3"
    } else if d == 4 {
        "4"
    } else if d == 5 {
        "5"
    } else if d == 6 {
        "6"
    } else if d == 7 {
        "7"
    } else if d == 8 {
        "8"
    } else {
        "9"
    };
    s.append(t);
    assert(s@ =~= old(s)@.push(digit(d as nat)));
}

/// Appends `n` in decimal.
pub fn push_decimal(s: &mut String, n: u64)
    ensures
        final(s)@ == old(s)@ + decimal(n as nat),
{
    push_wide_decimal(s, n as u128);
}

/// Appends `n` in decimal.
pub fn push_wide_decimal(s: &mut String, n: u128)
    ensures
        final(s)@ == old(s)@ + decimal(n as nat),
    decreases n,
{
    if n >= 10 {
        push_wide_decimal(s, n / 10);
    }
    push_digit(s, (n % 10) as u64);
    assert(s@ =~= old(s)@ + decimal(n as nat));
}

/// Appends `t`, filled up with blanks to at least `width` characters.
pub fn push_padded(s: &mut String, t: &str, width: usize)
    ensures
        final(s)@ == old(s)@ + pad_right(t@, width as nat),
{
    let len: usize = t.unicode_len();
    s.append(t);
    let mut k: usize = len;
    while k < width
        invariant
            len == t@.len(),
            len <= k,
            k <= width || k == len,
            s@ == old(s)@ + t@ + blanks((k - len) as nat),
        decreases width - k,
    {
        proof {
            reveal_strlit(" ");
        }
        s.append(" ");
        k += 1;
        assert(s@ =~= old(s)@ + t@ + blanks((k - len) as nat));
    }
    assert(s@ =~= old(s)@ + pad_right(t@, width as nat));
}

proof fn lemma_digits_value_grows(s: Seq<char>, k: int)
    requires
        0 <= k <= s.len(),
    ensures
        digits_value(s.take(k)) <= digits_value(s),
    decreases s.len() - k,
{
    if k < s.len() {
        assert(s.take(k + 1).drop_last() =~= s.take(k));
        lemma_digits_value_grows(s, k + 1);
    } else {
        assert(s.take(k) =~= s);
    }
}

fn char_digit(c: char) -> (d: Option<u32>)
    ensures
        match d {
            Some(d) => is_digit(c) && d == c as int - 48,
            None => !is_digit(c),
        },
{
    let n: u32 = c as u32;
    if 48 <= n && n <= 57 {
        Some(n - 48)
    } else {
        None
    }
}

/// Reads a number: an optional plus sign and digits that fit in 32 bits.
pub fn parse_u32(s: &str) -> (r: Option<u32>)
    ensures
        r == as_u32(s@),
{
    let chars: Vec<char> = chars_of(s);
    let start: usize = if chars.len() > 0 && chars[0] == '+' {
        1
    } else {
        0
    };
    let ghost d = unsigned_part(s@);
    assert(d =~= s@.skip(start as int));
    if start == chars.len() {
        return None;
    }
    let mut n: u32 = 0;
    let mut i: usize = start;
    assert(d.take(0) =~= Seq::empty());
    while i < chars.len()
        invariant
            chars@ == s@,
            start <= i <= chars@.len(),
            d == unsigned_part(s@),
            d == s@.skip(start as int),
            n == digits_value(d.take(i - start)),
            forall|k: int| 0 <= k < i - start ==> is_digit(#[trigger] d[k]),
        decreases chars@.len() - i,
    {
        assert(d[i - start] == chars@[i as int]);
        assert(d.take(i - start + 1).drop_last() =~= d.take(i - start));
        match char_digit(chars[i]) {
            None => return None,
            Some(x) => {
                proof {
                    lemma_digits_value_grows(d, i - start + 1);
                }
                if n > (u32::MAX - x) / 10 {
                    return None;
                }
                n = n * 10 + x;
            },
        }
        i += 1;
    }
    assert(d.take(i - start) =~= d);
    Some(n)
}

/// The characters of `s`.
pub fn chars_of(s: &str) -> (v: Vec<char>)
    ensures
        v@ == s@,
{
    let mut v: Vec<char> = Vec::new();
    for c in it: s.chars()
        invariant
            v@ == it.seq().take(it.index() as int),
            it.seq() == s@,
    {
        v.push(c);
    }
    v
}

/// Whether the two strings hold the same characters.
pub fn str_eq(a: &str, b: &str) -> (r: bool)
    ensures
        r == (a@ == b@),
{
    let x: &[u8] = a.as_bytes();
    let y: &[u8] = b.as_bytes();
    proof {
        encode_utf8_decode_utf8(a@);
        encode_utf8_decode_utf8(b@);
    }
    bytes_eq(x, y)
}

/// Whether the two byte strings are equal.
pub fn bytes_eq(x: &[u8], y: &[u8]) -> (r: bool)
    ensures
        r == (x@ == y@),
{
    if x.len() != y.len() {
        return false;
    }
    let mut i: usize = 0;
    while i < x.len()
        invariant
            x@.len() == y@.len(),
            i <= x@.len(),
            x@.take(i as int) =~= y@.take(i as int),
        decreases x@.len() - i,
    {
        if x[i] != y[i] {
            return false;
        }
        i += 1;
    }
    assert(x@.take(i as int) =~= x@);
    assert(y@.take(i as int) =~= y@);
    true
}

/// Appends a byte string.
pub fn push_bytes(v: &mut Vec<u8>, b: &[u8])
    ensures
        final(v)@ == old(v)@ + b@,
{
    v.extend_from_slice(b);
    assert(v@ =~= old(v)@ + b@);
}

} // verus!
