//! Short durations like `2s`, `500ms`, or `1.5m`, taken apart.

use vstd::prelude::*;

use crate::text;
use crate::text::{chars_of, str_eq};

verus! {

/// Unit of a duration.
#[derive(PartialEq, Eq, Structural, Clone, Copy, Debug)]
pub enum Unit {
    Milliseconds,
    Seconds,
    Minutes,
}

/// Unicode white space.
pub open spec fn is_space(c: char) -> bool {
    let n = c as int;
    ||| 9 <= n <= 13
    ||| n == 0x20
    ||| n == 0x85
    ||| n == 0xA0
    ||| n == 0x1680
    ||| 0x2000 <= n <= 0x200A
    ||| n == 0x2028
    ||| n == 0x2029
    ||| n == 0x202F
    ||| n == 0x205F
    ||| n == 0x3000
}

/// `s` without the white space that it starts and ends with.
pub open spec fn trimmed(s: Seq<char>) -> Seq<char>
    decreases s.len(),
{
    if s.len() == 0 {
        s
    } else if is_space(s[0]) {
        trimmed(s.drop_first())
    } else if is_space(s.last()) {
        trimmed(s.drop_last())
    } else {
        s
    }
}

/// A character that can stand in a number.
pub open spec fn numeric(c: char) -> bool {
    text::is_digit(c) || c == '.'
}

/// Length of the number that `s` starts with.
pub open spec fn number_len(s: Seq<char>) -> nat
    decreases s.len(),
{
    if s.len() > 0 && numeric(s[0]) {
        1 + number_len(s.drop_first())
    } else {
        0
    }
}

/// How many times `c` occurs in `s`.
pub open spec fn occurrences(s: Seq<char>, c: char) -> nat
    decreases s.len(),
{
    if s.len() == 0 {
        0
    } else {
        occurrences(s.drop_last(), c) + if s.last() == c {
            1nat
        } else {
            0nat
        }
    }
}

/// Digits, with at most one point among them.
pub open spec fn is_decimal_number(s: Seq<char>) -> bool {
    &&& forall|i: int| 0 <= i < s.len() ==> numeric(#[trigger] s[i])
    &&& occurrences(s, '.') <= 1
    &&& occurrences(s, '.') < s.len()
}

/// The unit that a text names.
pub open spec fn unit_of(s: Seq<char>) -> Option<Unit> {
    if s == "ms"@ {
        Some(Unit::Milliseconds)
    } else if s == "s"@ {
        Some(Unit::Seconds)
    } else if s == "m"@ {
        Some(Unit::Minutes)
    } else {
        None
    }
}

/// A duration taken apart into its number and its unit, or what is wrong with it.
pub open spec fn duration_of(s: Seq<char>) -> Result<(Seq<char>, Unit), Seq<char>> {
    let t = trimmed(s);
    let k = number_len(t) as int;
    let number = t.take(k);
    let unit = t.skip(k);
    if k >= t.len() {
        Err("missing unit in '"@ + t + "' (use ms, s, or m)"@)
    } else if !is_decimal_number(number) {
        Err("invalid number in '"@ + t + "'"@)
    } else {
        match unit_of(unit) {
            Some(u) => Ok((number, u)),
            None => Err(
                "unknown unit '"@ + unit + "' in '"@ + t + "' (use ms, s, or m)"@,
            ),
        }
    }
}

fn char_is_space(c: char) -> (r: bool)
    ensures
        r == is_space(c),
{
    let n: u32 = c as u32;
    (9 <= n && n <= 13) || n == 0x20 || n == 0x85 || n == 0xA0 || n == 0x1680 || (0x2000 <= n && n
        <= 0x200A) || n == 0x2028 || n == 0x2029 || n == 0x202F || n == 0x205F || n == 0x3000
}

fn char_is_numeric(c: char) -> (r: bool)
    ensures
        r == numeric(c),
{
    let n: u32 = c as u32;
    (48 <= n && n <= 57) || c == '.'
}

/// `s` without the white space that it starts and ends with.
pub fn trim(s: &str) -> (t: &str)
    ensures
        t@ == trimmed(s@),
{
    let chars: Vec<char> = chars_of(s);
    let mut start: usize = 0;
    let mut end: usize = chars.len();
    assert(s@.subrange(0, end as int) =~= s@);
    while start < end && char_is_space(chars[start])
        invariant
            chars@ == s@,
            start <= end <= chars@.len(),
            trimmed(s@) == trimmed(s@.subrange(start as int, end as int)),
        decreases end - start,
    {
        assert(s@.subrange(start as int, end as int).drop_first() =~= s@.subrange(
            start + 1,
            end as int,
        ));
        start += 1;
    }
    while start < end && char_is_space(chars[end - 1])
        invariant
            chars@ == s@,
            start <= end <= chars@.len(),
            start < end ==> !is_space(chars@[start as int]),
            trimmed(s@) == trimmed(s@.subrange(start as int, end as int)),
        decreases end - start,
    {
        assert(s@.subrange(start as int, end as int).drop_last() =~= s@.subrange(
            start as int,
            end - 1,
        ));
        end -= 1;
    }
    s.substring_char(start, end)
}

fn count_number(chars: &Vec<char>) -> (k: usize)
    ensures
        k == number_len(chars@),
        k <= chars@.len(),
        forall|i: int| 0 <= i < k ==> numeric(#[trigger] chars@[i]),
{
    let mut k: usize = 0;
    assert(chars@.skip(0) =~= chars@);
    while k < chars.len() && char_is_numeric(chars[k])
        invariant
            k <= chars@.len(),
            number_len(chars@) == k + number_len(chars@.skip(k as int)),
            forall|i: int| 0 <= i < k ==> numeric(#[trigger] chars@[i]),
        decreases chars@.len() - k,
    {
        assert(chars@.skip(k as int).drop_first() =~= chars@.skip(k + 1));
        k += 1;
    }
    k
}

fn count_points(chars: &Vec<char>, n: usize) -> (c: usize)
    requires
        n <= chars@.len(),
    ensures
        c == occurrences(chars@.take(n as int), '.'),
        c <= n,
{
    let mut c: usize = 0;
    let mut i: usize = 0;
    while i < n
        invariant
            i <= n <= chars@.len(),
            c == occurrences(chars@.take(i as int), '.'),
            c <= i,
        decreases n - i,
    {
        assert(chars@.take(i + 1).drop_last() =~= chars@.take(i as int));
        if chars[i] == '.' {
            c += 1;
        }
        i += 1;
    }
    c
}

/// Takes a short duration like `2s`, `500ms`, or `1m` (units: ms, s, m) apart into its
/// number, which is left as text, and its unit.
pub fn parse_duration(s: &str) -> (r: Result<(String, Unit), String>)
    ensures
        match duration_of(s@) {
            Ok((number, unit)) => r is Ok && r->Ok_0.0@ == number && r->Ok_0.1 == unit,
            Err(e) => r is Err && r->Err_0@ == e,
        },
{
    let t: &str = trim(s);
    let chars: Vec<char> = chars_of(t);
    let n: usize = chars.len();
    let k: usize = count_number(&chars);
    if k == n {
        let mut e: String = "missing unit in '".to_owned();
        e.append(t);
        e.append("' (use ms, s, or m)");
        return Err(e);
    }
    let points: usize = count_points(&chars, k);
    let number: &str = t.substring_char(0, k);
    let unit: &str = t.substring_char(k, n);
    assert(number@ =~= t@.take(k as int));
    assert(unit@ =~= t@.skip(k as int));
    if points > 1 || points >= k {
        let mut e: String = "invalid number in '".to_owned();
        e.append(t);
        e.append("'");
        return Err(e);
    }
    assert(is_decimal_number(number@));
    let u: Unit = if str_eq(unit, "ms") {
        Unit::Milliseconds
    } else if str_eq(unit, "s") {
        Unit::Seconds
    } else if str_eq(unit, "m") {
        Unit::Minutes
    } else {
        let mut e: String = "unknown unit '".to_owned();
        e.append(unit);
        e.append("' in '");
        e.append(t);
        e.append("' (use ms, s, or m)");
        return Err(e);
    };
    Ok((number.to_owned(), u))
}

} // verus!
