//! Numbers, durations and names as they are written.

use vstd::prelude::*;
use vstd::utf8::*;

use crate::clock;
use crate::color::Style;
use crate::commands::recall;
use crate::commands::select;
use crate::duration;
use crate::duration::Unit;
use crate::laws::recalling;
use crate::memfs;
use crate::text;

verus! {

/// A number is written without a leading zero, so each number is written in one way.
pub proof fn decimal_has_no_leading_zero(n: nat)
    ensures
        text::decimal(n).len() > 0,
        text::decimal(n)[0] == '0' ==> n == 0 && text::decimal(n).len() == 1,
        text::is_number(text::decimal(n)),
        text::digits_value(text::decimal(n)) == n,
    decreases n,
{
    recalling::decimal_reads_back(n);
    if n >= 10 {
        decimal_has_no_leading_zero(n / 10);
        assert(text::decimal(n)[0] == text::decimal(n / 10)[0]);
        if text::decimal(n)[0] == '0' {
            assert(n / 10 == 0);
        }
    } else {
        assert(text::decimal(n)[0] == text::digit(n));
    }
}

/// A digit more is worth ten times what stands before it, and itself.
pub proof fn digits_count_by_tens(s: Seq<char>, c: char)
    requires
        '0' <= c <= '9',
    ensures
        text::digits_value(Seq::empty()) == 0,
        text::digits_value(s.push(c)) == 10 * text::digits_value(s) + (c as int - '0' as int),
        text::is_digit(c),
{
    assert(s.push(c).drop_last() =~= s);
}

/// What reads as a number: digits, a plus sign before them or not, of a value that fits;
/// and nothing else.
pub proof fn only_numbers_that_fit_are_read(s: Seq<char>)
    requires
        s.len() > 0,
    ensures
        text::is_number(s) <==> forall|i: int| 0 <= i < s.len() ==> '0' <= #[trigger] s[i] <= '9',
        text::is_number(s) && text::digits_value(s) <= u32::MAX ==> text::as_u32(s) == Some(
            text::digits_value(s) as u32,
        ),
        text::is_number(s) && text::digits_value(s) > u32::MAX ==> text::as_u32(s) is None,
        text::is_number(s) ==> text::as_u32(seq!['+'] + s) == text::as_u32(s),
        !text::is_number(s) && !(s[0] == '+' && text::is_number(s.skip(1))) ==> text::as_u32(s)
            is None,
        text::as_u32(Seq::empty()) is None,
{
    let plus = seq!['+'] + s;
    assert(plus.skip(1) =~= s);
    assert(plus[0] == '+');
    if text::is_number(s) {
        assert(text::is_digit(s[0]));
    } else if forall|i: int| 0 <= i < s.len() ==> '0' <= #[trigger] s[i] <= '9' {
        assert forall|i: int| 0 <= i < s.len() implies text::is_digit(#[trigger] s[i]) by {}
    }
    if text::is_number(s) {
        assert forall|i: int| 0 <= i < s.len() implies '0' <= #[trigger] s[i] <= '9' by {
            assert(text::is_digit(s[i]));
        }
    }
}

/// White space are the characters that Unicode calls so: the blank, the controls from tab
/// to carriage return, and the few listed ones beyond ASCII.
pub proof fn white_space_is_that_of_unicode(c: char)
    ensures
        duration::is_space(c) <==> c == ' ' || ('\t' <= c <= '\r') || c == '\u{85}' || c == '\u{a0}'
            || c == '\u{1680}' || ('\u{2000}' <= c <= '\u{200a}') || c == '\u{2028}' || c
            == '\u{2029}' || c == '\u{202f}' || c == '\u{205f}' || c == '\u{3000}',
{
}

/// Trimming takes white space away at both ends, all of it and nothing else.
pub proof fn trimming_takes_white_space_at_the_ends(s: Seq<char>) -> (r: (Seq<char>, Seq<char>))
    ensures
        s == r.0 + duration::trimmed(s) + r.1,
        forall|i: int| 0 <= i < r.0.len() ==> duration::is_space(#[trigger] r.0[i]),
        forall|i: int| 0 <= i < r.1.len() ==> duration::is_space(#[trigger] r.1[i]),
        duration::trimmed(s).len() > 0 ==> !duration::is_space(duration::trimmed(s)[0])
            && !duration::is_space(duration::trimmed(s).last()),
    decreases s.len(),
{
    let e = Seq::<char>::empty();
    if s.len() == 0 {
        assert(s =~= e + duration::trimmed(s) + e);
        (e, e)
    } else if duration::is_space(s[0]) {
        let (a, b) = trimming_takes_white_space_at_the_ends(s.drop_first());
        let a2 = seq![s[0]] + a;
        let t = duration::trimmed(s);
        assert(t == duration::trimmed(s.drop_first()));
        assert(s =~= seq![s[0]] + (a + t + b));
        assert(s =~= a2 + t + b);
        (a2, b)
    } else if duration::is_space(s.last()) {
        let (a, b) = trimming_takes_white_space_at_the_ends(s.drop_last());
        let b2 = b.push(s.last());
        let t = duration::trimmed(s);
        assert(t == duration::trimmed(s.drop_last()));
        assert(s =~= (a + t + b).push(s.last()));
        assert(s =~= a + t + b2);
        (a, b2)
    } else {
        assert(s =~= e + s + e);
        (e, e)
    }
}

/// A text that a unit is written with.
pub open spec fn unit_text(u: Unit) -> Seq<char> {
    match u {
        Unit::Milliseconds => "ms"@,
        Unit::Seconds => "s"@,
        Unit::Minutes => "m"@,
    }
}

/// Digits, with at most one point among them, and not the point alone.
pub open spec fn plain_number(s: Seq<char>) -> bool {
    &&& forall|i: int| 0 <= i < s.len() ==> ('0' <= #[trigger] s[i] <= '9' || s[i] == '.')
    &&& exists|i: int| 0 <= i < s.len() && #[trigger] s[i] != '.'
    &&& forall|i: int, j: int|
        0 <= i < j < s.len() ==> !(#[trigger] s[i] == '.' && #[trigger] s[j] == '.')
}

proof fn lemma_number_len(t: Seq<char>, k: int)
    requires
        0 <= k <= t.len(),
        forall|i: int| 0 <= i < k ==> duration::numeric(#[trigger] t[i]),
        k < t.len() ==> !duration::numeric(t[k]),
    ensures
        duration::number_len(t) == k,
    decreases t.len(),
{
    if t.len() > 0 && k > 0 {
        let rest = t.drop_first();
        assert(duration::numeric(t[0]));
        assert forall|i: int| 0 <= i < k - 1 implies duration::numeric(#[trigger] rest[i]) by {
            assert(rest[i] == t[i + 1]);
        }
        if k < t.len() {
            assert(rest[k - 1] == t[k]);
        }
        lemma_number_len(rest, k - 1);
    }
}

proof fn lemma_points(s: Seq<char>)
    ensures
        duration::occurrences(s, '.') <= s.len(),
        duration::occurrences(s, '.') == 0 <==> forall|i: int|
            0 <= i < s.len() ==> #[trigger] s[i] != '.',
        duration::occurrences(s, '.') <= 1 <==> forall|i: int, j: int|
            0 <= i < j < s.len() ==> !(#[trigger] s[i] == '.' && #[trigger] s[j] == '.'),
        duration::occurrences(s, '.') < s.len() <==> exists|i: int|
            0 <= i < s.len() && #[trigger] s[i] != '.',
    decreases s.len(),
{
    if s.len() > 0 {
        let init = s.drop_last();
        let n = s.len() - 1;
        lemma_points(init);
        assert(s.last() == s[n]);
        assert forall|i: int| 0 <= i < n implies init[i] == #[trigger] s[i] by {}
        let c = duration::occurrences(s, '.');
        let c0 = duration::occurrences(init, '.');
        // none
        if c == 0 {
            assert forall|i: int| 0 <= i < s.len() implies #[trigger] s[i] != '.' by {
                if i < n {
                    assert(init[i] != '.');
                }
            }
        }
        if forall|i: int| 0 <= i < s.len() ==> #[trigger] s[i] != '.' {
            assert forall|i: int| 0 <= i < n implies #[trigger] init[i] != '.' by {
                assert(s[i] != '.');
            }
            assert(s[n] != '.');
        }
        // at most one
        if c <= 1 {
            assert forall|i: int, j: int| 0 <= i < j < s.len() implies !(#[trigger] s[i] == '.'
                && #[trigger] s[j] == '.') by {
                if j < n {
                    assert(!(init[i] == '.' && init[j] == '.'));
                } else if s[n] == '.' {
                    assert(c0 == 0);
                    assert(init[i] != '.');
                }
            }
        }
        if forall|i: int, j: int|
            0 <= i < j < s.len() ==> !(#[trigger] s[i] == '.' && #[trigger] s[j] == '.') {
            assert forall|i: int, j: int| 0 <= i < j < n implies !(#[trigger] init[i] == '.'
                && #[trigger] init[j] == '.') by {
                assert(!(s[i] == '.' && s[j] == '.'));
            }
            if s[n] == '.' {
                assert forall|i: int| 0 <= i < n implies #[trigger] init[i] != '.' by {
                    assert(!(s[i] == '.' && s[n] == '.'));
                }
            }
        }
        // not all
        if c < s.len() {
            if s[n] == '.' {
                let i = choose|i: int| 0 <= i < init.len() && #[trigger] init[i] != '.';
                assert(s[i] != '.');
            }
        }
        if exists|i: int| 0 <= i < s.len() && #[trigger] s[i] != '.' {
            let i = choose|i: int| 0 <= i < s.len() && #[trigger] s[i] != '.';
            if i < n {
                assert(init[i] != '.');
            }
        }
    }
}

/// A number and a unit, white space around them or not, is a duration of that number and
/// unit.
pub proof fn number_and_unit_make_a_duration(s: Seq<char>, number: Seq<char>, u: Unit)
    requires
        plain_number(number),
        duration::trimmed(s) == number + unit_text(u),
    ensures
        duration::duration_of(s) == Ok::<(Seq<char>, Unit), Seq<char>>((number, u)),
{
    reveal_strlit("ms");
    reveal_strlit("s");
    reveal_strlit("m");
    let t = duration::trimmed(s);
    let k = number.len() as int;
    assert forall|i: int| 0 <= i < k implies duration::numeric(#[trigger] t[i]) by {
        assert(t[i] == number[i]);
    }
    assert(t[k] == unit_text(u)[0]);
    lemma_number_len(t, k);
    assert(t.take(k) =~= number);
    assert(t.skip(k) =~= unit_text(u));
    lemma_points(number);
    assert(duration::is_decimal_number(number)) by {
        assert forall|i: int| 0 <= i < number.len() implies duration::numeric(
            #[trigger] number[i],
        ) by {}
    }
    assert("s"@.len() == 1 && "m"@.len() == 1 && "ms"@.len() == 2);
    assert("s"@[0] == 's' && "m"@[0] == 'm');
}

/// Every duration is a number and a unit; what is wrong with any other text is told: that
/// there is no unit, that there is no number, or that the unit is not known.
pub proof fn every_duration_is_a_number_and_a_unit(s: Seq<char>, k: int)
    requires
        0 <= k <= duration::trimmed(s).len(),
        forall|i: int|
            0 <= i < k ==> ('0' <= #[trigger] duration::trimmed(s)[i] <= '9'
                || duration::trimmed(s)[i] == '.'),
        k < duration::trimmed(s).len() ==> !('0' <= duration::trimmed(s)[k] <= '9'
            || duration::trimmed(s)[k] == '.'),
    ensures
        ({
            let t = duration::trimmed(s);
            let number = t.take(k);
            let unit = t.skip(k);
            match duration::duration_of(s) {
                Ok((n, u)) => n == number && plain_number(number) && unit == unit_text(u),
                Err(e) => if k == t.len() {
                    e == "missing unit in '"@ + t + "' (use ms, s, or m)"@
                } else if !plain_number(number) {
                    e == "invalid number in '"@ + t + "'"@
                } else {
                    &&& e == "unknown unit '"@ + unit + "' in '"@ + t + "' (use ms, s, or m)"@
                    &&& unit != "ms"@ && unit != "s"@ && unit != "m"@
                },
            }
        }),
{
    let t = duration::trimmed(s);
    assert forall|i: int| 0 <= i < k implies duration::numeric(#[trigger] t[i]) by {
        assert('0' <= duration::trimmed(s)[i] <= '9' || duration::trimmed(s)[i] == '.');
    }
    lemma_number_len(t, k);
    let number = t.take(k);
    lemma_points(number);
    assert forall|i: int| 0 <= i < number.len() implies ('0' <= #[trigger] number[i] <= '9'
        || number[i] == '.') by {
        assert(number[i] == duration::trimmed(s)[i]);
    }
}

/// With color off, text passes as it is; with color on it stands between the code and a
/// reset.
pub proof fn color_is_put_around_the_text(style: Style, code: Seq<char>, s: Seq<char>)
    ensures
        !style.colored() ==> style.painted(code, s) == s,
        style.colored() ==> style.painted(code, s) == code + s + "\x1b[0m"@,
{
}

/// What is said of a name that stands for no file, and of a reference that stands for no
/// checkpoint.
pub proof fn unknown_names_are_told(name: Seq<char>)
    ensures
        select::not_in_session(name) == "not in session: "@ + name,
        recall::no_checkpoint(name) == "no checkpoint: "@ + name,
{
}

/// Paths are in the order of their characters: of two, the one comes first that is the
/// start of the other, or that has the lower character where they first differ.
pub proof fn paths_are_in_order_of_characters(head: Seq<char>, a: Seq<char>, b: Seq<char>)
    ensures
        b.len() > 0 ==> memfs::precedes(head, head + b),
        !memfs::precedes(head + b, head),
        a.len() > 0 && b.len() > 0 && a[0] != b[0] ==> memfs::precedes(head + a, head + b) == ((
        a[0] as int) < (b[0] as int)),
    decreases head.len(),
{
    if head.len() == 0 {
        assert(head + a =~= a);
        assert(head + b =~= b);
    } else {
        let rest = head.drop_first();
        paths_are_in_order_of_characters(rest, a, b);
        assert((head + a).drop_first() =~= rest + a);
        assert((head + b).drop_first() =~= rest + b);
        assert((head + a)[0] == head[0] && (head + b)[0] == head[0]);
    }
}

/// A time of day is eight characters: digits in pairs, colons between them.
pub proof fn time_of_day_has_eight_characters(t: Seq<char>)
    requires
        clock::is_time_of_day(t),
    ensures
        t.len() == 8,
        t[2] == ':' && t[5] == ':',
        '0' <= t[0] <= '2' && '0' <= t[1] <= '9',
        '0' <= t[3] <= '5' && '0' <= t[4] <= '9',
        '0' <= t[6] <= '5' && '0' <= t[7] <= '9',
{
    reveal_strlit(":");
    let (h, m, s) = choose|h: nat, m: nat, s: nat|
        h < 24 && m < 60 && s < 60 && t == #[trigger] clock::time_text(h, m, s);
    assert(t[0] == text::digit(h / 10) && t[1] == text::digit(h % 10));
    assert(t[3] == text::digit(m / 10) && t[4] == text::digit(m % 10));
    assert(t[6] == text::digit(s / 10) && t[7] == text::digit(s % 10));
}

/// Text is written in UTF-8.
pub proof fn text_is_written_in_utf8(s: Seq<char>)
    ensures
        memfs::utf8(s) == encode_utf8(s),
{
}

} // verus!
