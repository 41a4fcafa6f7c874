//! Signed decimal amounts as written in bank exports: `.` groups thousands
//! and `,` separates the fraction (`-1.234,56`).

use vstd::prelude::*;

verus! {

/// The amount `mantissa / 10^scale`.
#[derive(Clone, Copy, Debug, PartialEq, Eq, Structural)]
pub struct Decimal {
    pub mantissa: i64,
    pub scale: u32,
}

impl Decimal {
    /// True for an amount strictly above zero.
    pub fn is_positive(&self) -> (r: bool)
        ensures
            r == (self.mantissa > 0),
    {
        self.mantissa > 0
    }
}

pub open spec fn is_digit(c: char) -> bool {
    '0' <= c <= '9'
}

pub open spec fn digit_val(c: char) -> int {
    c as int - '0' as int
}

pub open spec fn is_number_char(c: char) -> bool {
    is_digit(c) || c == '.' || c == ','
}

/// The value of the digits of `s` read as one integer, separators skipped.
pub open spec fn digits_value(s: Seq<char>) -> int
    decreases s.len(),
{
    if s.len() == 0 {
        0
    } else if is_digit(s.last()) {
        digits_value(s.drop_last()) * 10 + digit_val(s.last())
    } else {
        digits_value(s.drop_last())
    }
}

pub open spec fn digit_count(s: Seq<char>) -> int
    decreases s.len(),
{
    if s.len() == 0 {
        0
    } else {
        digit_count(s.drop_last()) + if is_digit(s.last()) { 1int } else { 0int }
    }
}

pub open spec fn comma_count(s: Seq<char>) -> int
    decreases s.len(),
{
    if s.len() == 0 {
        0
    } else {
        comma_count(s.drop_last()) + if s.last() == ',' { 1int } else { 0int }
    }
}

/// The number of digits after the last `,` (all digits when there is none).
pub open spec fn trailing_digits(s: Seq<char>) -> int
    decreases s.len(),
{
    if s.len() == 0 {
        0
    } else if s.last() == ',' {
        0
    } else {
        trailing_digits(s.drop_last()) + if is_digit(s.last()) { 1int } else { 0int }
    }
}

pub open spec fn sign_len(s: Seq<char>) -> int {
    if s.len() > 0 && (s[0] == '-' || s[0] == '+') { 1 } else { 0 }
}

/// The amount that `s` denotes: an optional sign, then digits with any
/// number of `.` group marks and at most one `,` before the fraction.
/// There is at least one digit, and the digits must fit an `i64`.
pub open spec fn parsed_number(s: Seq<char>) -> Option<Decimal> {
    let b = s.subrange(sign_len(s), s.len() as int);
    let neg = sign_len(s) == 1 && s[0] == '-';
    let scale = if comma_count(b) == 1 { trailing_digits(b) } else { 0 };
    if (forall|i: int| 0 <= i < b.len() ==> is_number_char(#[trigger] b[i])) && comma_count(b) <= 1
        && digit_count(b) > 0 && digits_value(b) <= i64::MAX && scale <= u32::MAX {
        Some(
            Decimal {
                mantissa: (if neg { -digits_value(b) } else { digits_value(b) }) as i64,
                scale: scale as u32,
            },
        )
    } else {
        None
    }
}

proof fn lemma_digits_grow(s: Seq<char>, lo: int, i: int, j: int)
    requires
        0 <= lo <= i <= j <= s.len(),
    ensures
        0 <= digits_value(s.subrange(lo, i)) <= digits_value(s.subrange(lo, j)),
        0 <= comma_count(s.subrange(lo, i)) <= comma_count(s.subrange(lo, j)),
    decreases j - i,
{
    if i < j {
        lemma_digits_grow(s, lo, i, j - 1);
        assert(s.subrange(lo, j).drop_last() =~= s.subrange(lo, j - 1));
    } else {
        lemma_nonneg(s.subrange(lo, i));
    }
}

proof fn lemma_nonneg(s: Seq<char>)
    ensures
        digits_value(s) >= 0,
        comma_count(s) >= 0,
        0 <= trailing_digits(s) <= s.len(),
    decreases s.len(),
{
    if s.len() > 0 {
        lemma_nonneg(s.drop_last());
    }
}

/// Parses an amount such as `-15,39` or `1.234,5`.
pub fn parse_to_number(number: &str) -> (r: Option<Decimal>)
    ensures
        r == parsed_number(number@),
{
    let ghost s = number@;
    let n = number.unicode_len();
    let mut start: usize = 0;
    let mut neg = false;
    if n > 0 {
        let c = number.get_char(0);
        if c == '-' || c == '+' {
            start = 1;
            neg = c == '-';
        }
    }
    assert(start == sign_len(s));
    let ghost b = s.subrange(start as int, n as int);
    let mut value: u64 = 0;
    let mut digits: u64 = 0;
    let mut commas: u64 = 0;
    let mut trailing: u64 = 0;
    let mut i: usize = start;
    assert(s.subrange(start as int, start as int) =~= seq![]);
    while i < n
        invariant
            s == number@,
            n == s.len(),
            start == sign_len(s),
            b == s.subrange(start as int, n as int),
            neg == (sign_len(s) == 1 && s[0] == '-'),
            start <= i <= n,
            value == digits_value(s.subrange(start as int, i as int)),
            value <= i64::MAX,
            digits == digit_count(s.subrange(start as int, i as int)),
            commas == comma_count(s.subrange(start as int, i as int)),
            commas <= 1,
            trailing == trailing_digits(s.subrange(start as int, i as int)),
            digits <= i,
            trailing <= i,
            forall|k: int| start <= k < i ==> is_number_char(#[trigger] s[k]),
        decreases n - i,
    {
        let c = number.get_char(i);
        let ghost p = s.subrange(start as int, i as int);
        let ghost p1 = s.subrange(start as int, i as int + 1);
        assert(p1.drop_last() =~= p);
        assert(p1.last() == c);
        if c == ',' {
            if commas == 1 {
                proof { lemma_digits_grow(s, start as int, i as int + 1, n as int); }
                assert(b =~= s.subrange(start as int, n as int));
                return None;
            }
            commas = 1;
            trailing = 0;
        } else if '0' <= c && c <= '9' {
            let d = (c as u32 - '0' as u32) as u64;
            if value > (9223372036854775807u64 - d) / 10 {
                assert(digits_value(p1) == value * 10 + d);
                assert(digits_value(p1) > i64::MAX) by (nonlinear_arith)
                    requires
                        value > (9223372036854775807u64 - d) / 10,
                        digits_value(p1) == value * 10 + d,
                        d <= 9;
                proof { lemma_digits_grow(s, start as int, i as int + 1, n as int); }
                return None;
            }
            value = value * 10 + d;
            digits = digits + 1;
            trailing = trailing + 1;
        } else if c != '.' {
            assert(!is_number_char(b[i - start]));
            return None;
        }
        i += 1;
    }
    assert(s.subrange(start as int, n as int) == b);
    if digits == 0 || (commas == 1 && trailing > 4294967295u64) {
        return None;
    }
    let magnitude = value as i64;
    let mantissa = if neg { -magnitude } else { magnitude };
    let scale: u32 = if commas == 1 { trailing as u32 } else { 0 };
    Some(Decimal { mantissa, scale })
}

} // verus!
