//! Decimal integer parsing and formatting with exact specifications.
//!
//! Path indices, declared array bounds and textual scalar literals are all
//! signed decimal integers; this module is the single place that converts
//! between their text form and machine integers.

use vstd::prelude::*;

verus! {

/// Whether `c` is a decimal digit.
pub open spec fn is_digit(c: char) -> bool {
    '0' <= c && c <= '9'
}

/// The numeric value of the digit `c`.
pub open spec fn digit_val(c: char) -> int {
    c as int - '0' as int
}

/// Whether `s` is one or more decimal digits.
pub open spec fn all_digits(s: Seq<char>) -> bool {
    s.len() > 0 && forall|i: int| 0 <= i < s.len() ==> is_digit(#[trigger] s[i])
}

/// The value of the digit string `s` read in base ten.
pub open spec fn digits_value(s: Seq<char>) -> int
    decreases s.len(),
{
    if s.len() == 0 {
        0
    } else {
        digits_value(s.drop_last()) * 10 + digit_val(s.last())
    }
}

/// The mathematical integer a decimal literal denotes: an optional `+` or
/// `-` sign followed by one or more digits, with no width restriction.
/// `None` when `s` is not of that shape.
pub open spec fn spec_parse_int(s: Seq<char>) -> Option<int> {
    if s.len() > 0 && s[0] == '-' {
        if all_digits(s.drop_first()) {
            Some(-digits_value(s.drop_first()))
        } else {
            None
        }
    } else if s.len() > 0 && s[0] == '+' {
        if all_digits(s.drop_first()) {
            Some(digits_value(s.drop_first()))
        } else {
            None
        }
    } else if all_digits(s) {
        Some(digits_value(s))
    } else {
        None
    }
}

/// Extending a digit string multiplies its value tenfold per digit, so the
/// value of a prefix never exceeds the value of the whole.
proof fn lemma_digits_value_bounds(s: Seq<char>)
    requires
        forall|i: int| 0 <= i < s.len() ==> is_digit(#[trigger] s[i]),
    ensures
        0 <= digits_value(s),
    decreases s.len(),
{
    if s.len() > 0 {
        lemma_digits_value_bounds(s.drop_last());
    }
}

/// Parses the digit run `s[from..to]`, returning its value unless it
/// exceeds `u64::MAX`.
fn parse_digits_u64(s: &str, from: usize, to: usize) -> (r: Option<u64>)
    requires
        from <= to <= s@.len(),
    ensures
        ({
            let d = s@.subrange(from as int, to as int);
            match r {
                Some(v) => all_digits(d) && digits_value(d) == v as int,
                None => !all_digits(d) || digits_value(d) > u64::MAX,
            }
        }),
{
    if from == to {
        return None;
    }
    let mut i = from;
    let mut acc: u64 = 0;
    while i < to
        invariant
            from <= i <= to <= s@.len(),
            i > from ==> all_digits(s@.subrange(from as int, i as int)),
            acc as int == digits_value(s@.subrange(from as int, i as int)),
            forall|k: int| from <= k < i ==> is_digit(#[trigger] s@[k]),
        decreases to - i,
    {
        let ghost prefix = s@.subrange(from as int, i as int);
        let ghost extended = s@.subrange(from as int, i + 1);
        assert(extended.drop_last() =~= prefix);
        assert(extended.last() == s@[i as int]);
        let c = s.get_char(i);
        if !(c >= '0' && c <= '9') {
            assert(!all_digits(s@.subrange(from as int, to as int))) by {
                assert(s@.subrange(from as int, to as int)[i - from] == c);
            }
            return None;
        }
        let d: u64 = (c as u32 as u64) - 48;
        let next = match acc.checked_mul(10) {
            Some(t) => t.checked_add(d),
            None => None,
        };
        match next {
            Some(v) => {
                acc = v;
            },
            None => {
                // The digits seen so far already overflow; any extension
                // only grows the value.
                assert(digits_value(extended) > u64::MAX);
                proof {
                    lemma_digits_prefix_monotone(s@, from as int, i + 1, to as int);
                }
                return None;
            },
        }
        i = i + 1;
    }
    Some(acc)
}

/// For a digit string, the value of a prefix is at most the value of any
/// extension of it.
proof fn lemma_digits_prefix_monotone(s: Seq<char>, from: int, mid: int, to: int)
    requires
        0 <= from <= mid <= to <= s.len(),
        forall|i: int| from <= i < mid ==> is_digit(#[trigger] s[i]),
    ensures
        !all_digits(s.subrange(from, to)) || digits_value(s.subrange(from, mid))
            <= digits_value(s.subrange(from, to)),
    decreases to - mid,
{
    if mid < to && all_digits(s.subrange(from, to)) {
        assert(forall|i: int| from <= i < to ==> is_digit(#[trigger] s[i])) by {
            assert(forall|i: int|
                from <= i < to ==> s.subrange(from, to)[i - from] == #[trigger] s[i]);
        }
        assert(s.subrange(from, mid + 1).drop_last() =~= s.subrange(from, mid));
        lemma_digits_value_bounds(s.subrange(from, mid));
        assert(digits_value(s.subrange(from, mid)) <= digits_value(s.subrange(from, mid + 1)));
        lemma_digits_prefix_monotone(s, from, mid + 1, to);
    }
}

/// Parses a signed decimal literal, returning its value unless the text is
/// malformed or the value falls outside `[i64::MIN, i64::MAX]` — exactly
/// the failure conditions of a 64-bit decimal read.
pub fn parse_i64(s: &str) -> (r: Option<i64>)
    ensures
        match r {
            Some(v) => spec_parse_int(s@) == Some(v as int),
            None => ({
                ||| spec_parse_int(s@) is None
                ||| spec_parse_int(s@)->Some_0 < i64::MIN
                ||| spec_parse_int(s@)->Some_0 > i64::MAX
            }),
        },
{
    let n = s.unicode_len();
    if n == 0 {
        return None;
    }
    let first = s.get_char(0);
    let negative = first == '-';
    let signed = negative || first == '+';
    let start: usize = if signed {
        1
    } else {
        0
    };
    let ghost digits = s@.subrange(start as int, n as int);
    proof {
        if signed {
            assert(digits =~= s@.drop_first());
        } else {
            assert(digits =~= s@);
        }
    }
    let magnitude = match parse_digits_u64(s, start, n) {
        Some(m) => m,
        None => {
            proof {
                if all_digits(digits) {
                    lemma_digits_value_bounds(digits);
                }
            }
            return None;
        },
    };
    if negative {
        if magnitude <= 9223372036854775807u64 {
            Some(-(magnitude as i64))
        } else if magnitude == 9223372036854775808u64 {
            Some(i64::MIN)
        } else {
            None
        }
    } else {
        if magnitude <= 9223372036854775807u64 {
            Some(magnitude as i64)
        } else {
            None
        }
    }
}

/// The mathematical integer an unsigned decimal literal denotes: an
/// optional `+` sign followed by one or more digits; a minus sign is
/// never accepted.  `None` when `s` is not of that shape.
pub open spec fn spec_parse_uint(s: Seq<char>) -> Option<int> {
    if s.len() > 0 && s[0] == '+' {
        if all_digits(s.drop_first()) {
            Some(digits_value(s.drop_first()))
        } else {
            None
        }
    } else if all_digits(s) {
        Some(digits_value(s))
    } else {
        None
    }
}

/// Parses an unsigned decimal literal (an optional `+` sign and digits),
/// returning its value unless the text is malformed or above `u64::MAX`.
pub fn parse_u64(s: &str) -> (r: Option<u64>)
    ensures
        match r {
            Some(v) => spec_parse_uint(s@) == Some(v as int),
            None => ({
                ||| spec_parse_uint(s@) is None
                ||| spec_parse_uint(s@)->Some_0 > u64::MAX
            }),
        },
{
    let n = s.unicode_len();
    if n == 0 {
        return None;
    }
    let first = s.get_char(0);
    let signed = first == '+';
    let start: usize = if signed {
        1
    } else {
        0
    };
    let ghost digits = s@.subrange(start as int, n as int);
    proof {
        if signed {
            assert(digits =~= s@.drop_first());
        } else {
            assert(digits =~= s@);
        }
    }
    parse_digits_u64(s, start, n)
}

/// The digit character for the value `d`.
pub open spec fn digit_char(d: int) -> char {
    if d == 0 {
        '0'
    } else if d == 1 {
        '1'
    } else if d == 2 {
        '2'
    } else if d == 3 {
        '3'
    } else if d == 4 {
        '4'
    } else if d == 5 {
        '5'
    } else if d == 6 {
        '6'
    } else if d == 7 {
        '7'
    } else if d == 8 {
        '8'
    } else {
        '9'
    }
}

/// The decimal text of the non-negative integer `n`, without sign.
pub open spec fn spec_format_nat(n: int) -> Seq<char>
    decreases n,
{
    if n <= 0 {
        seq!['0']
    } else if n < 10 {
        seq![digit_char(n)]
    } else {
        spec_format_nat(n / 10).push(digit_char(n % 10))
    }
}

/// The decimal text of the integer `i`: a `-` sign for negatives, then the
/// digits of the magnitude with no leading zeros.
pub open spec fn spec_format_int(i: int) -> Seq<char> {
    if i < 0 {
        seq!['-'] + spec_format_nat(-i)
    } else {
        spec_format_nat(i)
    }
}

/// A one-character string slice holding the digit for `d`.
fn digit_str(d: u64) -> (r: &'static str)
    requires
        d < 10,
    ensures
        r@ =~= seq![digit_char(d as int)],
{
    proof {
        reveal_strlit("0");
        reveal_strlit("1");
        reveal_strlit("2");
        reveal_strlit("3");
        reveal_strlit("4");
        reveal_strlit("5");
        reveal_strlit("6");
        reveal_strlit("7");
        reveal_strlit("8");
        reveal_strlit("9");
    }
    if d == 0 {
        "0"
    } else if d == 1 {
        "1"
    } else if d == 2 {
        "2"
    } else if d == 3 {
        "3"
    } else if d == 4 {
        "4"
    } else if d == 5 {
        "5"
    } else if d == 6 {
        "6"
    } else if d == 7 {
        "7"
    } else if d == 8 {
        "8"
    } else {
        "9"
    }
}

/// Formats the non-negative integer `n` in decimal.
fn format_u64(n: u64) -> (r: String)
    ensures
        r@ == spec_format_nat(n as int),
    decreases n,
{
    if n < 10 {
        digit_str(n).to_owned()
    } else {
        let mut s = format_u64(n / 10);
        s.append(digit_str(n % 10));
        s
    }
}

/// Formats the integer `i` in decimal, with a leading `-` for negatives.
pub fn format_i64(i: i64) -> (r: String)
    ensures
        r@ == spec_format_int(i as int),
{
    if i >= 0 {
        format_u64(i as u64)
    } else {
        proof {
            reveal_strlit("-");
        }
        let magnitude: u64 = if i == i64::MIN {
            9223372036854775808u64
        } else {
            (-i) as u64
        };
        let mut s: String = "-".to_owned();
        let tail = format_u64(magnitude);
        s.append(tail.as_str());
        assert(s@ =~= seq!['-'] + spec_format_nat(magnitude as int));
        s
    }
}

/// Formats a signed 32-bit integer in decimal.
pub fn format_i32(i: i32) -> (r: String)
    ensures
        r@ == spec_format_int(i as int),
{
    format_i64(i as i64)
}

} // verus!
