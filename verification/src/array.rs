//! The accessor algebra on declared type names and path segments.
//!
//! A declared array type name literally encodes its dimensions, e.g.
//! `ARRAY [-6..2,1..3] OF ARRAY [3..7] OF UINT`.  This module strips
//! accessors from such names, parses the dimension ranges out of them, and
//! counts or removes the `[i]` / `[i,j]` accessor suffixes of path segments.

use vstd::prelude::*;

use crate::error::AdsError;
use crate::numbers::{parse_i64, spec_parse_int};
use crate::text::{
    count_char_between, find_char_from, find_sub_from, lemma_find_char_from_some, rfind_sub,
    spec_count_char, spec_find_char_from, spec_find_sub_from, spec_rfind_sub, spec_trim,
    trimmed_substring,
};

verus! {

/// A 32-bit integer parsed from decimal text, `None` when the text is
/// malformed or the value does not fit.
pub open spec fn spec_parse_i32(s: Seq<char>) -> Option<i32> {
    match spec_parse_int(s) {
        Some(v) => if i32::MIN <= v <= i32::MAX {
            Some(v as i32)
        } else {
            None
        },
        None => None,
    }
}

/// Parses a signed 32-bit decimal literal.
pub fn parse_i32(s: &str) -> (r: Option<i32>)
    ensures
        r == spec_parse_i32(s@),
{
    match parse_i64(s) {
        Some(v) => if -2147483648i64 <= v && v <= 2147483647i64 {
            Some(v as i32)
        } else {
            None
        },
        None => None,
    }
}

/// One `lo..hi` pair parsed from the inside of a dimension bracket: the
/// bounds must both parse as 32-bit integers and satisfy `lo <= hi`.
pub open spec fn spec_parse_dim(s: Seq<char>) -> Result<(i32, i32), AdsError> {
    match spec_find_sub_from(s, ".."@, 0) {
        Some(m) => {
            let lo = spec_parse_i32(s.subrange(0, m));
            let hi = spec_parse_i32(s.subrange(m + 2, s.len() as int));
            match (lo, hi) {
                (Some(l), Some(h)) => if l > h {
                    Err(AdsError::MalformedSchema)
                } else {
                    Ok((l, h))
                },
                _ => Err(AdsError::MalformedSchema),
            }
        },
        None => Err(AdsError::MalformedSchema),
    }
}

/// The comma-separated `lo..hi` pairs inside one dimension bracket, in
/// declaration order.
pub open spec fn spec_parse_dims(s: Seq<char>) -> Result<Seq<(i32, i32)>, AdsError>
    decreases s.len(),
    via spec_parse_dims_decreases
{
    match spec_find_char_from(s, ',', 0) {
        Some(k) => match spec_parse_dim(s.subrange(0, k)) {
            Ok(d) => match spec_parse_dims(s.subrange(k + 1, s.len() as int)) {
                Ok(rest) => Ok(seq![d] + rest),
                Err(e) => Err(e),
            },
            Err(e) => Err(e),
        },
        None => match spec_parse_dim(s) {
            Ok(d) => Ok(seq![d]),
            Err(e) => Err(e),
        },
    }
}

#[via_fn]
proof fn spec_parse_dims_decreases(s: Seq<char>) {
    if spec_find_char_from(s, ',', 0) is Some {
        lemma_find_char_from_some(s, ',', 0);
    }
}

/// Every inclusive dimension range encoded in the type name `s`, scanning
/// each `ARRAY [...]` occurrence left to right, outermost dimension first.
pub open spec fn spec_get_ranges(s: Seq<char>) -> Result<Seq<(i32, i32)>, AdsError>
    decreases s.len(),
    via spec_get_ranges_decreases
{
    if spec_find_sub_from(s, "ARRAY"@, 0) is Some {
        match (spec_find_char_from(s, '[', 0), spec_find_char_from(s, ']', 0)) {
            (Some(a), Some(b)) => if a > b {
                Err(AdsError::MalformedSchema)
            } else {
                match spec_parse_dims(s.subrange(a + 1, b)) {
                    Ok(dims) => match spec_get_ranges(s.subrange(b + 1, s.len() as int)) {
                        Ok(rest) => Ok(dims + rest),
                        Err(e) => Err(e),
                    },
                    Err(e) => Err(e),
                }
            },
            _ => Err(AdsError::MalformedSchema),
        }
    } else {
        Ok(Seq::empty())
    }
}

#[via_fn]
proof fn spec_get_ranges_decreases(s: Seq<char>) {
    if spec_find_char_from(s, ']', 0) is Some {
        lemma_find_char_from_some(s, ']', 0);
    }
}

/// The base type name after stripping exactly `n` accessor units: each
/// leading `ARRAY [...] OF ` clause accounts for one unit per range in its
/// bracket, and a combined `[a..b,c..d]` bracket is all-or-nothing.
pub open spec fn spec_strip_units(s: Seq<char>, n: int) -> Result<Seq<char>, AdsError>
    decreases n,
{
    if n <= 0 {
        Ok(s)
    } else {
        let i0 = spec_find_char_from(s, '[', 0);
        let i1 = spec_find_char_from(s, ']', 0);
        let iof = spec_find_sub_from(s, " OF "@, 0);
        match (i0, i1, iof) {
            (Some(a), Some(b), Some(f)) => if a >= b || b >= f {
                Err(AdsError::MalformedSchema)
            } else {
                let units = 1 + spec_count_char(s.subrange(a, b), ',');
                if units > n {
                    Err(AdsError::OutOfBounds)
                } else {
                    spec_strip_units(spec_trim(s.subrange(f + 4, s.len() as int)), n - units)
                }
            },
            _ => Err(AdsError::OutOfBounds),
        }
    }
}

/// The base type name after stripping every `ARRAY [...] OF ` clause: the
/// text after the last ` OF `, trimmed; the name itself when none occurs.
pub open spec fn spec_strip_all(s: Seq<char>) -> Seq<char> {
    match spec_rfind_sub(s, " OF "@) {
        Some(k) => spec_trim(s.subrange(k + 4, s.len() as int)),
        None => s,
    }
}

/// Strips array accessors from the declared type name `data_type`.
///
/// With `Some(n)`, exactly `n` accessor units are stripped; stripping must
/// land on a dimension-group boundary (`OutOfBounds` when it would split a
/// combined bracket or when `n` exceeds the declared units).  With `None`,
/// everything up to and including the last ` OF ` is stripped.
pub fn get_base_name<'a>(data_type: &'a str, n_accessors: Option<usize>) -> (r: Result<
    &'a str,
    AdsError,
>)
    ensures
        match n_accessors {
            Some(n) => match r {
                Ok(b) => spec_strip_units(data_type@, n as int) == Ok::<_, AdsError>(b@),
                Err(e) => spec_strip_units(data_type@, n as int) == Err::<Seq<char>, _>(e),
            },
            None => match r {
                Ok(b) => b@ == spec_strip_all(data_type@),
                Err(_) => false,
            },
        },
{
    proof {
        reveal_strlit(" OF ");
    }
    match n_accessors {
        Some(n) => {
            let mut remainder: &str = data_type;
            let mut n_rem: usize = n;
            while n_rem > 0
                invariant
                    n_accessors == Some(n),
                    spec_strip_units(data_type@, n as int) == spec_strip_units(
                        remainder@,
                        n_rem as int,
                    ),
                decreases n_rem,
            {
                proof {
                    reveal_strlit(" OF ");
                }
                let i0 = find_char_from(remainder, '[', 0);
                let i1 = find_char_from(remainder, ']', 0);
                let iof = find_sub_from(remainder, " OF ", 0);
                match (i0, i1, iof) {
                    (Some(a), Some(b), Some(f)) => {
                        if a >= b || b >= f {
                            return Err(AdsError::MalformedSchema);
                        }
                        let len = remainder.unicode_len();
                        let units = 1 + count_char_between(remainder, ',', a, b);
                        if units > n_rem {
                            return Err(AdsError::OutOfBounds);
                        }
                        remainder = trimmed_substring(remainder, f + 4, len);
                        n_rem = n_rem - units;
                    },
                    _ => {
                        return Err(AdsError::OutOfBounds);
                    },
                }
            }
            Ok(remainder)
        },
        None => {
            match rfind_sub(data_type, " OF ") {
                Some(k) => {
                    let len = data_type.unicode_len();
                    Ok(trimmed_substring(data_type, k + 4, len))
                },
                None => Ok(data_type),
            }
        },
    }
}

/// Parses every dimension range out of the declared type name `input`.
///
/// Each `ARRAY [...]` occurrence contributes its comma-separated `lo..hi`
/// pairs, outermost first; a missing bracket or `..`, an unparsable bound
/// or a `lo > hi` pair is `MalformedSchema`.
pub fn get_ranges(input: &str) -> (r: Result<Vec<(i32, i32)>, AdsError>)
    ensures
        match r {
            Ok(v) => spec_get_ranges(input@) == Ok::<_, AdsError>(v@),
            Err(e) => spec_get_ranges(input@) == Err::<Seq<(i32, i32)>, _>(e),
        },
{
    let mut output: Vec<(i32, i32)> = Vec::new();
    let mut remainder: &str = input;
    loop
        invariant
            spec_get_ranges(input@) == (match spec_get_ranges(remainder@) {
                Ok(rest) => Ok::<_, AdsError>(output@ + rest),
                Err(e) => Err::<Seq<(i32, i32)>, _>(e),
            }),
        decreases remainder@.len(),
    {
        if find_sub_from(remainder, "ARRAY", 0).is_none() {
            assert(output@ + Seq::<(i32, i32)>::empty() =~= output@);
            return Ok(output);
        }
        let a = match find_char_from(remainder, '[', 0) {
            Some(a) => a,
            None => {
                return Err(AdsError::MalformedSchema);
            },
        };
        let b = match find_char_from(remainder, ']', 0) {
            Some(b) => b,
            None => {
                return Err(AdsError::MalformedSchema);
            },
        };
        if a > b {
            return Err(AdsError::MalformedSchema);
        }
        // `[` and `]` are distinct characters, so the two finds cannot
        // name the same index.
        assert(a != b);
        let ghost before = output@;
        let ghost rem_old = remainder@;
        match parse_dims(remainder, a + 1, b, &mut output) {
            Ok(()) => {},
            Err(e) => {
                return Err(e);
            },
        }
        let len = remainder.unicode_len();
        remainder = remainder.substring_char(b + 1, len);
        proof {
            let dims = spec_parse_dims(rem_old.subrange(a + 1, b as int))->Ok_0;
            assert(output@ == before + dims);
            match spec_get_ranges(remainder@) {
                Ok(rest) => {
                    assert(before + (dims + rest) =~= (before + dims) + rest);
                },
                Err(_) => {},
            }
        }
    }
}

/// Parses the comma-separated `lo..hi` pairs in `s[from..to]` and appends
/// them to `out` in order.
fn parse_dims(s: &str, from: usize, to: usize, out: &mut Vec<(i32, i32)>) -> (r: Result<
    (),
    AdsError,
>)
    requires
        from <= to <= s@.len(),
    ensures
        match r {
            Ok(()) => ({
                &&& spec_parse_dims(s@.subrange(from as int, to as int)) matches Ok(dims)
                &&& final(out)@ == old(out)@ + dims
            }),
            Err(e) => spec_parse_dims(s@.subrange(from as int, to as int)) == Err::<
                Seq<(i32, i32)>,
                _,
            >(e),
        },
    decreases to - from,
{
    let ghost piece = s@.subrange(from as int, to as int);
    match find_char_from_bounded(s, ',', from, to) {
        Some(k) => {
            proof {
                assert(piece.subrange(0, k - from) =~= s@.subrange(from as int, k as int));
                assert(piece.subrange(k - from + 1, piece.len() as int) =~= s@.subrange(
                    k + 1,
                    to as int,
                ));
            }
            let d = match parse_dim(s, from, k) {
                Ok(d) => d,
                Err(e) => {
                    return Err(e);
                },
            };
            out.push(d);
            let result = parse_dims(s, k + 1, to, out);
            proof {
                if result is Ok {
                    let dims0 = spec_parse_dims(piece)->Ok_0;
                    let rest = spec_parse_dims(s@.subrange(k + 1, to as int))->Ok_0;
                    assert(old(out)@ + dims0 =~= (old(out)@.push(d)) + rest);
                }
            }
            result
        },
        None => {
            let d = match parse_dim(s, from, to) {
                Ok(d) => d,
                Err(e) => {
                    return Err(e);
                },
            };
            out.push(d);
            assert(final(out)@ =~= old(out)@ + seq![d]);
            Ok(())
        },
    }
}

/// Finds the first `c` in `s` at or after `from` but before `to`.
fn find_char_from_bounded(s: &str, c: char, from: usize, to: usize) -> (r: Option<usize>)
    requires
        from <= to <= s@.len(),
    ensures
        match r {
            Some(j) => spec_find_char_from(s@.subrange(from as int, to as int), c, 0) == Some(
                j - from,
            ) && from <= j < to,
            None => spec_find_char_from(s@.subrange(from as int, to as int), c, 0) is None,
        },
{
    let ghost piece = s@.subrange(from as int, to as int);
    let mut i = from;
    while i < to
        invariant
            from <= i <= to <= s@.len(),
            piece == s@.subrange(from as int, to as int),
            spec_find_char_from(piece, c, 0) == spec_find_char_from(piece, c, i - from),
        decreases to - i,
    {
        if s.get_char(i) == c {
            return Some(i);
        }
        i = i + 1;
    }
    None
}

/// Parses one `lo..hi` pair from `s[from..to]`.
fn parse_dim(s: &str, from: usize, to: usize) -> (r: Result<(i32, i32), AdsError>)
    requires
        from <= to <= s@.len(),
    ensures
        r == spec_parse_dim(s@.subrange(from as int, to as int)),
{
    proof {
        reveal_strlit("..");
    }
    let ghost piece = s@.subrange(from as int, to as int);
    let dimension = s.substring_char(from, to);
    match find_sub_from(dimension, "..", 0) {
        Some(m) => {
            let to_d = dimension.unicode_len();
            let lo_str = dimension.substring_char(0, m);
            let hi_str = dimension.substring_char(m + 2, to_d);
            assert(lo_str@ =~= piece.subrange(0, m as int));
            assert(hi_str@ =~= piece.subrange(m + 2, piece.len() as int));
            match (parse_i32(lo_str), parse_i32(hi_str)) {
                (Some(l), Some(h)) => if l > h {
                    Err(AdsError::MalformedSchema)
                } else {
                    Ok((l, h))
                },
                _ => Err(AdsError::MalformedSchema),
            }
        },
        None => Err(AdsError::MalformedSchema),
    }
}

/// How many accessor units the trailing brackets of a path segment denote:
/// scanning from the end, each `]`-terminated bracket group counts one unit
/// plus one more per comma inside it, and the scan stops at a `.` or the
/// start of the text.
pub open spec fn spec_count_accessors_from(s: Seq<char>, i: int, inside: bool) -> int
    decreases i,
{
    if i <= 0 {
        0
    } else {
        let c = s[i - 1];
        if c == ']' {
            1 + spec_count_accessors_from(s, i - 1, true)
        } else if inside && c == ',' {
            1 + spec_count_accessors_from(s, i - 1, inside)
        } else if c == '[' {
            spec_count_accessors_from(s, i - 1, false)
        } else if c == '.' {
            0
        } else {
            spec_count_accessors_from(s, i - 1, inside)
        }
    }
}

/// The accessor units denoted by the trailing brackets of `s`.
pub open spec fn spec_count_accessors(s: Seq<char>) -> int {
    spec_count_accessors_from(s, s.len() as int, false)
}

/// Counts the accessor units in the trailing brackets of the path segment
/// `input`: `x[3]` has one, `x[3][5]` and `x[3,5]` have two.
pub fn count_accessors(input: &str) -> (r: usize)
    ensures
        r == spec_count_accessors(input@),
{
    let n = input.unicode_len();
    let mut i = n;
    let mut inside = false;
    let mut count: usize = 0;
    proof {
        lemma_count_accessors_bound(input@, n as int, false);
    }
    while i > 0
        invariant
            i <= n,
            n == input@.len(),
            spec_count_accessors(input@) == count + spec_count_accessors_from(
                input@,
                i as int,
                inside,
            ),
            count + spec_count_accessors_from(input@, i as int, inside) <= n,
        decreases i,
    {
        proof {
            lemma_count_accessors_bound(input@, i - 1, true);
            lemma_count_accessors_bound(input@, i - 1, false);
        }
        let c = input.get_char(i - 1);
        if c == ']' {
            inside = true;
            count = count + 1;
        } else if inside && c == ',' {
            count = count + 1;
        } else if c == '[' {
            inside = false;
        } else if c == '.' {
            return count;
        }
        i = i - 1;
    }
    count
}

/// The accessor count contributed by a prefix never exceeds its length.
proof fn lemma_count_accessors_bound(s: Seq<char>, i: int, inside: bool)
    requires
        i >= 0,
    ensures
        0 <= spec_count_accessors_from(s, i, inside) <= i,
    decreases i,
{
    if i > 0 {
        lemma_count_accessors_bound(s, i - 1, true);
        lemma_count_accessors_bound(s, i - 1, false);
        lemma_count_accessors_bound(s, i - 1, inside);
    }
}

/// The path segment before its first `[`, or all of it when it has no
/// bracket.
pub open spec fn spec_trim_accessors(s: Seq<char>) -> Seq<char> {
    match spec_find_char_from(s, '[', 0) {
        Some(i) => s.subrange(0, i),
        None => s,
    }
}

/// Removes the trailing accessor brackets of a path segment: the text
/// before the first `[`.
pub fn trim_accessors(input: &str) -> (r: String)
    ensures
        r@ == spec_trim_accessors(input@),
{
    match find_char_from(input, '[', 0) {
        Some(i) => input.substring_char(0, i).to_owned(),
        None => input.to_owned(),
    }
}

} // verus!
