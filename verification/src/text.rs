//! Character-level scanning helpers over `&str`.
//!
//! Every helper has a spec twin defined recursively over `Seq<char>`; the
//! executable functions are proved to return exactly what the twin says.

use vstd::prelude::*;

verus! {

/// Whether `c` is one of the ASCII whitespace characters this crate trims.
pub open spec fn is_space(c: char) -> bool {
    c == ' ' || c == '\t' || c == '\n' || c == '\r'
}

/// The first index `>= i` at which `c` occurs in `s`, if any.
pub open spec fn spec_find_char_from(s: Seq<char>, c: char, i: int) -> Option<int>
    decreases s.len() - i,
{
    if i < 0 || i >= s.len() {
        None
    } else if s[i] == c {
        Some(i)
    } else {
        spec_find_char_from(s, c, i + 1)
    }
}

/// Whether `pat` occurs in `s` starting at index `i`.
pub open spec fn occurs_at(s: Seq<char>, pat: Seq<char>, i: int) -> bool {
    0 <= i && i + pat.len() <= s.len() && s.subrange(i, i + pat.len() as int) == pat
}

/// The first index `>= i` at which the non-empty `pat` occurs in `s`, if
/// any; an empty pattern never counts as occurring.
pub open spec fn spec_find_sub_from(s: Seq<char>, pat: Seq<char>, i: int) -> Option<int>
    decreases s.len() - i,
{
    if pat.len() <= 0 || i < 0 || i + pat.len() > s.len() {
        None
    } else if s.subrange(i, i + pat.len() as int) == pat {
        Some(i)
    } else {
        spec_find_sub_from(s, pat, i + 1)
    }
}

/// The last index at which the non-empty `pat` occurs in `s` at or before
/// `i`, if any.
pub open spec fn spec_rfind_sub_to(s: Seq<char>, pat: Seq<char>, i: int) -> Option<int>
    decreases i + 1,
{
    if pat.len() <= 0 || i < 0 || i + pat.len() > s.len() {
        None
    } else if s.subrange(i, i + pat.len() as int) == pat {
        Some(i)
    } else {
        spec_rfind_sub_to(s, pat, i - 1)
    }
}

/// The last occurrence of `pat` anywhere in `s`, if any.
pub open spec fn spec_rfind_sub(s: Seq<char>, pat: Seq<char>) -> Option<int> {
    spec_rfind_sub_to(s, pat, s.len() - pat.len())
}

/// `s` without leading trimmed whitespace.
pub open spec fn spec_trim_front(s: Seq<char>) -> Seq<char>
    decreases s.len(),
{
    if s.len() > 0 && is_space(s[0]) {
        spec_trim_front(s.drop_first())
    } else {
        s
    }
}

/// `s` without trailing trimmed whitespace.
pub open spec fn spec_trim_back(s: Seq<char>) -> Seq<char>
    decreases s.len(),
{
    if s.len() > 0 && is_space(s.last()) {
        spec_trim_back(s.drop_last())
    } else {
        s
    }
}

/// `s` without leading or trailing trimmed whitespace.
pub open spec fn spec_trim(s: Seq<char>) -> Seq<char> {
    spec_trim_back(spec_trim_front(s))
}

/// How many times `c` occurs in `s`.
pub open spec fn spec_count_char(s: Seq<char>, c: char) -> nat
    decreases s.len(),
{
    if s.len() == 0 {
        0
    } else {
        spec_count_char(s.drop_last(), c) + if s.last() == c {
            1nat
        } else {
            0nat
        }
    }
}

/// A successful character search names an in-range index holding `c`.
pub proof fn lemma_find_char_from_some(s: Seq<char>, c: char, i: int)
    requires
        spec_find_char_from(s, c, i) is Some,
    ensures
        ({
            let j = spec_find_char_from(s, c, i)->Some_0;
            i <= j < s.len() && s[j] == c
        }),
    decreases s.len() - i,
{
    if !(i < 0 || i >= s.len()) && s[i] != c {
        lemma_find_char_from_some(s, c, i + 1);
    }
}

/// Finds the first occurrence of the character `c` in `s` at or after
/// index `from` (indices count characters, not bytes).
pub fn find_char_from(s: &str, c: char, from: usize) -> (r: Option<usize>)
    ensures
        match r {
            Some(j) => spec_find_char_from(s@, c, from as int) == Some(j as int) && from <= j
                < s@.len() && s@[j as int] == c,
            None => spec_find_char_from(s@, c, from as int) is None,
        },
{
    let n = s.unicode_len();
    let mut i = from;
    while i < n
        invariant
            n == s@.len(),
            from <= i,
            spec_find_char_from(s@, c, from as int) == spec_find_char_from(s@, c, i as int),
        decreases n - i,
    {
        if s.get_char(i) == c {
            return Some(i);
        }
        i = i + 1;
    }
    None
}

/// Whether `pat` occurs in `s` starting at character index `at`.
pub fn matches_at(s: &str, pat: &str, at: usize) -> (r: bool)
    requires
        at + pat@.len() <= s@.len(),
    ensures
        r == occurs_at(s@, pat@, at as int),
{
    let n = s.unicode_len();
    let m = pat.unicode_len();
    let mut j: usize = 0;
    while j < m
        invariant
            n == s@.len(),
            m == pat@.len(),
            at + m <= n,
            j <= m,
            forall|k: int| 0 <= k < j ==> s@[at + k] == pat@[k],
        decreases m - j,
    {
        if s.get_char(at + j) != pat.get_char(j) {
            assert(s@.subrange(at as int, at + m) != pat@) by {
                assert(s@.subrange(at as int, at + m)[j as int] != pat@[j as int]);
            }
            return false;
        }
        j = j + 1;
    }
    assert(s@.subrange(at as int, at + m) =~= pat@);
    true
}

/// Finds the first occurrence of the substring `pat` in `s` at or after
/// character index `from`.
pub fn find_sub_from(s: &str, pat: &str, from: usize) -> (r: Option<usize>)
    ensures
        match r {
            Some(j) => spec_find_sub_from(s@, pat@, from as int) == Some(j as int) && from <= j
                && occurs_at(s@, pat@, j as int),
            None => spec_find_sub_from(s@, pat@, from as int) is None,
        },
{
    let n = s.unicode_len();
    let m = pat.unicode_len();
    if m == 0 || m > n || from > n - m {
        return None;
    }
    let mut i = from;
    while i <= n - m
        invariant
            n == s@.len(),
            m == pat@.len(),
            0 < m <= n,
            from <= i <= n - m + 1,
            spec_find_sub_from(s@, pat@, from as int) == spec_find_sub_from(s@, pat@, i as int),
        decreases n - i,
    {
        if matches_at(s, pat, i) {
            return Some(i);
        }
        i = i + 1;
    }
    None
}

/// Finds the last occurrence of the substring `pat` in `s`.
pub fn rfind_sub(s: &str, pat: &str) -> (r: Option<usize>)
    ensures
        match r {
            Some(j) => spec_rfind_sub(s@, pat@) == Some(j as int) && occurs_at(s@, pat@, j as int),
            None => spec_rfind_sub(s@, pat@) is None,
        },
{
    let n = s.unicode_len();
    let m = pat.unicode_len();
    if m == 0 || m > n {
        return None;
    }
    let mut i = n - m;
    loop
        invariant
            n == s@.len(),
            m == pat@.len(),
            0 < m <= n,
            i <= n - m,
            spec_rfind_sub(s@, pat@) == spec_rfind_sub_to(s@, pat@, i as int),
        decreases i,
    {
        if matches_at(s, pat, i) {
            return Some(i);
        }
        if i == 0 {
            return None;
        }
        i = i - 1;
    }
}

/// The substring of `s` from character index `from` (inclusive) to `to`
/// (exclusive), with leading and trailing trimmed whitespace removed.
pub fn trimmed_substring<'a>(s: &'a str, from: usize, to: usize) -> (r: &'a str)
    requires
        from <= to <= s@.len(),
    ensures
        r@ == spec_trim(s@.subrange(from as int, to as int)),
{
    let mut lo = from;
    let mut hi = to;
    while lo < hi && is_space_char(s.get_char(lo))
        invariant
            from <= lo <= hi <= s@.len(),
            spec_trim_front(s@.subrange(from as int, to as int)) == spec_trim_front(
                s@.subrange(lo as int, hi as int),
            ),
        decreases hi - lo,
    {
        assert(s@.subrange(lo as int, hi as int).drop_first() =~= s@.subrange(
            lo + 1,
            hi as int,
        ));
        lo = lo + 1;
    }
    assert(spec_trim_front(s@.subrange(lo as int, hi as int)) == s@.subrange(
        lo as int,
        hi as int,
    ));
    while lo < hi && is_space_char(s.get_char(hi - 1))
        invariant
            from <= lo <= hi <= s@.len(),
            spec_trim(s@.subrange(from as int, to as int)) == spec_trim_back(
                s@.subrange(lo as int, hi as int),
            ),
        decreases hi - lo,
    {
        assert(s@.subrange(lo as int, hi as int).drop_last() =~= s@.subrange(
            lo as int,
            hi - 1,
        ));
        hi = hi - 1;
    }
    s.substring_char(lo, hi)
}

/// Compares two string slices character by character.
pub fn str_eq(a: &str, b: &str) -> (r: bool)
    ensures
        r == (a@ == b@),
{
    let n = a.unicode_len();
    let m = b.unicode_len();
    if n != m {
        return false;
    }
    let mut i: usize = 0;
    while i < n
        invariant
            n == a@.len(),
            n == b@.len(),
            i <= n,
            forall|k: int| 0 <= k < i ==> a@[k] == b@[k],
        decreases n - i,
    {
        if a.get_char(i) != b.get_char(i) {
            assert(a@ != b@) by {
                assert(a@[i as int] != b@[i as int]);
            }
            return false;
        }
        i = i + 1;
    }
    assert(a@ =~= b@);
    true
}

/// The pieces of `s` split at every `sep`; always at least one piece.
pub open spec fn spec_split(s: Seq<char>, sep: char) -> Seq<Seq<char>>
    decreases s.len(),
    via spec_split_decreases
{
    match spec_find_char_from(s, sep, 0) {
        Some(k) => seq![s.subrange(0, k)] + spec_split(s.subrange(k + 1, s.len() as int), sep),
        None => seq![s],
    }
}

#[via_fn]
proof fn spec_split_decreases(s: Seq<char>, sep: char) {
    if spec_find_char_from(s, sep, 0) is Some {
        lemma_find_char_from_some(s, sep, 0);
    }
}

/// The views of a sequence of owned strings, in order.
pub open spec fn views_of_strings(v: Seq<String>) -> Seq<Seq<char>> {
    v.map_values(|t: String| t@)
}

/// Pushing a string pushes its view.
pub broadcast proof fn lemma_views_of_strings_push(v: Seq<String>, t: String)
    ensures
        #[trigger] views_of_strings(v.push(t)) == views_of_strings(v).push(t@),
{
    assert(views_of_strings(v.push(t)) =~= views_of_strings(v).push(t@));
}

/// Splits `s` at every occurrence of `sep`, keeping empty pieces.
pub fn split_at_char(s: &str, sep: char) -> (r: Vec<String>)
    ensures
        views_of_strings(r@) == spec_split(s@, sep),
        r@.len() >= 1,
{
    let mut pieces: Vec<String> = Vec::new();
    let mut rest: &str = s;
    loop
        invariant
            spec_split(s@, sep) == views_of_strings(pieces@) + spec_split(rest@, sep),
        decreases rest@.len(),
    {
        let ghost pieces_before = views_of_strings(pieces@);
        match find_char_from(rest, sep, 0) {
            Some(k) => {
                let piece = rest.substring_char(0, k).to_owned();
                let len = rest.unicode_len();
                pieces.push(piece);
                rest = rest.substring_char(k + 1, len);
                proof {
                    assert(views_of_strings(pieces@) =~= pieces_before.push(piece@));
                    assert(pieces_before + (seq![piece@] + spec_split(rest@, sep))
                        =~= pieces_before.push(piece@) + spec_split(rest@, sep));
                }
            },
            None => {
                pieces.push(rest.to_owned());
                proof {
                    assert(views_of_strings(pieces@) + Seq::<Seq<char>>::empty()
                        =~= pieces_before.push(rest@));
                    assert(pieces_before + seq![rest@] =~= pieces_before.push(rest@));
                }
                return pieces;
            },
        }
    }
}

/// Whether `c` is one of the whitespace characters this crate trims.
pub fn is_space_char(c: char) -> (r: bool)
    ensures
        r == is_space(c),
{
    c == ' ' || c == '\t' || c == '\n' || c == '\r'
}

/// Counts the occurrences of `c` between character indices `from` and `to`.
pub fn count_char_between(s: &str, c: char, from: usize, to: usize) -> (r: usize)
    requires
        from <= to <= s@.len(),
    ensures
        r == spec_count_char(s@.subrange(from as int, to as int), c),
        r <= to - from,
{
    let mut i = from;
    let mut count: usize = 0;
    while i < to
        invariant
            from <= i <= to <= s@.len(),
            count == spec_count_char(s@.subrange(from as int, i as int), c),
            count <= i - from,
        decreases to - i,
    {
        assert(s@.subrange(from as int, i + 1).drop_last() =~= s@.subrange(
            from as int,
            i as int,
        ));
        assert(s@.subrange(from as int, i + 1).last() == s@[i as int]);
        if s.get_char(i) == c {
            count = count + 1;
        }
        i = i + 1;
    }
    count
}

} // verus!
