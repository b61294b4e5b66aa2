//! Textual value literals and their wire encoding.
//!
//! A simple set-by-string operation takes a human-readable literal —
//! `17`, `true`, `[1,2,3]`, `[[1,2],[3,4]]` — and encodes it through the
//! same per-tag dispatch as a typed value.  The array splitter is
//! bracket-, comma- and quote-aware, including backslash-escaped quotes,
//! so nested array and string literals split correctly.

use vstd::prelude::*;

use crate::error::AdsError;
use crate::numbers::{parse_i64, parse_u64, spec_parse_int, spec_parse_uint};
use crate::schema::{DataType, Symbol, SymbolV};
use crate::text::{lemma_views_of_strings_push, views_of_strings};
use crate::variables::{le_bytes, spec_c_bytes, str_to_bytes, uint_to_le};

verus! {

broadcast use vstd::std_specs::vec::group_vec_axioms, vstd::seq::group_seq_axioms;

/// Whether the literal character `a` equals the lower-case letter `b`
/// up to ASCII case.
pub open spec fn char_matches_lower(a: char, b: char) -> bool {
    a == b || ('A' <= a && a <= 'Z' && a as int + 32 == b as int)
}

/// Whether `s` spells `word` up to ASCII case, where `word` is already
/// lower case.
pub open spec fn spec_matches_word(s: Seq<char>, word: Seq<char>) -> bool {
    s.len() == word.len() && forall|i: int|
        0 <= i < s.len() ==> char_matches_lower(#[trigger] s[i], word[i])
}

/// The boolean a literal denotes, compared case-insensitively.
pub open spec fn spec_parse_bool(s: Seq<char>) -> Option<bool> {
    if spec_matches_word(s, "true"@) {
        Some(true)
    } else if spec_matches_word(s, "false"@) {
        Some(false)
    } else {
        None
    }
}

/// Compares `s` against the lower-case `word` up to ASCII case.
fn matches_word(s: &str, word: &str) -> (r: bool)
    ensures
        r == spec_matches_word(s@, word@),
{
    let n = s.unicode_len();
    let m = word.unicode_len();
    if n != m {
        return false;
    }
    let mut i: usize = 0;
    while i < n
        invariant
            i <= n,
            n == s@.len(),
            n == word@.len(),
            forall|k: int| 0 <= k < i ==> char_matches_lower(#[trigger] s@[k], word@[k]),
        decreases n - i,
    {
        let a = s.get_char(i);
        let b = word.get_char(i);
        let ok = a == b || (a >= 'A' && a <= 'Z' && (a as u32) + 32 == (b as u32));
        if !ok {
            assert(!char_matches_lower(s@[i as int], word@[i as int]));
            return false;
        }
        i = i + 1;
    }
    true
}

/// One step of the array-literal scanner: the bracket depth, the
/// inside-a-string flag, and whether the previous character escaped this
/// one.  Splitting happens at commas outside every bracket and string.
/// Pieces are the comma-separated chunks of the text between the opening
/// and closing bracket.
pub open spec fn spec_split_pieces(
    s: Seq<char>,
    i: int,
    start: int,
    depth: int,
    in_str: bool,
    esc: bool,
) -> Result<Seq<Seq<char>>, AdsError>
    decreases s.len() - i,
{
    if i < 0 || i >= s.len() - 1 {
        Ok(seq![s.subrange(start, if s.len() - 1 >= start { s.len() - 1 } else { start })])
    } else {
        let c = s[i];
        let depth2 = if c == '[' && !in_str {
            depth + 1
        } else if c == ']' && !in_str {
            depth - 1
        } else {
            depth
        };
        let in2 = if c == '"' && !in_str {
            true
        } else if c == '"' && in_str && !esc {
            false
        } else {
            in_str
        };
        if depth2 < 0 {
            Err(AdsError::InvalidArgument)
        } else {
            let esc2 = c == '\\' && in2;
            if c == ',' && depth2 == 0 && !in2 {
                match spec_split_pieces(s, i + 1, i + 1, depth2, in2, esc2) {
                    Ok(rest) => Ok(seq![s.subrange(start, i)] + rest),
                    Err(e) => Err(e),
                }
            } else {
                spec_split_pieces(s, i + 1, start, depth2, in2, esc2)
            }
        }
    }
}

/// Whether the scanner ends outside every bracket and string; a literal
/// that ends inside one is invalid.
pub open spec fn spec_split_balanced(
    s: Seq<char>,
    i: int,
    depth: int,
    in_str: bool,
    esc: bool,
) -> bool
    decreases s.len() - i,
{
    if i < 0 || i >= s.len() - 1 {
        depth == 0 && !in_str
    } else {
        let c = s[i];
        let depth2 = if c == '[' && !in_str {
            depth + 1
        } else if c == ']' && !in_str {
            depth - 1
        } else {
            depth
        };
        let in2 = if c == '"' && !in_str {
            true
        } else if c == '"' && in_str && !esc {
            false
        } else {
            in_str
        };
        let esc2 = c == '\\' && in2;
        depth2 >= 0 && spec_split_balanced(s, i + 1, depth2, in2, esc2)
    }
}

/// The comma-separated top-level pieces of an array literal: the text
/// must open with `[` and close with `]`, and brackets and quotes must
/// balance.
pub open spec fn spec_str_array_split(s: Seq<char>) -> Result<Seq<Seq<char>>, AdsError> {
    if s.len() == 0 || s[0] != '[' {
        Err(AdsError::InvalidArgument)
    } else if s.len() >= 2 && s[s.len() - 1] != ']' {
        Err(AdsError::InvalidArgument)
    } else if !spec_split_balanced(s, 1, 0, false, false) {
        Err(AdsError::InvalidArgument)
    } else {
        spec_split_pieces(s, 1, 1, 0, false, false)
    }
}

/// Splits an array literal into its top-level comma-separated pieces,
/// tracking bracket depth and quoted strings with escapes.
pub fn str_array_split(value: &str) -> (r: Result<Vec<String>, AdsError>)
    ensures
        match r {
            Ok(pieces) => spec_str_array_split(value@) == Ok::<_, AdsError>(
                views_of_strings(pieces@),
            ),
            Err(e) => spec_str_array_split(value@) == Err::<Seq<Seq<char>>, _>(e),
        },
{
    let n = value.unicode_len();
    if n == 0 || value.get_char(0) != '[' {
        return Err(AdsError::InvalidArgument);
    }
    if n >= 2 && value.get_char(n - 1) != ']' {
        return Err(AdsError::InvalidArgument);
    }
    let mut pieces: Vec<String> = Vec::new();
    let mut start: usize = 1;
    let mut depth: usize = 0;
    let mut in_str = false;
    let mut esc = false;
    let mut i: usize = 1;
    proof {
        match spec_split_pieces(value@, 1, 1, 0, false, false) {
            Ok(rest) => {
                assert(views_of_strings(pieces@) + rest =~= rest);
            },
            Err(_) => {},
        }
    }
    while i < n - 1
        invariant
            1 <= i,
            i <= n,
            1 <= start <= i,
            n == value@.len(),
            n >= 1,
            depth <= i,
            value@[0] == '[',
            n >= 2 ==> value@[n - 1] == ']',
            spec_split_balanced(value@, 1, 0, false, false) <==> spec_split_balanced(
                value@,
                i as int,
                depth as int,
                in_str,
                esc,
            ),
            spec_split_pieces(value@, 1, 1, 0, false, false) == (match spec_split_pieces(
                value@,
                i as int,
                start as int,
                depth as int,
                in_str,
                esc,
            ) {
                Ok(rest) => Ok::<_, AdsError>(views_of_strings(pieces@) + rest),
                Err(e) => Err::<Seq<Seq<char>>, _>(e),
            }),
        decreases n - i,
    {
        let c = value.get_char(i);
        if c == '[' && !in_str {
            depth = depth + 1;
        } else if c == ']' && !in_str {
            if depth == 0 {
                return Err(AdsError::InvalidArgument);
            }
            depth = depth - 1;
        } else if c == '"' && !in_str {
            in_str = true;
        } else if c == '"' && in_str && !esc {
            in_str = false;
        }
        if c == ',' && depth == 0 && !in_str {
            let ghost before = views_of_strings(pieces@);
            let piece = value.substring_char(start, i).to_owned();
            pieces.push(piece);
            proof {
                lemma_views_of_strings_push(pieces@.drop_last(), pieces@.last());
                assert(pieces@.drop_last() =~= pieces@.subrange(0, pieces@.len() - 1));
                assert(views_of_strings(pieces@) =~= before.push(
                    value@.subrange(start as int, i as int),
                ));
                let rest = spec_split_pieces(
                    value@,
                    i + 1,
                    i + 1,
                    depth as int,
                    in_str,
                    c == '\\' && in_str,
                );
                if rest is Ok {
                    assert(before + (seq![value@.subrange(start as int, i as int)] + rest->Ok_0)
                        =~= before.push(value@.subrange(start as int, i as int)) + rest->Ok_0);
                }
            }
            start = i + 1;
        }
        esc = c == '\\' && in_str;
        i = i + 1;
    }
    // The text after the last split comma, with the closing bracket (or
    // for a bare `[`, nothing) removed.
    if depth != 0 || in_str {
        return Err(AdsError::InvalidArgument);
    }
    let last_end = if n >= 2 {
        n - 1
    } else {
        start
    };
    let ghost before = views_of_strings(pieces@);
    let piece = value.substring_char(start, if last_end >= start {
        last_end
    } else {
        start
    }).to_owned();
    pieces.push(piece);
    proof {
        assert(pieces@.drop_last() =~= pieces@.subrange(0, pieces@.len() - 1));
        lemma_views_of_strings_push(pieces@.drop_last(), pieces@.last());
        assert(views_of_strings(pieces@) =~= before.push(piece@));
        assert(before + seq![piece@] =~= before.push(piece@));
    }
    Ok(pieces)
}


/// The bytes a textual scalar literal encodes to under the primitive
/// tag.  Real (floating) tags are not handled by the verified core: a
/// caller parses those literals itself and writes the typed value.
pub open spec fn spec_text_scalar(s: Seq<char>, tag: u8) -> Result<Seq<u8>, AdsError> {
    if tag == 0 {
        if s.len() == 0 {
            Ok(Seq::empty())
        } else {
            Err(AdsError::InvalidArgument)
        }
    } else if tag == 33 {
        match spec_parse_bool(s) {
            Some(b) => Ok(seq![if b { 1u8 } else { 0u8 }]),
            None => Err(AdsError::InvalidArgument),
        }
    } else if tag == 16 {
        match spec_parse_int(s) {
            Some(v) => if i8::MIN <= v <= i8::MAX {
                Ok(le_bytes(v as i8 as u8 as int, 1))
            } else {
                Err(AdsError::InvalidArgument)
            },
            None => Err(AdsError::InvalidArgument),
        }
    } else if tag == 2 {
        match spec_parse_int(s) {
            Some(v) => if i16::MIN <= v <= i16::MAX {
                Ok(le_bytes(v as i16 as u16 as int, 2))
            } else {
                Err(AdsError::InvalidArgument)
            },
            None => Err(AdsError::InvalidArgument),
        }
    } else if tag == 3 {
        match spec_parse_int(s) {
            Some(v) => if i32::MIN <= v <= i32::MAX {
                Ok(le_bytes(v as i32 as u32 as int, 4))
            } else {
                Err(AdsError::InvalidArgument)
            },
            None => Err(AdsError::InvalidArgument),
        }
    } else if tag == 20 {
        match spec_parse_int(s) {
            Some(v) => if i64::MIN <= v <= i64::MAX {
                Ok(le_bytes(v as i64 as u64 as int, 8))
            } else {
                Err(AdsError::InvalidArgument)
            },
            None => Err(AdsError::InvalidArgument),
        }
    } else if tag == 17 {
        match spec_parse_uint(s) {
            Some(v) => if v <= u8::MAX {
                Ok(le_bytes(v, 1))
            } else {
                Err(AdsError::InvalidArgument)
            },
            None => Err(AdsError::InvalidArgument),
        }
    } else if tag == 18 {
        match spec_parse_uint(s) {
            Some(v) => if v <= u16::MAX {
                Ok(le_bytes(v, 2))
            } else {
                Err(AdsError::InvalidArgument)
            },
            None => Err(AdsError::InvalidArgument),
        }
    } else if tag == 19 {
        match spec_parse_uint(s) {
            Some(v) => if v <= u32::MAX {
                Ok(le_bytes(v, 4))
            } else {
                Err(AdsError::InvalidArgument)
            },
            None => Err(AdsError::InvalidArgument),
        }
    } else if tag == 21 {
        match spec_parse_uint(s) {
            Some(v) => if v <= u64::MAX {
                Ok(le_bytes(v, 8))
            } else {
                Err(AdsError::InvalidArgument)
            },
            None => Err(AdsError::InvalidArgument),
        }
    } else if tag == 30 {
        Ok(spec_c_bytes(s))
    } else if tag == 4 || tag == 5 || tag == 65 || tag == 31 {
        Err(AdsError::Unsupported)
    } else if tag == 32 || tag == 34 {
        Err(AdsError::MalformedData)
    } else {
        Err(AdsError::MalformedData)
    }
}

/// The bytes a textual literal encodes to with `ranges` dimensions still
/// declared: an array literal must supply exactly the declared element
/// count for each dimension.
pub open spec fn spec_text_encode(s: Seq<char>, sym: SymbolV, ranges: Seq<(i32, i32)>) -> Result<
    Seq<u8>,
    AdsError,
>
    decreases ranges.len(), 2nat, 0nat,
{
    if ranges.len() == 0 {
        spec_text_scalar(s, sym.data_type_id)
    } else {
        match spec_str_array_split(s) {
            Err(e) => Err(e),
            Ok(pieces) => if pieces.len() != 1 + ranges[0].1 - ranges[0].0 {
                Err(AdsError::InvalidArgument)
            } else {
                spec_text_elems(pieces, sym, ranges, 0)
            },
        }
    }
}

/// The concatenated encodings of the literal pieces `i..` for the next
/// dimension down.
pub open spec fn spec_text_elems(
    pieces: Seq<Seq<char>>,
    sym: SymbolV,
    ranges: Seq<(i32, i32)>,
    i: int,
) -> Result<Seq<u8>, AdsError>
    decreases ranges.len(), 1nat, pieces.len() - i,
{
    if i < 0 || i >= pieces.len() || ranges.len() == 0 {
        Ok(Seq::empty())
    } else {
        match spec_text_encode(pieces[i], sym, ranges.drop_first()) {
            Ok(b) => match spec_text_elems(pieces, sym, ranges, i + 1) {
                Ok(rest) => Ok(b + rest),
                Err(e) => Err(e),
            },
            Err(e) => Err(e),
        }
    }
}

/// Encodes a textual scalar literal under the symbol's primitive tag.
pub fn str_and_symbol_to_bytes_flat(value: &str, symbol: &Symbol) -> (r: Result<Vec<u8>, AdsError>)
    ensures
        match r {
            Ok(b) => spec_text_scalar(value@, symbol@.data_type_id) == Ok::<_, AdsError>(b@),
            Err(e) => spec_text_scalar(value@, symbol@.data_type_id) == Err::<Seq<u8>, _>(e),
        },
{
    let tag = symbol.data_type_id;
    if tag == 0 {
        if value.unicode_len() == 0 {
            let empty: Vec<u8> = Vec::new();
            assert(empty@ =~= Seq::<u8>::empty());
            Ok(empty)
        } else {
            Err(AdsError::InvalidArgument)
        }
    } else if tag == 33 {
        if matches_word(value, "true") {
            proof {
                reveal_strlit("true");
                reveal_strlit("false");
                assert(!spec_matches_word(value@, "false"@));
            }
            let out = vec![1u8];
            assert(out@ =~= seq![1u8]);
            Ok(out)
        } else if matches_word(value, "false") {
            let out = vec![0u8];
            assert(out@ =~= seq![0u8]);
            Ok(out)
        } else {
            Err(AdsError::InvalidArgument)
        }
    } else if tag == 16 {
        match parse_i64(value) {
            Some(v) => if -128 <= v && v <= 127 {
                Ok(uint_to_le(v as i8 as u8 as u64, 1))
            } else {
                Err(AdsError::InvalidArgument)
            },
            None => Err(AdsError::InvalidArgument),
        }
    } else if tag == 2 {
        match parse_i64(value) {
            Some(v) => if -32768 <= v && v <= 32767 {
                Ok(uint_to_le(v as i16 as u16 as u64, 2))
            } else {
                Err(AdsError::InvalidArgument)
            },
            None => Err(AdsError::InvalidArgument),
        }
    } else if tag == 3 {
        match parse_i64(value) {
            Some(v) => if -2147483648 <= v && v <= 2147483647 {
                Ok(uint_to_le(v as i32 as u32 as u64, 4))
            } else {
                Err(AdsError::InvalidArgument)
            },
            None => Err(AdsError::InvalidArgument),
        }
    } else if tag == 20 {
        match parse_i64(value) {
            Some(v) => Ok(uint_to_le(v as u64, 8)),
            None => Err(AdsError::InvalidArgument),
        }
    } else if tag == 17 {
        match parse_u64(value) {
            Some(v) => if v <= 255 {
                Ok(uint_to_le(v, 1))
            } else {
                Err(AdsError::InvalidArgument)
            },
            None => Err(AdsError::InvalidArgument),
        }
    } else if tag == 18 {
        match parse_u64(value) {
            Some(v) => if v <= 65535 {
                Ok(uint_to_le(v, 2))
            } else {
                Err(AdsError::InvalidArgument)
            },
            None => Err(AdsError::InvalidArgument),
        }
    } else if tag == 19 {
        match parse_u64(value) {
            Some(v) => if v <= 4294967295 {
                Ok(uint_to_le(v, 4))
            } else {
                Err(AdsError::InvalidArgument)
            },
            None => Err(AdsError::InvalidArgument),
        }
    } else if tag == 21 {
        match parse_u64(value) {
            Some(v) => Ok(uint_to_le(v, 8)),
            None => Err(AdsError::InvalidArgument),
        }
    } else if tag == 30 {
        Ok(str_to_bytes(value))
    } else if tag == 4 || tag == 5 || tag == 65 || tag == 31 {
        // Real literals call through floating-point parsing, which the
        // verified core does not perform; structs are never written as a
        // single textual literal.
        Err(AdsError::Unsupported)
    } else {
        Err(AdsError::MalformedData)
    }
}

/// Encodes a textual literal with the given dimensions still declared.
pub fn str_and_symbol_to_bytes_inner(value: &str, symbol: &Symbol, ranges: &[(i32, i32)]) -> (r:
    Result<Vec<u8>, AdsError>)
    ensures
        match r {
            Ok(b) => spec_text_encode(value@, symbol@, ranges@) == Ok::<_, AdsError>(b@),
            Err(e) => spec_text_encode(value@, symbol@, ranges@) == Err::<Seq<u8>, _>(e),
        },
    decreases ranges@.len(), 2nat, 0nat,
{
    let n_ranges = ranges.len();
    if n_ranges == 0 {
        return str_and_symbol_to_bytes_flat(value, symbol);
    }
    let (lo, hi) = *vstd::slice::slice_index_get(ranges, 0);
    let pieces = match str_array_split(value) {
        Ok(p) => p,
        Err(e) => {
            return Err(e);
        },
    };
    let declared: i64 = 1 + hi as i64 - lo as i64;
    let matches_len = declared >= 0 && (pieces.len() as u64) == (declared as u64);
    proof {
        crate::text::lemma_views_of_strings_push(pieces@, pieces@.last());
        assert(views_of_strings(pieces@).len() == pieces@.len()) by {
            assert(forall|k: int|
                0 <= k < pieces@.len() ==> (#[trigger] views_of_strings(pieces@)[k]) == pieces@[
                k]@);
        }
    }
    if !matches_len {
        return Err(AdsError::InvalidArgument);
    }
    let n_pieces = pieces.len();
    let mut out: Vec<u8> = Vec::new();
    let mut i: usize = 0;
    proof {
        match spec_text_elems(views_of_strings(pieces@), symbol@, ranges@, 0) {
            Ok(rest) => {
                assert(out@ + rest =~= rest);
            },
            Err(_) => {},
        }
    }
    while i < n_pieces
        invariant
            i <= n_pieces,
            n_pieces == pieces@.len(),
            n_ranges == ranges@.len(),
            n_ranges >= 1,
            views_of_strings(pieces@).len() == pieces@.len(),
            forall|k: int|
                0 <= k < pieces@.len() ==> (#[trigger] views_of_strings(pieces@)[k]) == pieces@[
                k]@,
            spec_text_encode(value@, symbol@, ranges@) == (match spec_text_elems(
                views_of_strings(pieces@),
                symbol@,
                ranges@,
                i as int,
            ) {
                Ok(rest) => Ok::<_, AdsError>(out@ + rest),
                Err(e) => Err::<Seq<u8>, _>(e),
            }),
        decreases n_pieces - i,
    {
        let rest_ranges = vstd::slice::slice_subrange(ranges, 1, n_ranges);
        assert(rest_ranges@ =~= ranges@.drop_first());
        let mut chunk = match str_and_symbol_to_bytes_inner(
            pieces[i].as_str(),
            symbol,
            rest_ranges,
        ) {
            Ok(b) => b,
            Err(e) => {
                return Err(e);
            },
        };
        let ghost out_before = out@;
        let ghost chunk_spec = chunk@;
        out.append(&mut chunk);
        proof {
            let rest = spec_text_elems(views_of_strings(pieces@), symbol@, ranges@, i + 1);
            if rest is Ok {
                assert(out_before + (chunk_spec + rest->Ok_0) =~= (out_before + chunk_spec)
                    + rest->Ok_0);
            }
        }
        i = i + 1;
    }
    proof {
        assert(out@ + Seq::<u8>::empty() =~= out@);
    }
    Ok(out)
}

/// Encodes a textual literal into the byte layout that `symbol` and
/// `symbol_data_type` declare.
pub fn str_and_symbol_to_bytes(value: &str, symbol: &Symbol, symbol_data_type: &DataType) -> (r:
    Result<Vec<u8>, AdsError>)
    ensures
        match r {
            Ok(b) => spec_text_encode(value@, symbol@, symbol_data_type@.array_ranges) == Ok::<
                _,
                AdsError,
            >(b@),
            Err(e) => spec_text_encode(value@, symbol@, symbol_data_type@.array_ranges) == Err::<
                Seq<u8>,
                _,
            >(e),
        },
{
    let ranges = vstd::slice::slice_subrange(
        symbol_data_type.array_ranges.as_slice(),
        0,
        symbol_data_type.array_ranges.len(),
    );
    assert(ranges@ =~= symbol_data_type@.array_ranges);
    str_and_symbol_to_bytes_inner(value, symbol, ranges)
}

} // verus!
