//! The runtime value model and its byte-level building blocks.
//!
//! A `Variable` is the tagged value a caller reads from or writes to the
//! device: scalars, null-terminated text, nested arrays and structs.  The
//! 32- and 64-bit real variants carry the raw IEEE-754 bit pattern as an
//! unsigned integer: the codec only ever moves bytes, so the bits round
//! trip exactly and the caller converts to a floating type at the edge.

use vstd::prelude::*;

use vstd::utf8::{decode_utf8, encode_utf8, valid_utf8};

verus! {

broadcast use vstd::std_specs::vec::group_vec_axioms, vstd::seq::group_seq_axioms;

/// Where a written array starts.
#[derive(Clone, Copy, Debug, PartialEq, Eq, Structural)]
pub enum StartIndex {
    /// At the declared lower bound, whatever it is.
    Start,
    /// At this explicit index, which must equal the declared lower bound.
    At(i32),
}

/// One runtime value: what a decode produces and an encode consumes.
#[derive(Debug, PartialEq)]
pub enum Variable {
    /// The unit value of a zero-sized type.
    Void,
    /// A boolean, one byte on the wire.
    Bool(bool),
    I8(i8),
    I16(i16),
    I32(i32),
    I64(i64),
    U8(u8),
    U16(u16),
    U32(u32),
    U64(u64),
    /// A 32-bit real, carried as its IEEE-754 bit pattern.
    F32(u32),
    /// A 64-bit real, carried as its IEEE-754 bit pattern.
    F64(u64),
    /// Text, null-terminated on the wire.
    Text(String),
    /// An array: its start index and its elements, outermost dimension
    /// first.
    Array(StartIndex, Vec<Variable>),
    /// A struct: the fields the caller chose to set, in caller order.
    Struct(Vec<(String, Variable)>),
}

/// The mathematical image of a `Variable`.
pub enum Val {
    Void,
    Bool(bool),
    I8(i8),
    I16(i16),
    I32(i32),
    I64(i64),
    U8(u8),
    U16(u16),
    U32(u32),
    U64(u64),
    F32(u32),
    F64(u64),
    Text(Seq<char>),
    Array(StartIndex, Seq<Val>),
    Struct(Seq<(Seq<char>, Val)>),
}

/// The image of one `Variable`.
pub open spec fn val_of(v: Variable) -> Val
    decreases v,
{
    match v {
        Variable::Void => Val::Void,
        Variable::Bool(b) => Val::Bool(b),
        Variable::I8(x) => Val::I8(x),
        Variable::I16(x) => Val::I16(x),
        Variable::I32(x) => Val::I32(x),
        Variable::I64(x) => Val::I64(x),
        Variable::U8(x) => Val::U8(x),
        Variable::U16(x) => Val::U16(x),
        Variable::U32(x) => Val::U32(x),
        Variable::U64(x) => Val::U64(x),
        Variable::F32(x) => Val::F32(x),
        Variable::F64(x) => Val::F64(x),
        Variable::Text(s) => Val::Text(s@),
        Variable::Array(si, elems) => Val::Array(si, vals_of(elems@)),
        Variable::Struct(fields) => Val::Struct(field_vals_of(fields@)),
    }
}

/// The images of a sequence of variables, in order.
pub open spec fn vals_of(s: Seq<Variable>) -> Seq<Val>
    decreases s,
{
    if s.len() == 0 {
        Seq::empty()
    } else {
        vals_of(s.drop_last()).push(val_of(s.last()))
    }
}

/// The images of a sequence of named variables, in order.
pub open spec fn field_vals_of(s: Seq<(String, Variable)>) -> Seq<(Seq<char>, Val)>
    decreases s,
{
    if s.len() == 0 {
        Seq::empty()
    } else {
        field_vals_of(s.drop_last()).push((s.last().0@, val_of(s.last().1)))
    }
}

/// The image sequence has one image per variable, in place.
pub proof fn lemma_vals_of(s: Seq<Variable>)
    ensures
        vals_of(s).len() == s.len(),
        forall|i: int| 0 <= i < s.len() ==> vals_of(s)[i] == val_of(#[trigger] s[i]),
    decreases s.len(),
{
    if s.len() > 0 {
        lemma_vals_of(s.drop_last());
        assert forall|i: int| 0 <= i < s.len() implies vals_of(s)[i] == val_of(#[trigger] s[i]) by {
            if i < s.len() - 1 {
                assert(s.drop_last()[i] == s[i]);
                assert(vals_of(s)[i] == vals_of(s.drop_last())[i]);
            } else {
                assert(s.last() == s[i]);
            }
        }
    }
}

/// The named-image sequence pairs each name's view with its value's
/// image, in place.
pub proof fn lemma_field_vals_of(s: Seq<(String, Variable)>)
    ensures
        field_vals_of(s).len() == s.len(),
        forall|i: int|
            0 <= i < s.len() ==> field_vals_of(s)[i] == ((#[trigger] s[i]).0@, val_of(s[i].1)),
    decreases s.len(),
{
    if s.len() > 0 {
        lemma_field_vals_of(s.drop_last());
        assert forall|i: int|
            0 <= i < s.len() implies field_vals_of(s)[i] == ((#[trigger] s[i]).0@, val_of(
            s[i].1,
        )) by {
            if i < s.len() - 1 {
                assert(s.drop_last()[i] == s[i]);
                assert(field_vals_of(s)[i] == field_vals_of(s.drop_last())[i]);
            } else {
                assert(s.last() == s[i]);
            }
        }
    }
}

impl View for Variable {
    type V = Val;

    open spec fn view(&self) -> Val {
        val_of(*self)
    }
}

/// The little-endian bytes of the non-negative integer `x`, `n` bytes
/// long, least significant first.
pub open spec fn le_bytes(x: int, n: nat) -> Seq<u8>
    decreases n,
{
    if n == 0 {
        Seq::empty()
    } else {
        seq![(x % 256) as u8] + le_bytes(x / 256, (n - 1) as nat)
    }
}

/// The non-negative integer the bytes `b` denote, read little-endian.
pub open spec fn le_value(b: Seq<u8>) -> int
    decreases b.len(),
{
    if b.len() == 0 {
        0
    } else {
        b[0] + 256 * le_value(b.drop_first())
    }
}

/// `le_bytes` always yields exactly `n` bytes.
pub proof fn lemma_le_bytes_len(x: int, n: nat)
    ensures
        le_bytes(x, n).len() == n,
    decreases n,
{
    if n > 0 {
        lemma_le_bytes_len(x / 256, (n - 1) as nat);
    }
}

/// Reading back the little-endian bytes of `x` yields `x` again, for any
/// `x` that fits in `n` bytes.
pub proof fn lemma_le_round_trip(x: int, n: nat)
    requires
        0 <= x < pow256(n),
    ensures
        le_value(le_bytes(x, n)) == x,
    decreases n,
{
    if n == 0 {
    } else {
        lemma_le_round_trip(x / 256, (n - 1) as nat);
        assert(le_bytes(x, n).drop_first() =~= le_bytes(x / 256, (n - 1) as nat));
        assert(x / 256 < pow256((n - 1) as nat)) by {
            assert(pow256(n) == 256 * pow256((n - 1) as nat));
        }
    }
}

/// A value read from `b` is always non-negative and below `256^len`.
pub proof fn lemma_le_value_bound(b: Seq<u8>)
    ensures
        0 <= le_value(b) < pow256(b.len()),
    decreases b.len(),
{
    if b.len() > 0 {
        lemma_le_value_bound(b.drop_first());
        assert(pow256(b.len()) == 256 * pow256((b.len() - 1) as nat));
    }
}

/// Writing back the value read from `b` reproduces `b`.
pub proof fn lemma_le_bytes_of_value(b: Seq<u8>)
    ensures
        le_bytes(le_value(b), b.len()) == b,
    decreases b.len(),
{
    if b.len() > 0 {
        let rest = b.drop_first();
        lemma_le_bytes_of_value(rest);
        lemma_le_value_bound(rest);
        assert((b[0] + 256 * le_value(rest)) % 256 == b[0]) by {
            assert(b[0] < 256);
        }
        assert((b[0] + 256 * le_value(rest)) / 256 == le_value(rest)) by {
            assert(b[0] < 256);
        }
        assert(le_bytes(le_value(b), b.len()) =~= b);
    }
}

/// `256^n`.
pub open spec fn pow256(n: nat) -> int
    decreases n,
{
    if n == 0 {
        1
    } else {
        256 * pow256((n - 1) as nat)
    }
}

/// Reads the little-endian value of up to eight bytes.
pub fn uint_from_le(b: &[u8]) -> (r: u64)
    requires
        b@.len() <= 8,
    ensures
        r as int == le_value(b@),
{
    let n = b.len();
    let mut acc: u64 = 0;
    let mut i = n;
    proof {
        assert(b@.skip(n as int) =~= Seq::<u8>::empty());
    }
    while i > 0
        invariant
            i <= n <= 8,
            n == b@.len(),
            acc as int == le_value(b@.skip(i as int)),
            acc < pow256((n - i) as nat),
        decreases i,
    {
        proof {
            assert(b@.skip(i - 1)[0] == b@[i - 1]);
            assert(b@.skip(i - 1).drop_first() =~= b@.skip(i as int));
            assert(pow256((n - i + 1) as nat) == 256 * pow256((n - i) as nat));
            assert(pow256((n - i + 1) as nat) <= pow256(8)) by {
                lemma_pow256_le((n - i + 1) as nat, 8);
            }
            lemma_pow256_8();
        }
        let byte = *vstd::slice::slice_index_get(b, i - 1);
        acc = byte as u64 + 256 * acc;
        i = i - 1;
    }
    proof {
        assert(b@.skip(0) =~= b@);
    }
    acc
}

/// The numeric value of `256^8`.
proof fn lemma_pow256_8()
    ensures
        pow256(8) == 0x1_0000_0000_0000_0000,
{
    reveal_with_fuel(pow256, 9);
}

/// `256^a <= 256^b` whenever `a <= b`.
proof fn lemma_pow256_le(a: nat, b: nat)
    requires
        a <= b,
    ensures
        pow256(a) <= pow256(b),
        pow256(a) >= 1,
    decreases b,
{
    if b > 0 {
        if a == b {
            lemma_pow256_le((a - 1) as nat, (b - 1) as nat);
        } else {
            lemma_pow256_le(a, (b - 1) as nat);
        }
    }
}

/// Writes the `n` little-endian bytes of `x`.
pub fn uint_to_le(x: u64, n: usize) -> (r: Vec<u8>)
    requires
        n <= 8,
    ensures
        r@ == le_bytes(x as int, n as nat),
{
    let mut out: Vec<u8> = Vec::new();
    let mut rest = x;
    let mut i: usize = 0;
    proof {
        assert(out@ + le_bytes(x as int, n as nat) =~= le_bytes(x as int, n as nat));
    }
    while i < n
        invariant
            i <= n,
            le_bytes(x as int, n as nat) == out@ + le_bytes(rest as int, (n - i) as nat),
            out@.len() == i,
        decreases n - i,
    {
        let ghost before = out@;
        let byte = (rest % 256) as u8;
        out.push(byte);
        proof {
            assert(le_bytes(rest as int, (n - i) as nat) == seq![byte] + le_bytes(
                rest as int / 256,
                (n - i - 1) as nat,
            ));
            assert(before + (seq![byte] + le_bytes(rest as int / 256, (n - i - 1) as nat))
                =~= before.push(byte) + le_bytes(rest as int / 256, (n - i - 1) as nat));
            assert(out@ =~= before.push(byte));
        }
        rest = rest / 256;
        i = i + 1;
    }
    proof {
        assert(le_bytes(rest as int, 0) =~= Seq::<u8>::empty());
        assert(out@ + Seq::<u8>::empty() =~= out@);
    }
    out
}

/// The index of the first zero byte in `b`, if any.
pub open spec fn spec_first_zero(b: Seq<u8>) -> Option<int>
    decreases b.len(),
{
    if b.len() == 0 {
        None
    } else if b[0] == 0 {
        Some(0)
    } else {
        match spec_first_zero(b.drop_first()) {
            Some(k) => Some(k + 1),
            None => None,
        }
    }
}

/// A found terminator is in range, is zero, and nothing before it is.
pub proof fn lemma_first_zero_some(b: Seq<u8>)
    requires
        spec_first_zero(b) is Some,
    ensures
        ({
            let k = spec_first_zero(b)->Some_0;
            0 <= k < b.len() && b[k] == 0 && forall|j: int| 0 <= j < k ==> b[j] != 0
        }),
    decreases b.len(),
{
    if b.len() > 0 && b[0] != 0 {
        lemma_first_zero_some(b.drop_first());
        let k2 = spec_first_zero(b.drop_first())->Some_0;
        assert(forall|j: int| 1 <= j < k2 + 1 ==> b[j] == b.drop_first()[j - 1]);
    }
}

/// Finds the first zero byte of `b`.
pub fn find_first_zero(b: &[u8]) -> (r: Option<usize>)
    ensures
        match r {
            Some(k) => spec_first_zero(b@) == Some(k as int) && k < b@.len(),
            None => spec_first_zero(b@) is None,
        },
{
    let n = b.len();
    let mut i: usize = 0;
    assert(b@.skip(0) =~= b@);
    while i < n
        invariant
            i <= n,
            n == b@.len(),
            spec_first_zero(b@) == (match spec_first_zero(b@.skip(i as int)) {
                Some(k) => Some(k + i),
                None => None::<int>,
            }),
        decreases n - i,
    {
        proof {
            assert(b@.skip(i as int)[0] == b@[i as int]);
            assert(b@.skip(i as int).drop_first() =~= b@.skip(i + 1));
        }
        if *vstd::slice::slice_index_get(b, i) == 0 {
            return Some(i);
        }
        i = i + 1;
    }
    proof {
        assert(b@.skip(n as int) =~= Seq::<u8>::empty());
    }
    None
}

/// The characters a null-terminated byte string decodes to: everything
/// before the first zero byte, as UTF-8.  `None` when no terminator
/// exists or the prefix is not valid UTF-8.
pub open spec fn spec_c_string(b: Seq<u8>) -> Option<Seq<char>> {
    match spec_first_zero(b) {
        Some(k) => if valid_utf8(b.take(k)) {
            Some(decode_utf8(b.take(k)))
        } else {
            None
        },
        None => None,
    }
}

/// Decodes a null-terminated UTF-8 byte string.
pub fn bytes_to_string(bytes: &[u8]) -> (r: Option<String>)
    ensures
        match r {
            Some(s) => spec_c_string(bytes@) == Some(s@),
            None => spec_c_string(bytes@) is None,
        },
{
    let end = match find_first_zero(bytes) {
        Some(k) => k,
        None => {
            return None;
        },
    };
    let prefix = vstd::slice::slice_subrange(bytes, 0, end);
    assert(prefix@ =~= bytes@.take(end as int));
    match crate::schema::utf8_to_str(prefix) {
        Some(s) => Some(s.to_owned()),
        None => None,
    }
}

/// The bytes that encode `s` as a null-terminated string.
pub open spec fn spec_c_bytes(s: Seq<char>) -> Seq<u8> {
    encode_utf8(s) + seq![0u8]
}

/// Turns text into its wire form: its UTF-8 bytes and a trailing zero.
pub fn str_to_bytes(inner: &str) -> (r: Vec<u8>)
    ensures
        r@ == spec_c_bytes(inner@),
{
    let mut out = inner.as_bytes_vec();
    out.push(0);
    proof {
        assert(out@ =~= encode_utf8(inner@) + seq![0u8]);
    }
    out
}

} // verus!
