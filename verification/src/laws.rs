//! Crate-wide laws: proofs that relate encoding, decoding, resolution
//! and flattening to one another.
//!
//! Each public proof function here states one law over the same spec
//! functions the executable contracts use, so the law holds of the
//! executable code through those contracts.

use vstd::prelude::*;

use crate::codec::{
    spec_decode_array, spec_decode_elems, spec_decode_inner, spec_decode_scalar, spec_encode_array,
    spec_encode_elems, spec_encode_scalar, spec_encode_struct_fields, spec_encode_value,
    spec_names_unique,
};
use crate::error::AdsError;
use crate::resolve::{spec_lookup_type, spec_type_base_name};
use crate::schema::DataTypeV;
use crate::schema::SymbolV;
use crate::variables::{
    lemma_le_bytes_len, lemma_le_round_trip, pow256, spec_c_bytes, spec_c_string, spec_first_zero,
    StartIndex, Val,
};
use vstd::utf8::{encode_scalar, encode_utf8, encode_utf8_decode_utf8, encode_utf8_valid_utf8};

verus! {

broadcast use vstd::seq::group_seq_axioms;

/// The byte width of a fixed-width primitive tag; text and structs have
/// no fixed width.
pub open spec fn fixed_width(tag: u8) -> Option<int> {
    if tag == 0 {
        Some(0)
    } else if tag == 33 || tag == 16 || tag == 17 {
        Some(1)
    } else if tag == 2 || tag == 18 {
        Some(2)
    } else if tag == 3 || tag == 19 || tag == 4 {
        Some(4)
    } else if tag == 20 || tag == 21 || tag == 5 {
        Some(8)
    } else {
        None
    }
}

/// Whether `v` is a fixed-width scalar value that encodes under `tag`.
pub open spec fn scalar_fits(v: Val, tag: u8) -> bool {
    &&& spec_encode_scalar(v, tag) is Ok
    &&& fixed_width(tag) is Some
    &&& !(v matches Val::Text(_))
}

/// Whether `v` is a full, well-shaped array value for the declared
/// dimensions: every dimension carries its declared start index and
/// exactly its declared element count, down to fixed-width scalars.
pub open spec fn full_array_shape(ranges: Seq<(i32, i32)>, v: Val, tag: u8) -> bool
    decreases ranges.len(),
{
    if ranges.len() == 0 {
        scalar_fits(v, tag)
    } else {
        &&& v matches Val::Array(si, elems)
        &&& si == StartIndex::At(ranges[0].0)
        &&& ranges[0].0 <= ranges[0].1
        &&& v->Array_1.len() == 1 + ranges[0].1 - ranges[0].0
        &&& forall|i: int|
            0 <= i < v->Array_1.len() ==> full_array_shape(
                ranges.drop_first(),
                #[trigger] v->Array_1[i],
                tag,
            )
    }
}

/// The total byte size of a full array of the given dimensions over a
/// fixed-width scalar.
pub open spec fn full_width(ranges: Seq<(i32, i32)>, tag: u8) -> int
    decreases ranges.len(),
{
    if ranges.len() == 0 {
        fixed_width(tag)->Some_0
    } else {
        (1 + ranges[0].1 - ranges[0].0) * full_width(ranges.drop_first(), tag)
    }
}

/// A fixed-width scalar decodes from exactly the bytes it encodes to.
pub proof fn lemma_scalar_round_trip(v: Val, tag: u8)
    requires
        scalar_fits(v, tag),
    ensures
        spec_encode_scalar(v, tag) matches Ok(b) && b.len() == fixed_width(tag)->Some_0
            && spec_decode_scalar(tag, b) == Ok::<_, AdsError>(v),
{
    reveal_with_fuel(pow256, 9);
    let b = spec_encode_scalar(v, tag)->Ok_0;
    match v {
        Val::Void => {},
        Val::Bool(x) => {},
        Val::I8(x) => {
            lemma_le_bytes_len(x as u8 as int, 1);
            lemma_le_round_trip(x as u8 as int, 1);
            assert((x as u8) as i8 == x) by (bit_vector);
        },
        Val::I16(x) => {
            lemma_le_bytes_len(x as u16 as int, 2);
            lemma_le_round_trip(x as u16 as int, 2);
            assert((x as u16) as i16 == x) by (bit_vector);
        },
        Val::I32(x) => {
            lemma_le_bytes_len(x as u32 as int, 4);
            lemma_le_round_trip(x as u32 as int, 4);
            assert((x as u32) as i32 == x) by (bit_vector);
        },
        Val::I64(x) => {
            lemma_le_bytes_len(x as u64 as int, 8);
            lemma_le_round_trip(x as u64 as int, 8);
            assert((x as u64) as i64 == x) by (bit_vector);
        },
        Val::U8(x) => {
            lemma_le_bytes_len(x as int, 1);
            lemma_le_round_trip(x as int, 1);
        },
        Val::U16(x) => {
            lemma_le_bytes_len(x as int, 2);
            lemma_le_round_trip(x as int, 2);
        },
        Val::U32(x) => {
            lemma_le_bytes_len(x as int, 4);
            lemma_le_round_trip(x as int, 4);
        },
        Val::U64(x) => {
            lemma_le_bytes_len(x as int, 8);
            lemma_le_round_trip(x as int, 8);
        },
        Val::F32(x) => {
            lemma_le_bytes_len(x as int, 4);
            lemma_le_round_trip(x as int, 4);
        },
        Val::F64(x) => {
            lemma_le_bytes_len(x as int, 8);
            lemma_le_round_trip(x as int, 8);
        },
        Val::Text(_) => {},
        Val::Array(_, _) => {},
        Val::Struct(_) => {},
    }
}

/// A full array value of fixed-width scalars decodes from exactly the
/// bytes it encodes to, whatever nesting depth the dimensions declare
/// and whatever fuel decoding is given: the value round-trips.
pub proof fn lemma_array_round_trip(
    types: Seq<DataTypeV>,
    sym: SymbolV,
    dt: DataTypeV,
    ranges: Seq<(i32, i32)>,
    v: Val,
    fuel: nat,
)
    requires
        full_array_shape(ranges, v, sym.data_type_id),
        sym.data_type_id != 65,
        ranges.len() > 0 ==> spec_lookup_type(
            types,
            spec_type_base_name(dt.name, None)->Ok_0,
        ) is Some,
    ensures
        spec_encode_value(types, sym, ranges, v) matches Ok(b) && b.len() == full_width(
            ranges,
            sym.data_type_id,
        ) && spec_decode_array(types, sym, dt, ranges, b, fuel) == Ok::<_, AdsError>(v),
    decreases ranges.len(), 2nat, 0nat,
{
    let tag = sym.data_type_id;
    if ranges.len() == 0 {
        lemma_scalar_round_trip(v, tag);
        assert(spec_decode_inner(types, sym, dt, spec_encode_scalar(v, tag)->Ok_0, fuel)
            == Ok::<_, AdsError>(v));
    } else {
        let lo = ranges[0].0;
        let hi = ranges[0].1;
        let elems = v->Array_1;
        let count = 1 + hi - lo;
        let sub_width = full_width(ranges.drop_first(), tag);
        assert(full_array_shape(ranges.drop_first(), elems[0], tag));
        lemma_shape_width_nonneg(ranges.drop_first(), elems[0], tag);
        lemma_elems_encode(types, sym, dt, ranges, elems, 0, fuel);
        let b = spec_encode_elems(types, sym, elems, ranges, 0)->Ok_0;
        assert(b.len() == (count - 0) * sub_width);
        assert(spec_encode_array(types, sym, StartIndex::At(lo), elems, ranges) == Ok::<
            _,
            AdsError,
        >(b));
        // Decoding divides the buffer back into the same chunks.
        assert(count >= 1);
        assert((count * sub_width) / count == sub_width) by (nonlinear_arith)
            requires
                count >= 1,
                sub_width >= 0,
        ;
        assert(0 * sub_width == 0) by (nonlinear_arith);
        assert(b.subrange(0 * sub_width, b.len() as int) =~= b);
        lemma_elems_decode(types, sym, dt, ranges, elems, b, 0, fuel);
        assert(elems.subrange(0, elems.len() as int) =~= elems);
    }
}

/// A well-shaped value's total width is never negative.
proof fn lemma_shape_width_nonneg(ranges: Seq<(i32, i32)>, v: Val, tag: u8)
    requires
        full_array_shape(ranges, v, tag),
    ensures
        full_width(ranges, tag) >= 0,
    decreases ranges.len(),
{
    if ranges.len() > 0 {
        let elems = v->Array_1;
        assert(elems.len() >= 1);
        assert(full_array_shape(ranges.drop_first(), elems[0], tag));
        lemma_shape_width_nonneg(ranges.drop_first(), elems[0], tag);
        assert((1 + ranges[0].1 - ranges[0].0) * full_width(ranges.drop_first(), tag) >= 0)
            by (nonlinear_arith)
            requires
                1 + ranges[0].1 - ranges[0].0 >= 1,
                full_width(ranges.drop_first(), tag) >= 0,
        ;
    }
}

/// The elements `i..` of a full array encode to a buffer of exactly
/// `(count - i)` blocks of the sub-dimension width.
proof fn lemma_elems_encode(
    types: Seq<DataTypeV>,
    sym: SymbolV,
    dt: DataTypeV,
    ranges: Seq<(i32, i32)>,
    elems: Seq<Val>,
    i: int,
    fuel: nat,
)
    requires
        ranges.len() >= 1,
        elems.len() <= 1 + ranges[0].1 - ranges[0].0,
        0 <= i <= elems.len(),
        sym.data_type_id != 65,
        forall|k: int|
            0 <= k < elems.len() ==> full_array_shape(
                ranges.drop_first(),
                #[trigger] elems[k],
                sym.data_type_id,
            ),
        ranges.len() > 1 ==> spec_lookup_type(
            types,
            spec_type_base_name(dt.name, None)->Ok_0,
        ) is Some,
    ensures
        spec_encode_elems(types, sym, elems, ranges, i) matches Ok(b) && b.len() == (elems.len()
            - i) * full_width(ranges.drop_first(), sym.data_type_id),
    decreases ranges.len(), 1nat, elems.len() - i,
{
    let tag = sym.data_type_id;
    let sub_width = full_width(ranges.drop_first(), tag);
    if i >= elems.len() {
        assert((elems.len() - i) * sub_width == 0) by (nonlinear_arith)
            requires
                elems.len() - i == 0,
        ;
    } else {
        let head = if ranges.len() <= 1 {
            spec_encode_value(types, sym, Seq::empty(), elems[i])
        } else {
            match elems[i] {
                Val::Array(si2, inner) => spec_encode_array(
                    types,
                    sym,
                    si2,
                    inner,
                    ranges.drop_first(),
                ),
                _ => Err(AdsError::TypeMismatch),
            }
        };
        if ranges.len() <= 1 {
            assert(ranges.drop_first().len() == 0);
            lemma_scalar_round_trip(elems[i], tag);
        } else {
            lemma_array_round_trip(types, sym, dt, ranges.drop_first(), elems[i], fuel);
            assert(elems[i] matches Val::Array(_, _));
            assert(spec_encode_value(types, sym, ranges.drop_first(), elems[i])
                == spec_encode_array(
                types,
                sym,
                elems[i]->Array_0,
                elems[i]->Array_1,
                ranges.drop_first(),
            ));
        }
        assert(head matches Ok(h) && h.len() == sub_width);
        lemma_elems_encode(types, sym, dt, ranges, elems, i + 1, fuel);
        let rest = spec_encode_elems(types, sym, elems, ranges, i + 1)->Ok_0;
        assert((head->Ok_0 + rest).len() == sub_width + (elems.len() - i - 1) * sub_width);
        assert(sub_width + (elems.len() - i - 1) * sub_width == (elems.len() - i) * sub_width)
            by (nonlinear_arith);
    }
}

/// Decoding the buffer the elements `i..` encoded to yields those
/// elements back.
proof fn lemma_elems_decode(
    types: Seq<DataTypeV>,
    sym: SymbolV,
    dt: DataTypeV,
    ranges: Seq<(i32, i32)>,
    elems: Seq<Val>,
    bytes: Seq<u8>,
    i: int,
    fuel: nat,
)
    requires
        ranges.len() >= 1,
        ranges[0].0 <= ranges[0].1,
        elems.len() == 1 + ranges[0].1 - ranges[0].0,
        0 <= i <= elems.len(),
        sym.data_type_id != 65,
        forall|k: int|
            0 <= k < elems.len() ==> full_array_shape(
                ranges.drop_first(),
                #[trigger] elems[k],
                sym.data_type_id,
            ),
        spec_lookup_type(types, spec_type_base_name(dt.name, None)->Ok_0) is Some,
        bytes.len() == elems.len() * full_width(ranges.drop_first(), sym.data_type_id),
        spec_encode_elems(types, sym, elems, ranges, i) == Ok::<_, AdsError>(
            bytes.subrange(
                i * full_width(ranges.drop_first(), sym.data_type_id),
                bytes.len() as int,
            ),
        ),
    ensures
        spec_decode_elems(
            types,
            sym,
            dt,
            ranges,
            bytes,
            full_width(ranges.drop_first(), sym.data_type_id),
            i,
            elems.len() as int,
            fuel,
        ) == Ok::<_, AdsError>(elems.subrange(i, elems.len() as int)),
    decreases ranges.len(), 1nat, elems.len() - i,
{
    let tag = sym.data_type_id;
    let w = full_width(ranges.drop_first(), tag);
    let count = elems.len() as int;
    assert(full_array_shape(ranges.drop_first(), elems[0], tag));
    lemma_shape_width_nonneg(ranges.drop_first(), elems[0], tag);
    if i >= count {
        assert(elems.subrange(i, count) =~= Seq::<Val>::empty());
    } else {
        // Split the remaining buffer into this element's chunk and the
        // rest.
        assert(i * w >= 0) by (nonlinear_arith)
            requires
                i >= 0,
                w >= 0,
        ;
        assert((i + 1) * w == i * w + w) by (nonlinear_arith);
        assert((i + 1) * w <= count * w) by (nonlinear_arith)
            requires
                i + 1 <= count,
                w >= 0,
        ;
        let chunk = bytes.subrange(i * w, (i + 1) * w);
        let suffix = bytes.subrange(i * w, bytes.len() as int);
        // The head encoding is exactly this chunk.
        let head = if ranges.len() <= 1 {
            spec_encode_value(types, sym, Seq::empty(), elems[i])
        } else {
            match elems[i] {
                Val::Array(si2, inner) => spec_encode_array(
                    types,
                    sym,
                    si2,
                    inner,
                    ranges.drop_first(),
                ),
                _ => Err(AdsError::TypeMismatch),
            }
        };
        if ranges.len() <= 1 {
            lemma_scalar_round_trip(elems[i], tag);
        } else {
            lemma_array_round_trip(types, sym, dt, ranges.drop_first(), elems[i], fuel);
            assert(spec_encode_value(types, sym, ranges.drop_first(), elems[i])
                == spec_encode_array(
                types,
                sym,
                elems[i]->Array_0,
                elems[i]->Array_1,
                ranges.drop_first(),
            ));
        }
        lemma_elems_encode(types, sym, dt, ranges, elems, i + 1, fuel);
        let rest_b = spec_encode_elems(types, sym, elems, ranges, i + 1)->Ok_0;
        assert(suffix == head->Ok_0 + rest_b);
        assert(head->Ok_0.len() == w);
        assert(suffix.len() == (count - i) * w) by (nonlinear_arith)
            requires
                suffix.len() == count * w - i * w,
        ;
        assert(chunk =~= suffix.subrange(0, w));
        assert(chunk =~= head->Ok_0) by {
            assert(suffix.subrange(0, w) =~= head->Ok_0);
        }
        assert(rest_b =~= suffix.subrange(w as int, suffix.len() as int));
        assert(rest_b =~= bytes.subrange((i + 1) * w, bytes.len() as int));
        // Decode this chunk back to the element.
        if ranges.len() <= 1 {
            let elem_dt = spec_lookup_type(
                types,
                spec_type_base_name(dt.name, None)->Ok_0,
            )->Some_0;
            assert(spec_decode_inner(types, sym, elem_dt, chunk, fuel) == Ok::<_, AdsError>(
                elems[i],
            ));
        } else {
            assert(spec_decode_array(types, sym, dt, ranges.drop_first(), chunk, fuel) == Ok::<
                _,
                AdsError,
            >(elems[i]));
        }
        // And the rest by induction.
        lemma_elems_decode(types, sym, dt, ranges, elems, bytes, i + 1, fuel);
        assert(seq![elems[i]] + elems.subrange(i + 1, count) =~= elems.subrange(i, count));
    }
}


/// No byte of the UTF-8 encoding of a non-zero scalar is zero.
proof fn lemma_encode_scalar_no_zero(c: u32)
    requires
        c != 0,
    ensures
        forall|k: int| 0 <= k < encode_scalar(c).len() ==> encode_scalar(c)[k] != 0,
{
    if vstd::utf8::has_width_1_encoding(c) {
        assert((c & 0x7F) as u8 != 0) by (bit_vector)
            requires
                c < 0x80 && c != 0,
        ;
    } else if vstd::utf8::has_width_2_encoding(c) {
        assert((0xC0 | ((c >> 6) & 0x1F) as u8) != 0) by (bit_vector);
        assert((0x80 | (c & 0x3F) as u8) != 0) by (bit_vector);
    } else if vstd::utf8::has_width_3_encoding(c) {
        assert((0xE0 | ((c >> 12) & 0x0F) as u8) != 0) by (bit_vector);
        assert((0x80 | ((c >> 6) & 0x3F) as u8) != 0) by (bit_vector);
        assert((0x80 | (c & 0x3F) as u8) != 0) by (bit_vector);
    } else {
        assert((0xF0 | ((c >> 18) & 0x7) as u8) != 0) by (bit_vector);
        assert((0x80 | ((c >> 12) & 0x3F) as u8) != 0) by (bit_vector);
        assert((0x80 | ((c >> 6) & 0x3F) as u8) != 0) by (bit_vector);
        assert((0x80 | (c & 0x3F) as u8) != 0) by (bit_vector);
    }
}

/// The UTF-8 encoding of text without a NUL character has no zero byte.
proof fn lemma_encode_utf8_no_zero(s: Seq<char>)
    requires
        forall|i: int| 0 <= i < s.len() ==> (#[trigger] s[i]) != '\0',
    ensures
        forall|k: int| 0 <= k < encode_utf8(s).len() ==> (#[trigger] encode_utf8(s)[k]) != 0,
    decreases s.len(),
{
    if s.len() > 0 {
        assert(s[0] != '\0');
        assert(s[0] as u32 != 0) by {
            vstd::utf8::char_u32_cast(s[0], s[0] as u32);
        }
        lemma_encode_scalar_no_zero(s[0] as u32);
        lemma_encode_utf8_no_zero(s.drop_first());
        assert(forall|i: int|
            0 <= i < s.drop_first().len() ==> (#[trigger] s.drop_first()[i]) == s[i + 1]);
        let head = encode_scalar(s[0] as u32);
        let rest = encode_utf8(s.drop_first());
        assert(encode_utf8(s) == head + rest);
        assert forall|k: int| 0 <= k < encode_utf8(s).len() implies (#[trigger] encode_utf8(s)[k])
            != 0 by {
            if k < head.len() {
                assert(encode_utf8(s)[k] == head[k]);
            } else {
                assert(encode_utf8(s)[k] == rest[k - head.len()]);
            }
        }
    }
}

/// Appending a terminator to zero-free bytes puts the first zero exactly
/// at the end.
proof fn lemma_first_zero_at_end(b: Seq<u8>)
    requires
        forall|k: int| 0 <= k < b.len() ==> (#[trigger] b[k]) != 0,
    ensures
        spec_first_zero(b + seq![0u8]) == Some(b.len() as int),
    decreases b.len(),
{
    let whole = b + seq![0u8];
    if b.len() == 0 {
        assert(whole =~= seq![0u8]);
    } else {
        assert(whole[0] == b[0]);
        assert(whole.drop_first() =~= b.drop_first() + seq![0u8]);
        assert(forall|k: int|
            0 <= k < b.drop_first().len() ==> (#[trigger] b.drop_first()[k]) == b[k + 1]);
        lemma_first_zero_at_end(b.drop_first());
    }
}

/// Text without a NUL character decodes from exactly the bytes it
/// encodes to: UTF-8 plus a terminator scans back to the same text.
pub proof fn lemma_text_round_trip(s: Seq<char>)
    requires
        forall|i: int| 0 <= i < s.len() ==> (#[trigger] s[i]) != '\0',
    ensures
        spec_decode_scalar(30, spec_c_bytes(s)) == Ok::<_, AdsError>(Val::Text(s)),
{
    let encoded = encode_utf8(s);
    let whole = spec_c_bytes(s);
    lemma_encode_utf8_no_zero(s);
    lemma_first_zero_at_end(encoded);
    assert(whole.take(encoded.len() as int) =~= encoded);
    encode_utf8_valid_utf8(s);
    encode_utf8_decode_utf8(s);
    assert(spec_c_string(whole) == Some(s));
}

/// The whole round trip for one resolved symbol and type: a full
/// fixed-width value, or NUL-free text for the string tag, encodes to
/// bytes that decode back to the same value.
pub proof fn lemma_round_trip(types: Seq<DataTypeV>, sym: SymbolV, dt: DataTypeV, v: Val)
    requires
        sym.data_type_id != 65,
        dt.array_ranges.len() > 0 ==> spec_lookup_type(
            types,
            spec_type_base_name(dt.name, None)->Ok_0,
        ) is Some,
        full_array_shape(dt.array_ranges, v, sym.data_type_id) || (dt.array_ranges.len() == 0
            && sym.data_type_id == 30 && (v matches Val::Text(_)) && (forall|i: int|
            0 <= i < v->Text_0.len() ==> (#[trigger] v->Text_0[i]) != '\0')),
    ensures
        crate::codec::spec_encode_full(types, sym, dt, v) matches Ok(b)
            && crate::codec::spec_decode_full(types, sym, dt, b) == Ok::<_, AdsError>(v),
{
    if full_array_shape(dt.array_ranges, v, sym.data_type_id) {
        lemma_array_round_trip(
            types,
            sym,
            dt,
            dt.array_ranges,
            v,
            crate::codec::decode_fuel(types),
        );
    } else {
        lemma_text_round_trip(v->Text_0);
    }
}

/// Two paths that agree on their raw first segment, on every later
/// segment once accessors are stripped, and on their trailing accessor
/// count resolve to the same symbol and data type: bracket-per-dimension
/// and comma-combined accessor notation cannot be told apart.
pub proof fn lemma_accessor_notation_equivalent(
    symbols: Seq<SymbolV>,
    types: Seq<DataTypeV>,
    a: Seq<char>,
    b: Seq<char>,
)
    requires
        crate::text::spec_split(a, '.').len() == crate::text::spec_split(b, '.').len(),
        crate::text::spec_split(a, '.')[0] == crate::text::spec_split(b, '.')[0],
        forall|i: int|
            1 <= i < crate::text::spec_split(a, '.').len()
                ==> crate::array::spec_trim_accessors(
                #[trigger] crate::text::spec_split(a, '.')[i],
            ) == crate::array::spec_trim_accessors(crate::text::spec_split(b, '.')[i]),
        crate::array::spec_count_accessors(a) == crate::array::spec_count_accessors(b),
    ensures
        crate::resolve::spec_resolve(symbols, types, a) == crate::resolve::spec_resolve(
            symbols,
            types,
            b,
        ),
{
    let ta = crate::text::spec_split(a, '.');
    let tb = crate::text::spec_split(b, '.');
    assert(crate::resolve::spec_get_symbol(symbols, types, a)
        == crate::resolve::spec_get_symbol(symbols, types, b)) by {
        if ta.len() != 1 {
            assert(crate::array::spec_trim_accessors(ta[1])
                == crate::array::spec_trim_accessors(tb[1]));
        }
        match crate::resolve::spec_lookup_symbol(
            symbols,
            if ta.len() == 1 {
                ta[0]
            } else {
                ta[0] + seq!['.'] + crate::array::spec_trim_accessors(ta[1])
            },
        ) {
            None => {},
            Some(sym) => {
                lemma_walk_depends_on_trimmed(types, sym, ta, tb, 2);
            },
        }
    }
}

/// The field walk reads each segment only through its trimmed form.
proof fn lemma_walk_depends_on_trimmed(
    types: Seq<DataTypeV>,
    current: SymbolV,
    ta: Seq<Seq<char>>,
    tb: Seq<Seq<char>>,
    i: int,
)
    requires
        1 <= i,
        ta.len() == tb.len(),
        forall|k: int|
            1 <= k < ta.len() ==> crate::array::spec_trim_accessors(#[trigger] ta[k])
                == crate::array::spec_trim_accessors(tb[k]),
    ensures
        crate::resolve::spec_walk_fields(types, current, ta, i) == crate::resolve::spec_walk_fields(
            types,
            current,
            tb,
            i,
        ),
    decreases ta.len() - i,
{
    if i < ta.len() {
        match crate::resolve::spec_lookup_type(
            types,
            spec_type_base_name(current.data_type_name, None)->Ok_0,
        ) {
            None => {},
            Some(parent) => {
                match crate::resolve::spec_find_field(
                    parent.fields,
                    crate::array::spec_trim_accessors(ta[i]),
                ) {
                    None => {},
                    Some(field) => {
                        lemma_walk_depends_on_trimmed(types, field, ta, tb, i + 1);
                    },
                }
            },
        }
    }
}

/// One symbol's contribution to a flattening: a matching symbol
/// contributes its bare name as a single entry; any other symbol
/// contributes exactly the leaf paths found under its data type.
pub proof fn lemma_flatten_per_symbol(
    symbols: Seq<SymbolV>,
    types: Seq<DataTypeV>,
    filter_name: Option<Seq<char>>,
    i: int,
    fuel: nat,
)
    requires
        0 <= i < symbols.len(),
    ensures
        crate::filters::spec_flatten_from(symbols, types, filter_name, i, fuel)
            == crate::filters::spec_flatten_head(symbols[i], types, filter_name, fuel)
            + crate::filters::spec_flatten_from(symbols, types, filter_name, i + 1, fuel),
        crate::filters::spec_leaf_matches(filter_name, symbols[i])
            ==> crate::filters::spec_flatten_head(symbols[i], types, filter_name, fuel) == seq![
            symbols[i].name,
        ],
{
}

/// A symbol the filter selects appears in the flattening output by its
/// own bare name.
pub proof fn lemma_flatten_contains_matching(
    symbols: Seq<SymbolV>,
    types: Seq<DataTypeV>,
    filter_name: Option<Seq<char>>,
    i: int,
    fuel: nat,
)
    requires
        0 <= i < symbols.len(),
        crate::filters::spec_leaf_matches(filter_name, symbols[i]),
    ensures
        crate::filters::spec_flatten_from(symbols, types, filter_name, 0, fuel).contains(
            symbols[i].name,
        ),
{
    lemma_flatten_prefix_contains(symbols, types, filter_name, 0, i, fuel);
}

/// Everything contributed at or after `j` stays in the output from `j`.
proof fn lemma_flatten_prefix_contains(
    symbols: Seq<SymbolV>,
    types: Seq<DataTypeV>,
    filter_name: Option<Seq<char>>,
    j: int,
    i: int,
    fuel: nat,
)
    requires
        0 <= j <= i < symbols.len(),
        crate::filters::spec_leaf_matches(filter_name, symbols[i]),
    ensures
        crate::filters::spec_flatten_from(symbols, types, filter_name, j, fuel).contains(
            symbols[i].name,
        ),
    decreases i - j,
{
    let whole = crate::filters::spec_flatten_from(symbols, types, filter_name, j, fuel);
    let head = crate::filters::spec_flatten_head(symbols[j], types, filter_name, fuel);
    let rest = crate::filters::spec_flatten_from(symbols, types, filter_name, j + 1, fuel);
    if j == i {
        assert(whole[0] == symbols[i].name);
        assert(whole.contains(symbols[i].name));
    } else {
        lemma_flatten_prefix_contains(symbols, types, filter_name, j + 1, i, fuel);
        let k = choose|k: int| 0 <= k < rest.len() && rest[k] == symbols[i].name;
        assert(whole[head.len() + k] == symbols[i].name);
        assert(whole.contains(symbols[i].name));
    }
}


/// The byte offset where field `k` of a contiguous struct layout
/// starts: the sizes of all fields before it.
pub open spec fn spec_prefix_size(types: Seq<DataTypeV>, fs: Seq<SymbolV>, k: int) -> int
    decreases k,
{
    if k <= 0 {
        0
    } else {
        spec_prefix_size(types, fs, k - 1) + spec_lookup_type(
            types,
            fs[k - 1].data_type_name,
        )->Some_0.size_bytes
    }
}

/// The concatenated encodings of the first `k` provided field values.
pub open spec fn spec_field_cat(
    types: Seq<DataTypeV>,
    fs: Seq<SymbolV>,
    fields: Seq<(Seq<char>, Val)>,
    k: int,
) -> Seq<u8>
    decreases k,
{
    if k <= 0 {
        Seq::empty()
    } else {
        spec_field_cat(types, fs, fields, k - 1) + spec_encode_value(
            types,
            fs[k - 1],
            spec_lookup_type(types, fs[k - 1].data_type_name)->Some_0.array_ranges,
            fields[k - 1].1,
        )->Ok_0
    }
}

/// A gap-free struct in declaration order: the provided fields name the
/// declared fields one for one; no declared field is skipped or padded;
/// every field type resolves, sized exactly as its value encodes; and
/// the declared offsets pack the fields back to back over the whole
/// declared size.
pub open spec fn packed_struct(
    types: Seq<DataTypeV>,
    sdt: DataTypeV,
    fields: Seq<(Seq<char>, Val)>,
    fuel: nat,
) -> bool {
    &&& fields.len() == sdt.fields.len()
    &&& spec_names_unique(fields)
    &&& fuel >= 1
    &&& forall|k: int|
        0 <= k < fields.len() ==> (#[trigger] fields[k]).0 == sdt.fields[k].name
    &&& forall|k: int|
        0 <= k < fields.len() ==> crate::text::spec_trim(
            (#[trigger] sdt.fields[k]).data_type_name,
        ) == sdt.fields[k].data_type_name
    &&& forall|k: int|
        0 <= k < fields.len() ==> !crate::codec::spec_field_skipped(
            (#[trigger] sdt.fields[k]).data_type_name,
        )
    &&& forall|k: int|
        0 <= k < fields.len() ==> spec_lookup_type(
            types,
            (#[trigger] sdt.fields[k]).data_type_name,
        ) is Some
    &&& forall|k: int|
        0 <= k < fields.len() ==> (#[trigger] sdt.fields[k]).offset == spec_prefix_size(
            types,
            sdt.fields,
            k,
        )
    &&& forall|k: int|
        0 <= k < fields.len() ==> ({
            let fdt = spec_lookup_type(types, (#[trigger] sdt.fields[k]).data_type_name)->Some_0;
            let enc = spec_encode_value(types, sdt.fields[k], fdt.array_ranges, fields[k].1);
            &&& enc is Ok
            &&& enc->Ok_0.len() == fdt.size_bytes
            &&& crate::codec::spec_decode(
                types,
                sdt.fields[k],
                fdt,
                enc->Ok_0,
                (fuel - 1) as nat,
            ) == Ok::<_, AdsError>(fields[k].1)
        })
    &&& spec_prefix_size(types, sdt.fields, sdt.fields.len() as int) == sdt.size_bytes
}

/// Field sizes are non-negative, so prefix offsets never decrease.
proof fn lemma_prefix_size_mono(types: Seq<DataTypeV>, sdt: DataTypeV, n: int, a: int, b: int)
    requires
        0 <= a <= b <= n <= sdt.fields.len(),
        forall|k: int|
            0 <= k < sdt.fields.len() ==> spec_lookup_type(
                types,
                (#[trigger] sdt.fields[k]).data_type_name,
            ) is Some,
        forall|k: int|
            0 <= k < sdt.fields.len() ==> spec_lookup_type(
                types,
                (#[trigger] sdt.fields[k]).data_type_name,
            )->Some_0.size_bytes >= 0,
    ensures
        spec_prefix_size(types, sdt.fields, a) <= spec_prefix_size(types, sdt.fields, b),
    decreases b - a,
{
    if a < b {
        lemma_prefix_size_mono(types, sdt, n, a, b - 1);
    }
}

/// The concatenation of the first `k` encodings is exactly
/// `prefix_size(k)` bytes long.
proof fn lemma_field_cat_len(
    types: Seq<DataTypeV>,
    sdt: DataTypeV,
    fields: Seq<(Seq<char>, Val)>,
    fuel: nat,
    k: int,
)
    requires
        packed_struct(types, sdt, fields, fuel),
        0 <= k <= fields.len(),
    ensures
        spec_field_cat(types, sdt.fields, fields, k).len() == spec_prefix_size(
            types,
            sdt.fields,
            k,
        ),
    decreases k,
{
    if k > 0 {
        lemma_field_cat_len(types, sdt, fields, fuel, k - 1);
    }
}

/// Placing the packed fields one after another fills the struct buffer
/// with the concatenation of their encodings and leaves no hole.
proof fn lemma_packed_encode(
    types: Seq<DataTypeV>,
    sym: SymbolV,
    sdt: DataTypeV,
    fields: Seq<(Seq<char>, Val)>,
    fuel: nat,
    k: int,
)
    requires
        packed_struct(types, sdt, fields, fuel),
        spec_lookup_type(types, sym.data_type_name) == Some(sdt),
        0 <= k <= fields.len(),
    ensures
        ({
            let acc_k = Seq::new(
                sdt.size_bytes as nat,
                |j: int|
                    if j < spec_prefix_size(types, sdt.fields, k) {
                        Some(spec_field_cat(types, sdt.fields, fields, k)[j])
                    } else {
                        None
                    },
            );
            spec_encode_struct_fields(types, sdt, fields, k, acc_k) matches Ok(done)
                && done == Seq::new(
                sdt.size_bytes as nat,
                |j: int| Some(spec_field_cat(types, sdt.fields, fields, fields.len() as int)[j]),
            )
        }),
    decreases fields.len() - k,
{
    lemma_field_cat_len(types, sdt, fields, fuel, k);
    lemma_field_cat_len(types, sdt, fields, fuel, fields.len() as int);
    assert(forall|j: int|
        0 <= j < sdt.fields.len() ==> spec_lookup_type(
            types,
            (#[trigger] sdt.fields[j]).data_type_name,
        )->Some_0.size_bytes >= 0) by {
        assert forall|j: int| 0 <= j < sdt.fields.len() implies spec_lookup_type(
            types,
            (#[trigger] sdt.fields[j]).data_type_name,
        )->Some_0.size_bytes >= 0 by {
            let fdt = spec_lookup_type(types, sdt.fields[j].data_type_name)->Some_0;
            assert(spec_encode_value(types, sdt.fields[j], fdt.array_ranges, fields[j].1)->Ok_0.len()
                == fdt.size_bytes);
        }
    }
    let acc_k = Seq::new(
        sdt.size_bytes as nat,
        |j: int|
            if j < spec_prefix_size(types, sdt.fields, k) {
                Some(spec_field_cat(types, sdt.fields, fields, k)[j])
            } else {
                None
            },
    );
    if k == fields.len() {
        lemma_prefix_size_mono(types, sdt, fields.len() as int, k, fields.len() as int);
        assert(acc_k =~= Seq::new(
            sdt.size_bytes as nat,
            |j: int| Some(spec_field_cat(types, sdt.fields, fields, fields.len() as int)[j]),
        ));
    } else {
        let fsym = sdt.fields[k];
        let fdt = spec_lookup_type(types, fsym.data_type_name)->Some_0;
        let enc = spec_encode_value(types, fsym, fdt.array_ranges, fields[k].1)->Ok_0;
        let off = spec_prefix_size(types, sdt.fields, k);
        lemma_find_field_unique(sdt.fields, fields, k);
        assert(crate::resolve::spec_find_field(sdt.fields, fields[k].0) == Some(fsym));
        lemma_prefix_size_mono(types, sdt, fields.len() as int, k + 1, fields.len() as int);
        assert(off + enc.len() == spec_prefix_size(types, sdt.fields, k + 1));
        assert(off + enc.len() <= sdt.size_bytes);
        assert(forall|j: int| off <= j < off + enc.len() ==> !((#[trigger] acc_k[j]) is Some));
        let placed = Seq::new(
            acc_k.len(),
            |j: int|
                if fsym.offset <= j < fsym.offset + enc.len() {
                    Some(enc[j - fsym.offset])
                } else {
                    acc_k[j]
                },
        );
        lemma_packed_encode(types, sym, sdt, fields, fuel, k + 1);
        let acc_k1 = Seq::new(
            sdt.size_bytes as nat,
            |j: int|
                if j < spec_prefix_size(types, sdt.fields, k + 1) {
                    Some(spec_field_cat(types, sdt.fields, fields, k + 1)[j])
                } else {
                    None
                },
        );
        assert(placed =~= acc_k1) by {
            assert(spec_field_cat(types, sdt.fields, fields, k + 1) == spec_field_cat(
                types,
                sdt.fields,
                fields,
                k,
            ) + enc);
            assert forall|j: int| 0 <= j < placed.len() implies placed[j] == acc_k1[j] by {
                if off <= j < off + enc.len() {
                    assert(spec_field_cat(types, sdt.fields, fields, k + 1)[j] == enc[j - off]);
                } else if j < off {
                    assert(spec_field_cat(types, sdt.fields, fields, k + 1)[j] == spec_field_cat(
                        types,
                        sdt.fields,
                        fields,
                        k,
                    )[j]);
                }
            }
        }
    }
}

/// Among fields with pairwise distinct provided names that mirror the
/// declared names, the field search lands on position `k` exactly.
proof fn lemma_find_field_unique(
    fs: Seq<SymbolV>,
    fields: Seq<(Seq<char>, Val)>,
    k: int,
)
    requires
        fields.len() == fs.len(),
        spec_names_unique(fields),
        forall|j: int| 0 <= j < fields.len() ==> (#[trigger] fields[j]).0 == fs[j].name,
        0 <= k < fs.len(),
    ensures
        crate::resolve::spec_find_field(fs, fields[k].0) == Some(fs[k]),
{
    lemma_find_field_from(fs, fields, k, 0);
    assert(fs.skip(0) =~= fs);
}

/// The search scans forward past the earlier, differently-named fields.
proof fn lemma_find_field_from(
    fs: Seq<SymbolV>,
    fields: Seq<(Seq<char>, Val)>,
    k: int,
    j: int,
)
    requires
        fields.len() == fs.len(),
        spec_names_unique(fields),
        forall|m: int| 0 <= m < fields.len() ==> (#[trigger] fields[m]).0 == fs[m].name,
        0 <= j <= k < fs.len(),
    ensures
        crate::resolve::spec_find_field(fs.skip(j), fields[k].0) == Some(fs[k]),
    decreases k - j,
{
    assert(fs.skip(j)[0] == fs[j]);
    assert(fs.skip(j).drop_first() =~= fs.skip(j + 1));
    if j == k {
    } else {
        assert(fields[j].0 != fields[k].0);
        lemma_find_field_from(fs, fields, k, j + 1);
    }
}


/// Within the full concatenation, field `k`'s encoding sits exactly at
/// its declared offset.
proof fn lemma_cat_slice(
    types: Seq<DataTypeV>,
    sdt: DataTypeV,
    fields: Seq<(Seq<char>, Val)>,
    fuel: nat,
    k: int,
    m: int,
)
    requires
        packed_struct(types, sdt, fields, fuel),
        0 <= k < m <= fields.len(),
    ensures
        ({
            let fdt = spec_lookup_type(types, sdt.fields[k].data_type_name)->Some_0;
            spec_field_cat(types, sdt.fields, fields, m).subrange(
                spec_prefix_size(types, sdt.fields, k),
                spec_prefix_size(types, sdt.fields, k + 1),
            ) == spec_encode_value(types, sdt.fields[k], fdt.array_ranges, fields[k].1)->Ok_0
        }),
    decreases m,
{
    let fdt = spec_lookup_type(types, sdt.fields[k].data_type_name)->Some_0;
    let enc = spec_encode_value(types, sdt.fields[k], fdt.array_ranges, fields[k].1)->Ok_0;
    lemma_field_cat_len(types, sdt, fields, fuel, k);
    lemma_field_cat_len(types, sdt, fields, fuel, m);
    assert(forall|j: int|
        0 <= j < sdt.fields.len() ==> spec_lookup_type(
            types,
            (#[trigger] sdt.fields[j]).data_type_name,
        )->Some_0.size_bytes >= 0) by {
        assert forall|j: int| 0 <= j < sdt.fields.len() implies spec_lookup_type(
            types,
            (#[trigger] sdt.fields[j]).data_type_name,
        )->Some_0.size_bytes >= 0 by {
            let fdtj = spec_lookup_type(types, sdt.fields[j].data_type_name)->Some_0;
            assert(spec_encode_value(
                types,
                sdt.fields[j],
                fdtj.array_ranges,
                fields[j].1,
            )->Ok_0.len() == fdtj.size_bytes);
        }
    }
    if m == k + 1 {
        lemma_field_cat_len(types, sdt, fields, fuel, k);
        assert(spec_field_cat(types, sdt.fields, fields, m) == spec_field_cat(
            types,
            sdt.fields,
            fields,
            k,
        ) + enc);
        assert(spec_field_cat(types, sdt.fields, fields, m).subrange(
            spec_prefix_size(types, sdt.fields, k),
            spec_prefix_size(types, sdt.fields, k + 1),
        ) =~= enc);
    } else {
        lemma_cat_slice(types, sdt, fields, fuel, k, m - 1);
        lemma_field_cat_len(types, sdt, fields, fuel, m - 1);
        lemma_prefix_size_mono(types, sdt, fields.len() as int, k + 1, m - 1);
        assert(spec_field_cat(types, sdt.fields, fields, m) == spec_field_cat(
            types,
            sdt.fields,
            fields,
            m - 1,
        ) + spec_encode_value(
            types,
            sdt.fields[m - 1],
            spec_lookup_type(types, sdt.fields[m - 1].data_type_name)->Some_0.array_ranges,
            fields[m - 1].1,
        )->Ok_0);
        assert(spec_field_cat(types, sdt.fields, fields, m).subrange(
            spec_prefix_size(types, sdt.fields, k),
            spec_prefix_size(types, sdt.fields, k + 1),
        ) =~= spec_field_cat(types, sdt.fields, fields, m - 1).subrange(
            spec_prefix_size(types, sdt.fields, k),
            spec_prefix_size(types, sdt.fields, k + 1),
        ));
    }
}

/// Decoding the packed buffer yields the provided fields back, name by
/// name in declaration order.
proof fn lemma_packed_decode(
    types: Seq<DataTypeV>,
    sdt: DataTypeV,
    fields: Seq<(Seq<char>, Val)>,
    fuel: nat,
    k: int,
)
    requires
        packed_struct(types, sdt, fields, fuel),
        0 <= k <= fields.len(),
    ensures
        crate::codec::spec_decode_fields(
            types,
            sdt.fields,
            spec_field_cat(types, sdt.fields, fields, fields.len() as int),
            k,
            fuel,
        ) == Ok::<_, AdsError>(fields.subrange(k, fields.len() as int)),
    decreases fields.len() - k,
{
    let b = spec_field_cat(types, sdt.fields, fields, fields.len() as int);
    lemma_field_cat_len(types, sdt, fields, fuel, fields.len() as int);
    assert(forall|j: int|
        0 <= j < sdt.fields.len() ==> spec_lookup_type(
            types,
            (#[trigger] sdt.fields[j]).data_type_name,
        )->Some_0.size_bytes >= 0) by {
        assert forall|j: int| 0 <= j < sdt.fields.len() implies spec_lookup_type(
            types,
            (#[trigger] sdt.fields[j]).data_type_name,
        )->Some_0.size_bytes >= 0 by {
            let fdtj = spec_lookup_type(types, sdt.fields[j].data_type_name)->Some_0;
            assert(spec_encode_value(
                types,
                sdt.fields[j],
                fdtj.array_ranges,
                fields[j].1,
            )->Ok_0.len() == fdtj.size_bytes);
        }
    }
    if k == fields.len() {
        assert(fields.subrange(k, fields.len() as int) =~= Seq::<(Seq<char>, Val)>::empty());
    } else {
        let fsym = sdt.fields[k];
        let fdt = spec_lookup_type(types, fsym.data_type_name)->Some_0;
        let enc = spec_encode_value(types, fsym, fdt.array_ranges, fields[k].1)->Ok_0;
        lemma_prefix_size_mono(types, sdt, fields.len() as int, 0, k);
        lemma_prefix_size_mono(types, sdt, fields.len() as int, k + 1, fields.len() as int);
        assert(fsym.offset + fdt.size_bytes == spec_prefix_size(types, sdt.fields, k + 1));
        lemma_cat_slice(types, sdt, fields, fuel, k, fields.len() as int);
        assert(b.subrange(fsym.offset, fsym.offset + fdt.size_bytes) == enc);
        assert(crate::codec::spec_decode(types, fsym, fdt, enc, (fuel - 1) as nat) == Ok::<
            _,
            AdsError,
        >(fields[k].1));
        lemma_packed_decode(types, sdt, fields, fuel, k + 1);
        assert(seq![(fsym.name, fields[k].1)] + fields.subrange(k + 1, fields.len() as int)
            =~= fields.subrange(k, fields.len() as int));
    }
}

/// The round trip for a gap-free struct written in declaration order:
/// it encodes to the struct's exact byte image, and decoding that image
/// yields the same fields back.
pub proof fn lemma_struct_round_trip(
    types: Seq<DataTypeV>,
    sym: SymbolV,
    sdt: DataTypeV,
    fields: Seq<(Seq<char>, Val)>,
)
    requires
        sym.data_type_id == 65,
        sdt.array_ranges.len() == 0,
        spec_lookup_type(types, sym.data_type_name) == Some(sdt),
        packed_struct(types, sdt, fields, crate::codec::decode_fuel(types)),
    ensures
        crate::codec::spec_encode_full(types, sym, sdt, Val::Struct(fields)) matches Ok(b)
            && crate::codec::spec_decode_full(types, sym, sdt, b) == Ok::<_, AdsError>(
            Val::Struct(fields),
        ),
{
    let fuel = crate::codec::decode_fuel(types);
    let n = fields.len() as int;
    let b = spec_field_cat(types, sdt.fields, fields, n);
    lemma_field_cat_len(types, sdt, fields, fuel, n);
    // Encoding: start from the all-empty buffer and pack every field.
    let init = Seq::new(sdt.size_bytes as nat, |j: int| None::<u8>);
    let acc_0 = Seq::new(
        sdt.size_bytes as nat,
        |j: int|
            if j < spec_prefix_size(types, sdt.fields, 0) {
                Some(spec_field_cat(types, sdt.fields, fields, 0)[j])
            } else {
                None
            },
    );
    assert(init =~= acc_0);
    lemma_packed_encode(types, sym, sdt, fields, fuel, 0);
    let done = spec_encode_struct_fields(types, sdt, fields, 0, init)->Ok_0;
    assert(!(exists|j: int| 0 <= j < done.len() && done[j] is None));
    assert(Seq::new(done.len(), |j: int| done[j]->Some_0) =~= b);
    assert(crate::codec::spec_encode_struct(types, sym, fields) == Ok::<_, AdsError>(b));
    // Decoding: read every declared field back at its offset.
    lemma_packed_decode(types, sdt, fields, fuel, 0);
    assert(fields.subrange(0, n) =~= fields);
}


/// The write bounds of one array dimension: an explicit start index
/// other than the declared lower bound, or more elements than the
/// dimension declares, is refused outright; fewer elements — a prefix
/// write — passes this dimension's checks.
pub proof fn lemma_array_write_bounds(
    types: Seq<DataTypeV>,
    sym: SymbolV,
    si: StartIndex,
    content: Seq<Val>,
    ranges: Seq<(i32, i32)>,
)
    requires
        ranges.len() >= 1,
    ensures
        (si matches StartIndex::At(i) && i != ranges[0].0) ==> spec_encode_array(
            types,
            sym,
            si,
            content,
            ranges,
        ) == Err::<Seq<u8>, AdsError>(AdsError::InvalidArgument),
        ((si matches StartIndex::Start || si == StartIndex::At(ranges[0].0)) && content.len() > 1
            + ranges[0].1 - ranges[0].0) ==> spec_encode_array(types, sym, si, content, ranges)
            == Err::<Seq<u8>, AdsError>(AdsError::InvalidArgument),
        spec_encode_array(types, sym, si, content, ranges) is Ok ==> content.len() <= 1
            + ranges[0].1 - ranges[0].0,
{
}

/// A struct value with a duplicated field name never encodes.
pub proof fn lemma_struct_duplicate_refused(
    types: Seq<DataTypeV>,
    sym: SymbolV,
    fields: Seq<(Seq<char>, Val)>,
)
    requires
        !spec_names_unique(fields),
    ensures
        crate::codec::spec_encode_struct(types, sym, fields) == Err::<Seq<u8>, AdsError>(
            AdsError::InvalidArgument,
        ),
{
}

/// A struct value naming a field its declared type does not have never
/// encodes.
pub proof fn lemma_struct_unknown_field_refused(
    types: Seq<DataTypeV>,
    sym: SymbolV,
    fields: Seq<(Seq<char>, Val)>,
    k: int,
)
    requires
        0 <= k < fields.len(),
        spec_lookup_type(types, sym.data_type_name) matches Some(sdt) && crate::resolve::spec_find_field(
            sdt.fields,
            fields[k].0,
        ) is None,
    ensures
        crate::codec::spec_encode_struct(types, sym, fields) is Err,
{
    if spec_names_unique(fields) {
        let sdt = spec_lookup_type(types, sym.data_type_name)->Some_0;
        let init = Seq::new(sdt.size_bytes as nat, |j: int| None::<u8>);
        lemma_struct_fields_stop_at_unknown(types, sdt, fields, 0, k, init);
    }
}

/// Placement can never get past a provided field whose name is not
/// declared.
proof fn lemma_struct_fields_stop_at_unknown(
    types: Seq<DataTypeV>,
    sdt: DataTypeV,
    fields: Seq<(Seq<char>, Val)>,
    i: int,
    k: int,
    acc: Seq<Option<u8>>,
)
    requires
        0 <= i <= k < fields.len(),
        crate::resolve::spec_find_field(sdt.fields, fields[k].0) is None,
    ensures
        spec_encode_struct_fields(types, sdt, fields, i, acc) is Err,
    decreases k - i,
{
    if i < k {
        match crate::resolve::spec_find_field(sdt.fields, fields[i].0) {
            None => {},
            Some(fsym) => {
                match spec_lookup_type(types, fsym.data_type_name) {
                    None => {},
                    Some(fdt) => {
                        match spec_encode_value(types, fsym, fdt.array_ranges, fields[i].1) {
                            Err(_) => {},
                            Ok(b) => {
                                if fsym.offset < 0 || fsym.offset + b.len() > acc.len() {
                                } else if exists|j: int|
                                    fsym.offset <= j < fsym.offset + b.len() && acc[j] is Some {
                                } else {
                                    let placed = Seq::new(
                                        acc.len(),
                                        |j: int|
                                            if fsym.offset <= j < fsym.offset + b.len() {
                                                Some(b[j - fsym.offset])
                                            } else {
                                                acc[j]
                                            },
                                    );
                                    lemma_struct_fields_stop_at_unknown(
                                        types,
                                        sdt,
                                        fields,
                                        i + 1,
                                        k,
                                        placed,
                                    );
                                }
                            },
                        }
                    },
                }
            },
        }
    }
}


/// A prefix write succeeds: supplying up to the declared element count
/// of matching fixed-width scalars encodes, at the declared (or
/// unstated) start index, to the in-order concatenation of the
/// elements' scalar encodings.
pub proof fn lemma_prefix_write_succeeds(
    types: Seq<DataTypeV>,
    sym: SymbolV,
    si: StartIndex,
    content: Seq<Val>,
    ranges: Seq<(i32, i32)>,
)
    requires
        ranges.len() == 1,
        sym.data_type_id != 65,
        (si matches StartIndex::Start) || si == StartIndex::At(ranges[0].0),
        content.len() <= 1 + ranges[0].1 - ranges[0].0,
        forall|k: int|
            0 <= k < content.len() ==> scalar_fits(#[trigger] content[k], sym.data_type_id),
    ensures
        spec_encode_array(types, sym, si, content, ranges) matches Ok(b) && b.len()
            == content.len() * fixed_width(sym.data_type_id)->Some_0 && Ok::<_, AdsError>(b)
            == spec_encode_elems(types, sym, content, ranges, 0),
{
    assert(ranges.drop_first().len() == 0);
    assert(forall|k: int|
        0 <= k < content.len() ==> full_array_shape(
            ranges.drop_first(),
            #[trigger] content[k],
            sym.data_type_id,
        ));
    lemma_elems_encode(
        types,
        sym,
        vstd::pervasive::arbitrary(),
        ranges,
        content,
        0,
        0,
    );
}

/// A field the filter selects is emitted whole: its contribution to the
/// flattening is the single terminal fragment carrying its name, the
/// scan moves on to the next field without descending, and expanding
/// that fragment appends `.name` to every start string with no index
/// expansion of the field's own array ranges.
pub proof fn lemma_matching_field_is_terminal(
    types: Seq<DataTypeV>,
    filter_name: Option<Seq<char>>,
    fields: Seq<SymbolV>,
    i: int,
    fuel: nat,
    starts: Seq<Seq<char>>,
)
    requires
        0 <= i < fields.len(),
        crate::filters::spec_leaf_matches(filter_name, fields[i]),
    ensures
        crate::filters::spec_recurse_fields(types, filter_name, fields, i, fuel) == seq![
            crate::filters::FieldV::End(fields[i].name),
        ] + crate::filters::spec_recurse_fields(types, filter_name, fields, i + 1, fuel),
        crate::filters::spec_to_strings(crate::filters::FieldV::End(fields[i].name), starts)
            == crate::filters::spec_append_segment(starts, fields[i].name),
{
}


/// Whether provided field `k` resolves and its encoded span covers byte
/// position `p` of the struct buffer.
spec fn field_span_covers(
    types: Seq<DataTypeV>,
    sdt: DataTypeV,
    fields: Seq<(Seq<char>, Val)>,
    k: int,
    p: int,
) -> bool {
    let found = crate::resolve::spec_find_field(sdt.fields, fields[k].0);
    &&& found is Some
    &&& spec_lookup_type(types, found->Some_0.data_type_name) is Some
    &&& spec_encode_value(
        types,
        found->Some_0,
        spec_lookup_type(types, found->Some_0.data_type_name)->Some_0.array_ranges,
        fields[k].1,
    ) is Ok
    &&& found->Some_0.offset <= p < found->Some_0.offset + spec_encode_value(
        types,
        found->Some_0,
        spec_lookup_type(types, found->Some_0.data_type_name)->Some_0.array_ranges,
        fields[k].1,
    )->Ok_0.len()
}

/// The byte provided field `k` writes at position `p` of the buffer.
spec fn field_byte_at(
    types: Seq<DataTypeV>,
    sdt: DataTypeV,
    fields: Seq<(Seq<char>, Val)>,
    k: int,
    p: int,
) -> u8 {
    let fsym = crate::resolve::spec_find_field(sdt.fields, fields[k].0)->Some_0;
    spec_encode_value(
        types,
        fsym,
        spec_lookup_type(types, fsym.data_type_name)->Some_0.array_ranges,
        fields[k].1,
    )->Ok_0[p - fsym.offset]
}

/// Placement never touches a byte that is already written: a successful
/// run keeps every written byte, and the buffer length, unchanged.
proof fn lemma_struct_fields_preserve(
    types: Seq<DataTypeV>,
    sdt: DataTypeV,
    fields: Seq<(Seq<char>, Val)>,
    i: int,
    acc: Seq<Option<u8>>,
)
    requires
        spec_encode_struct_fields(types, sdt, fields, i, acc) is Ok,
    ensures
        spec_encode_struct_fields(types, sdt, fields, i, acc)->Ok_0.len() == acc.len(),
        forall|p: int|
            0 <= p < acc.len() && acc[p] is Some ==> spec_encode_struct_fields(
                types,
                sdt,
                fields,
                i,
                acc,
            )->Ok_0[p] == acc[p],
    decreases fields.len() - i,
{
    if 0 <= i < fields.len() {
        let fsym = crate::resolve::spec_find_field(sdt.fields, fields[i].0)->Some_0;
        let fdt = spec_lookup_type(types, fsym.data_type_name)->Some_0;
        let enc = spec_encode_value(types, fsym, fdt.array_ranges, fields[i].1)->Ok_0;
        let placed = Seq::new(
            acc.len(),
            |j: int|
                if fsym.offset <= j < fsym.offset + enc.len() {
                    Some(enc[j - fsym.offset])
                } else {
                    acc[j]
                },
        );
        assert(crate::resolve::spec_find_field(sdt.fields, fields[i].0) is Some);
        assert(spec_lookup_type(types, fsym.data_type_name) is Some);
        assert(spec_encode_value(types, fsym, fdt.array_ranges, fields[i].1) is Ok);
        assert(!(fsym.offset < 0 || fsym.offset + enc.len() > acc.len()));
        assert(!(exists|j: int|
            fsym.offset <= j < fsym.offset + enc.len() && acc[j] is Some));
        assert(spec_encode_struct_fields(types, sdt, fields, i, acc)
            == spec_encode_struct_fields(types, sdt, fields, i + 1, placed));
        lemma_struct_fields_preserve(types, sdt, fields, i + 1, placed);
        assert forall|p: int|
            0 <= p < acc.len() && acc[p] is Some implies spec_encode_struct_fields(
            types,
            sdt,
            fields,
            i,
            acc,
        )->Ok_0[p] == acc[p] by {
            assert(!(fsym.offset <= p < fsym.offset + enc.len()));
            assert(placed[p] == acc[p]);
        }
    }
}

/// In any successful run, every provided field's encoding sits in the
/// result at the field's declared offset.
proof fn lemma_struct_fields_characterize(
    types: Seq<DataTypeV>,
    sdt: DataTypeV,
    fields: Seq<(Seq<char>, Val)>,
    i: int,
    acc: Seq<Option<u8>>,
    k: int,
)
    requires
        spec_encode_struct_fields(types, sdt, fields, i, acc) is Ok,
        0 <= i <= k < fields.len(),
    ensures
        ({
            let found = crate::resolve::spec_find_field(sdt.fields, fields[k].0);
            let done = spec_encode_struct_fields(types, sdt, fields, i, acc)->Ok_0;
            &&& found is Some
            &&& spec_lookup_type(types, found->Some_0.data_type_name) is Some
            &&& spec_encode_value(
                types,
                found->Some_0,
                spec_lookup_type(types, found->Some_0.data_type_name)->Some_0.array_ranges,
                fields[k].1,
            ) is Ok
            &&& 0 <= found->Some_0.offset
            &&& found->Some_0.offset + spec_encode_value(
                types,
                found->Some_0,
                spec_lookup_type(types, found->Some_0.data_type_name)->Some_0.array_ranges,
                fields[k].1,
            )->Ok_0.len() <= acc.len()
            &&& forall|p: int|
                field_span_covers(types, sdt, fields, k, p) ==> #[trigger] done[p] == Some(
                    field_byte_at(types, sdt, fields, k, p),
                )
        }),
    decreases k - i,
{
    let fsym = crate::resolve::spec_find_field(sdt.fields, fields[i].0)->Some_0;
    let fdt = spec_lookup_type(types, fsym.data_type_name)->Some_0;
    let enc = spec_encode_value(types, fsym, fdt.array_ranges, fields[i].1)->Ok_0;
    let placed = Seq::new(
        acc.len(),
        |j: int|
            if fsym.offset <= j < fsym.offset + enc.len() {
                Some(enc[j - fsym.offset])
            } else {
                acc[j]
            },
    );
    assert(crate::resolve::spec_find_field(sdt.fields, fields[i].0) is Some);
    assert(spec_lookup_type(types, fsym.data_type_name) is Some);
    assert(spec_encode_value(types, fsym, fdt.array_ranges, fields[i].1) is Ok);
    assert(!(fsym.offset < 0 || fsym.offset + enc.len() > acc.len()));
    assert(!(exists|j: int|
        fsym.offset <= j < fsym.offset + enc.len() && acc[j] is Some));
    assert(spec_encode_struct_fields(types, sdt, fields, i, acc)
        == spec_encode_struct_fields(types, sdt, fields, i + 1, placed));
    if i == k {
        lemma_struct_fields_preserve(types, sdt, fields, i + 1, placed);
        let done = spec_encode_struct_fields(types, sdt, fields, i, acc)->Ok_0;
        assert forall|p: int| field_span_covers(types, sdt, fields, k, p) implies #[trigger] done[p]
            == Some(field_byte_at(types, sdt, fields, k, p)) by {
            assert(placed[p] == Some(enc[p - fsym.offset]));
            assert(done[p] == placed[p]);
        }
    } else {
        lemma_struct_fields_characterize(types, sdt, fields, i + 1, placed, k);
    }
}

/// When a buffer starts all-empty, every written byte of a successful
/// run comes from some provided field's span.
proof fn lemma_struct_fields_written_by_some_field(
    types: Seq<DataTypeV>,
    sdt: DataTypeV,
    fields: Seq<(Seq<char>, Val)>,
    i: int,
    acc: Seq<Option<u8>>,
    p: int,
)
    requires
        spec_encode_struct_fields(types, sdt, fields, i, acc) is Ok,
        0 <= p < acc.len(),
        acc[p] is None,
        spec_encode_struct_fields(types, sdt, fields, i, acc)->Ok_0[p] is Some,
    ensures
        exists|k: int|
            i <= k < fields.len() && #[trigger] field_span_covers(types, sdt, fields, k, p),
    decreases fields.len() - i,
{
    if 0 <= i < fields.len() {
        let fsym = crate::resolve::spec_find_field(sdt.fields, fields[i].0)->Some_0;
        let fdt = spec_lookup_type(types, fsym.data_type_name)->Some_0;
        let enc = spec_encode_value(types, fsym, fdt.array_ranges, fields[i].1)->Ok_0;
        let placed = Seq::new(
            acc.len(),
            |j: int|
                if fsym.offset <= j < fsym.offset + enc.len() {
                    Some(enc[j - fsym.offset])
                } else {
                    acc[j]
                },
        );
        assert(crate::resolve::spec_find_field(sdt.fields, fields[i].0) is Some);
        assert(spec_lookup_type(types, fsym.data_type_name) is Some);
        assert(spec_encode_value(types, fsym, fdt.array_ranges, fields[i].1) is Ok);
        assert(!(fsym.offset < 0 || fsym.offset + enc.len() > acc.len()));
        assert(!(exists|j: int|
            fsym.offset <= j < fsym.offset + enc.len() && acc[j] is Some));
        assert(spec_encode_struct_fields(types, sdt, fields, i, acc)
            == spec_encode_struct_fields(types, sdt, fields, i + 1, placed));
        if fsym.offset <= p < fsym.offset + enc.len() {
            assert(field_span_covers(types, sdt, fields, i, p));
        } else {
            assert(placed[p] is None);
            lemma_struct_fields_written_by_some_field(types, sdt, fields, i + 1, placed, p);
        }
    }
}

/// In any successful struct encoding — whatever order the caller
/// supplied the fields in — the result is the struct's declared size
/// and holds each provided field's own encoding at that field's
/// declared offset.
pub proof fn lemma_struct_bytes_at_offsets(
    types: Seq<DataTypeV>,
    sym: SymbolV,
    fields: Seq<(Seq<char>, Val)>,
    k: int,
)
    requires
        crate::codec::spec_encode_struct(types, sym, fields) is Ok,
        0 <= k < fields.len(),
    ensures
        ({
            let sdt = spec_lookup_type(types, sym.data_type_name)->Some_0;
            let found = crate::resolve::spec_find_field(sdt.fields, fields[k].0);
            let b = crate::codec::spec_encode_struct(types, sym, fields)->Ok_0;
            &&& spec_lookup_type(types, sym.data_type_name) is Some
            &&& found is Some
            &&& spec_lookup_type(types, found->Some_0.data_type_name) is Some
            &&& spec_encode_value(
                types,
                found->Some_0,
                spec_lookup_type(types, found->Some_0.data_type_name)->Some_0.array_ranges,
                fields[k].1,
            ) matches Ok(enc)
            &&& sdt.size_bytes >= 0 ==> b.len() == sdt.size_bytes
            &&& found->Some_0.offset + enc.len() <= b.len()
            &&& b.subrange(found->Some_0.offset, found->Some_0.offset + enc.len()) == enc
        }),
{
    let sdt = spec_lookup_type(types, sym.data_type_name)->Some_0;
    let init = Seq::new(sdt.size_bytes as nat, |j: int| None::<u8>);
    assert(spec_names_unique(fields));
    assert(spec_lookup_type(types, sym.data_type_name) is Some);
    assert(spec_encode_struct_fields(types, sdt, fields, 0, init) is Ok);
    let done = spec_encode_struct_fields(types, sdt, fields, 0, init)->Ok_0;
    assert(!(exists|j: int| 0 <= j < done.len() && done[j] is None));
    assert(crate::codec::spec_encode_struct(types, sym, fields)->Ok_0 == Seq::new(
        done.len(),
        |j: int| done[j]->Some_0,
    ));
    lemma_struct_fields_preserve(types, sdt, fields, 0, init);
    lemma_struct_fields_characterize(types, sdt, fields, 0, init, k);
    let fsym = crate::resolve::spec_find_field(sdt.fields, fields[k].0)->Some_0;
    let fdt = spec_lookup_type(types, fsym.data_type_name)->Some_0;
    let enc = spec_encode_value(types, fsym, fdt.array_ranges, fields[k].1)->Ok_0;
    let b = crate::codec::spec_encode_struct(types, sym, fields)->Ok_0;
    assert forall|j: int| 0 <= j < enc.len() implies b.subrange(
        fsym.offset,
        fsym.offset + enc.len(),
    )[j] == enc[j] by {
        assert(field_span_covers(types, sdt, fields, k, fsym.offset + j));
        assert(done[fsym.offset + j] == Some(field_byte_at(types, sdt, fields, k, fsym.offset + j)));
    }
    assert(b.subrange(fsym.offset, fsym.offset + enc.len()) =~= enc);
}

/// The order the caller lists the fields in does not affect the bytes:
/// two successful encodings whose field lists hold the same name-value
/// pairs produce the same result.
pub proof fn lemma_struct_order_independent(
    types: Seq<DataTypeV>,
    sym: SymbolV,
    fields: Seq<(Seq<char>, Val)>,
    fields2: Seq<(Seq<char>, Val)>,
)
    requires
        crate::codec::spec_encode_struct(types, sym, fields) is Ok,
        crate::codec::spec_encode_struct(types, sym, fields2) is Ok,
        forall|k: int|
            0 <= k < fields.len() ==> exists|j: int|
                0 <= j < fields2.len() && fields2[j] == #[trigger] fields[k],
    ensures
        crate::codec::spec_encode_struct(types, sym, fields) == crate::codec::spec_encode_struct(
            types,
            sym,
            fields2,
        ),
{
    let sdt = spec_lookup_type(types, sym.data_type_name)->Some_0;
    let init = Seq::new(sdt.size_bytes as nat, |j: int| None::<u8>);
    let done1 = spec_encode_struct_fields(types, sdt, fields, 0, init)->Ok_0;
    let done2 = spec_encode_struct_fields(types, sdt, fields2, 0, init)->Ok_0;
    let b1 = crate::codec::spec_encode_struct(types, sym, fields)->Ok_0;
    let b2 = crate::codec::spec_encode_struct(types, sym, fields2)->Ok_0;
    lemma_struct_fields_preserve(types, sdt, fields, 0, init);
    lemma_struct_fields_preserve(types, sdt, fields2, 0, init);
    assert forall|p: int| 0 <= p < b1.len() implies b1[p] == b2[p] by {
        assert(done1[p] is Some);
        lemma_struct_fields_written_by_some_field(types, sdt, fields, 0, init, p);
        let k = choose|k: int|
            0 <= k < fields.len() && #[trigger] field_span_covers(types, sdt, fields, k, p);
        lemma_struct_fields_characterize(types, sdt, fields, 0, init, k);
        let j = choose|j: int| 0 <= j < fields2.len() && fields2[j] == fields[k];
        assert(field_span_covers(types, sdt, fields2, j, p));
        lemma_struct_fields_characterize(types, sdt, fields2, 0, init, j);
        assert(done1[p] == Some(field_byte_at(types, sdt, fields, k, p)));
        assert(done2[p] == Some(field_byte_at(types, sdt, fields2, j, p)));
        assert(field_byte_at(types, sdt, fields, k, p) == field_byte_at(
            types,
            sdt,
            fields2,
            j,
            p,
        ));
    }
    assert(b1 =~= b2);
}


/// A struct value whose placements leave any declared byte unwritten —
/// a gap — never encodes: full-struct validation demands that the
/// fields cover the declared size exactly.
pub proof fn lemma_struct_gap_refused(
    types: Seq<DataTypeV>,
    sym: SymbolV,
    fields: Seq<(Seq<char>, Val)>,
)
    requires
        spec_names_unique(fields),
        spec_lookup_type(types, sym.data_type_name) is Some,
        ({
            let sdt = spec_lookup_type(types, sym.data_type_name)->Some_0;
            let init = Seq::new(sdt.size_bytes as nat, |j: int| None::<u8>);
            spec_encode_struct_fields(types, sdt, fields, 0, init) matches Ok(done) && exists|j: int|
                0 <= j < done.len() && done[j] is None
        }),
    ensures
        crate::codec::spec_encode_struct(types, sym, fields) == Err::<Seq<u8>, AdsError>(
            AdsError::InvalidArgument,
        ),
{
}

} // verus!
