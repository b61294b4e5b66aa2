//! Decoding device bytes into `Variable` values.
//!
//! Decoding follows the resolved symbol and data type: the outermost
//! declared dimension splits the buffer into equal chunks, inner
//! dimensions recurse, and at rank zero the symbol's primitive tag says
//! how to read the bytes.  A struct decodes field by field at the
//! declared offsets.  Struct nesting is bounded by the number of uploaded
//! types plus one: a directory whose types nest deeper than that must
//! contain a cycle, and decoding reports it as malformed data instead of
//! descending forever.

use vstd::prelude::*;

use crate::error::AdsError;
use crate::resolve::{spec_lookup_type, spec_type_base_name};
use crate::schema::{DataType, DataTypeV, DataTypes, Symbol, SymbolV};
use crate::text::{find_sub_from, matches_at, spec_find_sub_from, spec_trim, trimmed_substring};
use crate::variables::{
    bytes_to_string, le_bytes, le_value, lemma_le_value_bound, lemma_vals_of, pow256,
    spec_c_bytes, spec_c_string, str_to_bytes, uint_from_le, uint_to_le, val_of, vals_of,
    StartIndex, Val, Variable,
};

verus! {

broadcast use vstd::std_specs::vec::group_vec_axioms, vstd::seq::group_seq_axioms;

/// How deep decoding may nest into struct fields: one more than the
/// number of uploaded types, the deepest an acyclic directory can nest.
pub open spec fn decode_fuel(types: Seq<DataTypeV>) -> nat {
    if types.len() + 1 <= usize::MAX {
        (types.len() + 1) as nat
    } else {
        usize::MAX as nat
    }
}

/// Whether a struct field is skipped during decoding: indirect
/// (`REFERENCE`) fields and the event-logger vendor namespace are not
/// materialised.
pub open spec fn spec_field_skipped(declared: Seq<char>) -> bool {
    spec_find_sub_from(declared, "REFERENCE"@, 0) is Some || (declared.len() >= 16
        && declared.subrange(0, 16) == "Tc3_EventLogger."@)
}

/// One primitive value decoded from `bytes` under the symbol's type tag.
/// Every tag demands the exact buffer length of its width.
pub open spec fn spec_decode_scalar(tag: u8, bytes: Seq<u8>) -> Result<Val, AdsError> {
    if tag == 0 {
        if bytes.len() == 0 {
            Ok(Val::Void)
        } else {
            Err(AdsError::MalformedData)
        }
    } else if tag == 33 {
        if bytes.len() != 1 {
            Err(AdsError::MalformedData)
        } else if bytes[0] == 0 {
            Ok(Val::Bool(false))
        } else if bytes[0] == 1 {
            Ok(Val::Bool(true))
        } else {
            Err(AdsError::MalformedData)
        }
    } else if tag == 16 {
        if bytes.len() == 1 {
            Ok(Val::I8(le_value(bytes) as u8 as i8))
        } else {
            Err(AdsError::MalformedData)
        }
    } else if tag == 2 {
        if bytes.len() == 2 {
            Ok(Val::I16(le_value(bytes) as u16 as i16))
        } else {
            Err(AdsError::MalformedData)
        }
    } else if tag == 3 {
        if bytes.len() == 4 {
            Ok(Val::I32(le_value(bytes) as u32 as i32))
        } else {
            Err(AdsError::MalformedData)
        }
    } else if tag == 20 {
        if bytes.len() == 8 {
            Ok(Val::I64(le_value(bytes) as u64 as i64))
        } else {
            Err(AdsError::MalformedData)
        }
    } else if tag == 17 {
        if bytes.len() == 1 {
            Ok(Val::U8(le_value(bytes) as u8))
        } else {
            Err(AdsError::MalformedData)
        }
    } else if tag == 18 {
        if bytes.len() == 2 {
            Ok(Val::U16(le_value(bytes) as u16))
        } else {
            Err(AdsError::MalformedData)
        }
    } else if tag == 19 {
        if bytes.len() == 4 {
            Ok(Val::U32(le_value(bytes) as u32))
        } else {
            Err(AdsError::MalformedData)
        }
    } else if tag == 21 {
        if bytes.len() == 8 {
            Ok(Val::U64(le_value(bytes) as u64))
        } else {
            Err(AdsError::MalformedData)
        }
    } else if tag == 4 {
        if bytes.len() == 4 {
            Ok(Val::F32(le_value(bytes) as u32))
        } else {
            Err(AdsError::MalformedData)
        }
    } else if tag == 5 {
        if bytes.len() == 8 {
            Ok(Val::F64(le_value(bytes) as u64))
        } else {
            Err(AdsError::MalformedData)
        }
    } else if tag == 30 {
        match spec_c_string(bytes) {
            Some(s) => Ok(Val::Text(s)),
            None => Err(AdsError::MalformedData),
        }
    } else if tag == 31 {
        Err(AdsError::Unsupported)
    } else {
        // Tag 65 (struct) is dispatched before this function; reserved
        // and unrecognised tags are malformed data.
        Err(AdsError::MalformedData)
    }
}

/// A whole value decoded from `bytes` as `dt` describes it, all declared
/// dimensions included.
pub open spec fn spec_decode(
    types: Seq<DataTypeV>,
    sym: SymbolV,
    dt: DataTypeV,
    bytes: Seq<u8>,
    fuel: nat,
) -> Result<Val, AdsError>
    decreases fuel, dt.array_ranges.len() + 1, 0nat, 0nat,
{
    spec_decode_array(types, sym, dt, dt.array_ranges, bytes, fuel)
}

/// A value decoded with `ranges` dimensions still to peel: the outermost
/// range splits the buffer into equal chunks.  An empty range yields an
/// empty array at its declared start index.
pub open spec fn spec_decode_array(
    types: Seq<DataTypeV>,
    sym: SymbolV,
    dt: DataTypeV,
    ranges: Seq<(i32, i32)>,
    bytes: Seq<u8>,
    fuel: nat,
) -> Result<Val, AdsError>
    decreases fuel, ranges.len(), 2nat, 0nat,
{
    if ranges.len() == 0 {
        spec_decode_inner(types, sym, dt, bytes, fuel)
    } else {
        let lo = ranges[0].0;
        let hi = ranges[0].1;
        if hi < lo {
            Ok(Val::Array(StartIndex::At(lo), Seq::empty()))
        } else {
            let count = 1 + hi - lo;
            let elem_len = bytes.len() as int / count;
            match spec_decode_elems(types, sym, dt, ranges, bytes, elem_len, 0, count, fuel) {
                Ok(elems) => Ok(Val::Array(StartIndex::At(lo), elems)),
                Err(e) => Err(e),
            }
        }
    }
}

/// The elements `i..count` of one dimension, each decoded from its own
/// `elem_len`-byte chunk.  At the innermost dimension the element type is
/// the base type the array type's own name reduces to.
pub open spec fn spec_decode_elems(
    types: Seq<DataTypeV>,
    sym: SymbolV,
    dt: DataTypeV,
    ranges: Seq<(i32, i32)>,
    bytes: Seq<u8>,
    elem_len: int,
    i: int,
    count: int,
    fuel: nat,
) -> Result<Seq<Val>, AdsError>
    decreases fuel, ranges.len(), 1nat, count - i,
{
    if i < 0 || i >= count {
        Ok(Seq::empty())
    } else {
        let chunk = bytes.subrange(i * elem_len, (i + 1) * elem_len);
        let head = if ranges.len() <= 1 {
            match spec_lookup_type(types, spec_type_base_name(dt.name, None)->Ok_0) {
                None => Err(AdsError::NotFound),
                Some(elem_dt) => spec_decode_inner(types, sym, elem_dt, chunk, fuel),
            }
        } else {
            spec_decode_array(types, sym, dt, ranges.drop_first(), chunk, fuel)
        };
        match head {
            Ok(v) => match spec_decode_elems(
                types,
                sym,
                dt,
                ranges,
                bytes,
                elem_len,
                i + 1,
                count,
                fuel,
            ) {
                Ok(rest) => Ok(seq![v] + rest),
                Err(e) => Err(e),
            },
            Err(e) => Err(e),
        }
    }
}

/// A rank-zero value decoded by the symbol's primitive tag; tag 65
/// decodes a struct field by field.
pub open spec fn spec_decode_inner(
    types: Seq<DataTypeV>,
    sym: SymbolV,
    dt: DataTypeV,
    bytes: Seq<u8>,
    fuel: nat,
) -> Result<Val, AdsError>
    decreases fuel, 0nat, 1nat, 0nat,
{
    if sym.data_type_id == 65 {
        match spec_decode_fields(types, dt.fields, bytes, 0, fuel) {
            Ok(fields) => Ok(Val::Struct(fields)),
            Err(e) => Err(e),
        }
    } else {
        spec_decode_scalar(sym.data_type_id, bytes)
    }
}

/// The struct fields `i..` decoded from `bytes` at their declared
/// offsets, in declaration order; skipped fields are simply absent.
pub open spec fn spec_decode_fields(
    types: Seq<DataTypeV>,
    fields: Seq<SymbolV>,
    bytes: Seq<u8>,
    i: int,
    fuel: nat,
) -> Result<Seq<(Seq<char>, Val)>, AdsError>
    decreases fuel, 0nat, 0nat, fields.len() - i,
{
    if i < 0 || i >= fields.len() {
        Ok(Seq::empty())
    } else {
        let field = fields[i];
        let field_type_name = spec_trim(field.data_type_name);
        if spec_field_skipped(field_type_name) {
            spec_decode_fields(types, fields, bytes, i + 1, fuel)
        } else {
            match spec_lookup_type(types, field_type_name) {
                None => Err(AdsError::NotFound),
                Some(field_dt) => {
                    if field.offset < 0 || field.offset + field_dt.size_bytes > bytes.len() {
                        Err(AdsError::MalformedData)
                    } else if fuel == 0 {
                        Err(AdsError::MalformedData)
                    } else {
                        let field_bytes = bytes.subrange(
                            field.offset,
                            field.offset + field_dt.size_bytes,
                        );
                        match spec_decode(types, field, field_dt, field_bytes, (fuel - 1) as nat) {
                            Ok(v) => match spec_decode_fields(types, fields, bytes, i + 1, fuel) {
                                Ok(rest) => Ok(seq![(field.name, v)] + rest),
                                Err(e) => Err(e),
                            },
                            Err(e) => Err(e),
                        }
                    }
                },
            }
        }
    }
}

/// A whole value decoded from `bytes` with the nesting bound the
/// directory's size allows.
pub open spec fn spec_decode_full(
    types: Seq<DataTypeV>,
    sym: SymbolV,
    dt: DataTypeV,
    bytes: Seq<u8>,
) -> Result<Val, AdsError> {
    spec_decode(types, sym, dt, bytes, decode_fuel(types))
}

impl Variable {
    /// Decodes raw device bytes into the value that `symbol` and
    /// `symbol_data_type` describe.
    pub fn from_bytes(
        data_types: &DataTypes,
        symbol: &Symbol,
        symbol_data_type: &DataType,
        bytes: &[u8],
    ) -> (r: Result<Variable, AdsError>)
        ensures
            match r {
                Ok(v) => spec_decode_full(data_types@, symbol@, symbol_data_type@, bytes@) == Ok::<
                    _,
                    AdsError,
                >(v@),
                Err(e) => spec_decode_full(data_types@, symbol@, symbol_data_type@, bytes@)
                    == Err::<Val, _>(e),
            },
    {
        let fuel: usize = if data_types.entries.len() < usize::MAX {
            data_types.entries.len() + 1
        } else {
            usize::MAX
        };
        decode_fueled(data_types, symbol, symbol_data_type, bytes, fuel)
    }
}

/// Decodes a whole value with an explicit struct-nesting allowance.
fn decode_fueled(
    data_types: &DataTypes,
    symbol: &Symbol,
    dt: &DataType,
    bytes: &[u8],
    fuel: usize,
) -> (r: Result<Variable, AdsError>)
    ensures
        match r {
            Ok(v) => spec_decode(data_types@, symbol@, dt@, bytes@, fuel as nat) == Ok::<
                _,
                AdsError,
            >(v@),
            Err(e) => spec_decode(data_types@, symbol@, dt@, bytes@, fuel as nat) == Err::<Val, _>(
                e,
            ),
        },
    decreases fuel, dt.array_ranges@.len() + 1, 0nat, 0nat,
{
    let ranges = vstd::slice::slice_subrange(
        dt.array_ranges.as_slice(),
        0,
        dt.array_ranges.len(),
    );
    assert(ranges@ =~= dt@.array_ranges);
    decode_array(data_types, symbol, dt, ranges, bytes, fuel)
}

/// Decodes with the given dimensions still to peel.
#[verifier::rlimit(60)]
fn decode_array(
    data_types: &DataTypes,
    symbol: &Symbol,
    dt: &DataType,
    ranges: &[(i32, i32)],
    bytes: &[u8],
    fuel: usize,
) -> (r: Result<Variable, AdsError>)
    ensures
        match r {
            Ok(v) => spec_decode_array(data_types@, symbol@, dt@, ranges@, bytes@, fuel as nat)
                == Ok::<_, AdsError>(v@),
            Err(e) => spec_decode_array(data_types@, symbol@, dt@, ranges@, bytes@, fuel as nat)
                == Err::<Val, _>(e),
        },
    decreases fuel, ranges@.len(), 2nat, 0nat,
{
    let n_ranges = ranges.len();
    if n_ranges == 0 {
        return decode_inner(data_types, symbol, dt, bytes, fuel);
    }
    let (lo, hi) = *vstd::slice::slice_index_get(ranges, 0);
    if hi < lo {
        let empty: Vec<Variable> = Vec::new();
        assert(vals_of(empty@) =~= Seq::<Val>::empty());
        return Ok(Variable::Array(StartIndex::At(lo), empty));
    }
    let count: u64 = (1 + hi as i64 - lo as i64) as u64;
    let byte_len = bytes.len();
    let elem_len: u64 = (byte_len as u64) / count;
    proof {
        assert(count as int == 1 + hi - lo);
        assert(elem_len as int == bytes@.len() as int / (count as int));
        assert(count * elem_len <= byte_len) by (nonlinear_arith)
            requires
                elem_len == (byte_len as u64) / count,
                count >= 1,
        ;
    }
    let mut elements: Vec<Variable> = Vec::new();
    let mut i: u64 = 0;
    assert(vals_of(elements@) =~= Seq::<Val>::empty());
    proof {
        match spec_decode_elems(
            data_types@,
            symbol@,
            dt@,
            ranges@,
            bytes@,
            elem_len as int,
            0,
            count as int,
            fuel as nat,
        ) {
            Ok(rest) => {
                assert(vals_of(elements@) + rest =~= rest);
            },
            Err(_) => {},
        }
    }
    while i < count
        invariant
            i <= count,
            count >= 1,
            count as int == 1 + ranges@[0].1 - ranges@[0].0,
            elem_len == bytes@.len() as int / (count as int),
            count * elem_len <= bytes@.len(),
            byte_len == bytes@.len(),
            n_ranges == ranges@.len(),
            n_ranges >= 1,
            spec_decode_elems(
                data_types@,
                symbol@,
                dt@,
                ranges@,
                bytes@,
                elem_len as int,
                0,
                count as int,
                fuel as nat,
            ) == (match spec_decode_elems(
                data_types@,
                symbol@,
                dt@,
                ranges@,
                bytes@,
                elem_len as int,
                i as int,
                count as int,
                fuel as nat,
            ) {
                Ok(rest) => Ok::<_, AdsError>(vals_of(elements@) + rest),
                Err(e) => Err::<Seq<Val>, _>(e),
            }),
        decreases count - i,
    {
        proof {
            assert((i + 1) * elem_len <= count * elem_len) by (nonlinear_arith)
                requires
                    i + 1 <= count,
                    elem_len >= 0,
            ;
            assert(i * elem_len <= (i + 1) * elem_len) by (nonlinear_arith)
                requires
                    i >= 0,
                    elem_len >= 0,
            ;
        }
        let chunk = vstd::slice::slice_subrange(
            bytes,
            (i * elem_len) as usize,
            ((i + 1) * elem_len) as usize,
        );
        assert(chunk@ =~= bytes@.subrange(i as int * elem_len as int, (i + 1) * elem_len));
        let element = if n_ranges == 1 {
            let elem_dt = match data_types.data_type_get_base_type(dt) {
                Ok(d) => d,
                Err(e) => {
                    return Err(e);
                },
            };
            decode_inner(data_types, symbol, elem_dt, chunk, fuel)
        } else {
            let rest_ranges = vstd::slice::slice_subrange(ranges, 1, n_ranges);
            assert(rest_ranges@ =~= ranges@.drop_first());
            decode_array(data_types, symbol, dt, rest_ranges, chunk, fuel)
        };
        let element = match element {
            Ok(v) => v,
            Err(e) => {
                return Err(e);
            },
        };
        let ghost old_elems = elements@;
        let ghost before = vals_of(elements@);
        let ghost ev = val_of(element);
        elements.push(element);
        proof {
            assert(elements@.drop_last() =~= old_elems);
            assert(vals_of(elements@) == before.push(ev)) by {
                lemma_vals_of_push2(elements@, before, ev);
            }
            let rest = spec_decode_elems(
                data_types@,
                symbol@,
                dt@,
                ranges@,
                bytes@,
                elem_len as int,
                i + 1,
                count as int,
                fuel as nat,
            );
            if rest is Ok {
                assert(before + (seq![ev] + rest->Ok_0) =~= before.push(ev) + rest->Ok_0);
            }
        }
        i = i + 1;
    }
    proof {
        assert(vals_of(elements@) + Seq::<Val>::empty() =~= vals_of(elements@));
    }
    Ok(Variable::Array(StartIndex::At(lo), elements))
}

/// After a push, the image sequence is the old images plus the new one.
proof fn lemma_vals_of_push2(s: Seq<Variable>, before: Seq<Val>, ev: Val)
    requires
        s.len() >= 1,
        vals_of(s.drop_last()) == before,
        val_of(s.last()) == ev,
    ensures
        vals_of(s) == before.push(ev),
{
}

/// Decodes a rank-zero value by the symbol's primitive tag.
#[verifier::rlimit(60)]
fn decode_inner(
    data_types: &DataTypes,
    symbol: &Symbol,
    dt: &DataType,
    bytes: &[u8],
    fuel: usize,
) -> (r: Result<Variable, AdsError>)
    ensures
        match r {
            Ok(v) => spec_decode_inner(data_types@, symbol@, dt@, bytes@, fuel as nat) == Ok::<
                _,
                AdsError,
            >(v@),
            Err(e) => spec_decode_inner(data_types@, symbol@, dt@, bytes@, fuel as nat) == Err::<
                Val,
                _,
            >(e),
        },
    decreases fuel, 0nat, 1nat, 0nat,
{
    let tag = symbol.data_type_id;
    if tag == 65 {
        return decode_struct(data_types, dt, bytes, fuel);
    }
    let len = bytes.len();
    proof {
        lemma_le_value_bound(bytes@);
        assert(pow256(0) == 1);
        assert(pow256(1) == 256);
        assert(pow256(2) == 65536);
        assert(pow256(3) == 16777216);
        assert(pow256(4) == 0x1_0000_0000);
        assert(pow256(5) == 0x100_0000_0000);
        assert(pow256(6) == 0x1_0000_0000_0000);
        assert(pow256(7) == 0x100_0000_0000_0000);
        assert(pow256(8) == 0x1_0000_0000_0000_0000);
    }
    if tag == 0 {
        if len == 0 {
            Ok(Variable::Void)
        } else {
            Err(AdsError::MalformedData)
        }
    } else if tag == 33 {
        if len != 1 {
            Err(AdsError::MalformedData)
        } else {
            let byte = *vstd::slice::slice_index_get(bytes, 0);
            if byte == 0 {
                Ok(Variable::Bool(false))
            } else if byte == 1 {
                Ok(Variable::Bool(true))
            } else {
                Err(AdsError::MalformedData)
            }
        }
    } else if tag == 16 {
        if len == 1 {
            Ok(Variable::I8(uint_from_le(bytes) as u8 as i8))
        } else {
            Err(AdsError::MalformedData)
        }
    } else if tag == 2 {
        if len == 2 {
            Ok(Variable::I16(uint_from_le(bytes) as u16 as i16))
        } else {
            Err(AdsError::MalformedData)
        }
    } else if tag == 3 {
        if len == 4 {
            Ok(Variable::I32(uint_from_le(bytes) as u32 as i32))
        } else {
            Err(AdsError::MalformedData)
        }
    } else if tag == 20 {
        if len == 8 {
            Ok(Variable::I64(uint_from_le(bytes) as i64))
        } else {
            Err(AdsError::MalformedData)
        }
    } else if tag == 17 {
        if len == 1 {
            Ok(Variable::U8(uint_from_le(bytes) as u8))
        } else {
            Err(AdsError::MalformedData)
        }
    } else if tag == 18 {
        if len == 2 {
            Ok(Variable::U16(uint_from_le(bytes) as u16))
        } else {
            Err(AdsError::MalformedData)
        }
    } else if tag == 19 {
        if len == 4 {
            Ok(Variable::U32(uint_from_le(bytes) as u32))
        } else {
            Err(AdsError::MalformedData)
        }
    } else if tag == 21 {
        if len == 8 {
            Ok(Variable::U64(uint_from_le(bytes)))
        } else {
            Err(AdsError::MalformedData)
        }
    } else if tag == 4 {
        if len == 4 {
            Ok(Variable::F32(uint_from_le(bytes) as u32))
        } else {
            Err(AdsError::MalformedData)
        }
    } else if tag == 5 {
        if len == 8 {
            Ok(Variable::F64(uint_from_le(bytes)))
        } else {
            Err(AdsError::MalformedData)
        }
    } else if tag == 30 {
        match bytes_to_string(bytes) {
            Some(s) => Ok(Variable::Text(s)),
            None => Err(AdsError::MalformedData),
        }
    } else if tag == 31 {
        Err(AdsError::Unsupported)
    } else {
        Err(AdsError::MalformedData)
    }
}

/// Appending one named variable appends its image.
proof fn lemma_field_vals_of_push2(
    s: Seq<(String, Variable)>,
    before: Seq<(Seq<char>, Val)>,
    name: Seq<char>,
    ev: Val,
)
    requires
        s.len() >= 1,
        crate::variables::field_vals_of(s.drop_last()) == before,
        s.last().0@ == name,
        val_of(s.last().1) == ev,
    ensures
        crate::variables::field_vals_of(s) == before.push((name, ev)),
{
}

/// Decodes a struct value field by field at the declared offsets.
#[verifier::rlimit(100)]
fn decode_struct(data_types: &DataTypes, dt: &DataType, bytes: &[u8], fuel: usize) -> (r: Result<
    Variable,
    AdsError,
>)
    ensures
        match r {
            Ok(v) => (spec_decode_fields(data_types@, dt@.fields, bytes@, 0, fuel as nat) matches
                Ok(fields) && v@ == Val::Struct(fields)),
            Err(e) => spec_decode_fields(data_types@, dt@.fields, bytes@, 0, fuel as nat) == Err::<
                Seq<(Seq<char>, Val)>,
                _,
            >(e),
        },
    decreases fuel, 0nat, 0nat, 0nat,
{
    proof {
        reveal_strlit("REFERENCE");
        reveal_strlit("Tc3_EventLogger.");
    }
    let n_fields = dt.fields.len();
    let mut elements: Vec<(String, Variable)> = Vec::new();
    let mut i: usize = 0;
    assert(crate::variables::field_vals_of(elements@) =~= Seq::<(Seq<char>, Val)>::empty());
    proof {
        match spec_decode_fields(data_types@, dt@.fields, bytes@, 0, fuel as nat) {
            Ok(rest) => {
                assert(crate::variables::field_vals_of(elements@) + rest =~= rest);
            },
            Err(_) => {},
        }
    }
    while i < n_fields
        invariant
            i <= n_fields,
            n_fields == dt.fields.len(),
            fuel <= usize::MAX,
            spec_decode_fields(data_types@, dt@.fields, bytes@, 0, fuel as nat) == (match
                spec_decode_fields(data_types@, dt@.fields, bytes@, i as int, fuel as nat) {
                Ok(rest) => Ok::<_, AdsError>(
                    crate::variables::field_vals_of(elements@) + rest,
                ),
                Err(e) => Err::<Seq<(Seq<char>, Val)>, _>(e),
            }),
        decreases n_fields - i,
    {
        proof {
            reveal_strlit("REFERENCE");
            reveal_strlit("Tc3_EventLogger.");
            assert(dt@.fields[i as int] == dt.fields@[i as int]@);
        }
        let field = &dt.fields[i];
        let ftn_len = field.data_type_name.as_str().unicode_len();
        let field_type_name = trimmed_substring(field.data_type_name.as_str(), 0, ftn_len);
        proof {
            assert(field.data_type_name@.subrange(0, field.data_type_name@.len() as int)
                =~= field.data_type_name@);
        }
        let skipped = if find_sub_from(field_type_name, "REFERENCE", 0).is_some() {
            true
        } else {
            let tn_len = field_type_name.unicode_len();
            if tn_len >= 16 {
                let is_vendor = matches_at(field_type_name, "Tc3_EventLogger.", 0);
                proof {
                    if is_vendor {
                        assert(field_type_name@.subrange(0, 16) =~= "Tc3_EventLogger."@);
                    } else {
                        assert(field_type_name@.subrange(0, 16) != "Tc3_EventLogger."@);
                    }
                }
                is_vendor
            } else {
                false
            }
        };
        if !skipped {
            let field_dt = match data_types.get(field_type_name) {
                Ok(d) => d,
                Err(e) => {
                    return Err(e);
                },
            };
            let size = field_dt.size_bytes;
            let offset = field.offset;
            let blen = bytes.len();
            if size > blen || offset > blen - size {
                return Err(AdsError::MalformedData);
            }
            if fuel == 0 {
                return Err(AdsError::MalformedData);
            }
            let field_bytes = vstd::slice::slice_subrange(bytes, offset, offset + size);
            let value = match decode_fueled(data_types, field, field_dt, field_bytes, fuel - 1) {
                Ok(v) => v,
                Err(e) => {
                    return Err(e);
                },
            };
            let ghost old_elems = elements@;
            let ghost before = crate::variables::field_vals_of(elements@);
            let ghost name_spec = field.name@;
            let ghost ev = val_of(value);
            let name = field.name.clone();
            elements.push((name, value));
            proof {
                assert(elements@.drop_last() =~= old_elems);
                lemma_field_vals_of_push2(elements@, before, name_spec, ev);
                let rest = spec_decode_fields(
                    data_types@,
                    dt@.fields,
                    bytes@,
                    i + 1,
                    fuel as nat,
                );
                if rest is Ok {
                    assert(before + (seq![(name_spec, ev)] + rest->Ok_0) =~= before.push(
                        (name_spec, ev),
                    ) + rest->Ok_0);
                }
            }
        }
        i = i + 1;
    }
    proof {
        assert(crate::variables::field_vals_of(elements@) + Seq::<(Seq<char>, Val)>::empty()
            =~= crate::variables::field_vals_of(elements@));
    }
    Ok(Variable::Struct(elements))
}


/// The bytes one scalar or text value encodes to under the symbol's
/// primitive tag; any mismatch between variant and tag is refused.
pub open spec fn spec_encode_scalar(v: Val, tag: u8) -> Result<Seq<u8>, AdsError> {
    match v {
        Val::Void => if tag == 0 {
            Ok(Seq::empty())
        } else {
            Err(AdsError::TypeMismatch)
        },
        Val::Bool(b) => if tag == 33 {
            Ok(seq![if b { 1u8 } else { 0u8 }])
        } else {
            Err(AdsError::TypeMismatch)
        },
        Val::I8(x) => if tag == 16 {
            Ok(le_bytes(x as u8 as int, 1))
        } else {
            Err(AdsError::TypeMismatch)
        },
        Val::I16(x) => if tag == 2 {
            Ok(le_bytes(x as u16 as int, 2))
        } else {
            Err(AdsError::TypeMismatch)
        },
        Val::I32(x) => if tag == 3 {
            Ok(le_bytes(x as u32 as int, 4))
        } else {
            Err(AdsError::TypeMismatch)
        },
        Val::I64(x) => if tag == 20 {
            Ok(le_bytes(x as u64 as int, 8))
        } else {
            Err(AdsError::TypeMismatch)
        },
        Val::U8(x) => if tag == 17 {
            Ok(le_bytes(x as int, 1))
        } else {
            Err(AdsError::TypeMismatch)
        },
        Val::U16(x) => if tag == 18 {
            Ok(le_bytes(x as int, 2))
        } else {
            Err(AdsError::TypeMismatch)
        },
        Val::U32(x) => if tag == 19 {
            Ok(le_bytes(x as int, 4))
        } else {
            Err(AdsError::TypeMismatch)
        },
        Val::U64(x) => if tag == 21 {
            Ok(le_bytes(x as int, 8))
        } else {
            Err(AdsError::TypeMismatch)
        },
        Val::F32(x) => if tag == 4 {
            Ok(le_bytes(x as int, 4))
        } else {
            Err(AdsError::TypeMismatch)
        },
        Val::F64(x) => if tag == 5 {
            Ok(le_bytes(x as int, 8))
        } else {
            Err(AdsError::TypeMismatch)
        },
        Val::Text(s) => if tag == 30 {
            Ok(spec_c_bytes(s))
        } else {
            Err(AdsError::TypeMismatch)
        },
        _ => Err(AdsError::TypeMismatch),
    }
}

/// Whether every provided field name occurs only once.
pub open spec fn spec_names_unique(fields: Seq<(Seq<char>, Val)>) -> bool {
    forall|i: int, j: int| 0 <= i < j < fields.len() ==> (#[trigger] fields[i]).0 != (
    #[trigger] fields[j]).0
}

/// The bytes a value encodes to with `ranges` dimensions still declared:
/// scalars and text by the symbol's tag, arrays dimension by dimension,
/// structs field by field at their declared offsets.
pub open spec fn spec_encode_value(
    types: Seq<DataTypeV>,
    sym: SymbolV,
    ranges: Seq<(i32, i32)>,
    v: Val,
) -> Result<Seq<u8>, AdsError>
    decreases v, ranges.len(), 2nat, 1nat,
{
    match v {
        Val::Array(si, content) => spec_encode_array(types, sym, si, content, ranges),
        Val::Struct(fields) => if sym.data_type_id == 65 {
            spec_encode_struct(types, sym, fields)
        } else {
            Err(AdsError::TypeMismatch)
        },
        _ => spec_encode_scalar(v, sym.data_type_id),
    }
}

/// The bytes an array value encodes to.  The declared type must still
/// have a dimension; an explicit start index must equal its lower bound;
/// the value may hold at most the declared element count (writing a
/// prefix is allowed); and the elements' encodings are concatenated in
/// order.
pub open spec fn spec_encode_array(
    types: Seq<DataTypeV>,
    sym: SymbolV,
    si: StartIndex,
    content: Seq<Val>,
    ranges: Seq<(i32, i32)>,
) -> Result<Seq<u8>, AdsError>
    decreases content, ranges.len(), 2nat, 0nat,
{
    if ranges.len() == 0 {
        Err(AdsError::MalformedData)
    } else {
        let lo = ranges[0].0;
        let hi = ranges[0].1;
        if (si matches StartIndex::At(i) && i != lo) {
            Err(AdsError::InvalidArgument)
        } else if content.len() > 1 + hi - lo {
            Err(AdsError::InvalidArgument)
        } else {
            spec_encode_elems(types, sym, content, ranges, 0)
        }
    }
}

/// The concatenated encodings of the elements `i..` of one dimension.
/// Below the innermost dimension each element encodes as a scalar; above
/// it each element must itself be an array value for the next dimension.
pub open spec fn spec_encode_elems(
    types: Seq<DataTypeV>,
    sym: SymbolV,
    content: Seq<Val>,
    ranges: Seq<(i32, i32)>,
    i: int,
) -> Result<Seq<u8>, AdsError>
    decreases content, ranges.len(), 0nat, content.len() - i,
{
    if i < 0 || i >= content.len() {
        Ok(Seq::empty())
    } else {
        let head = if ranges.len() <= 1 {
            spec_encode_value(types, sym, Seq::empty(), content[i])
        } else {
            match content[i] {
                Val::Array(si2, inner) => spec_encode_array(
                    types,
                    sym,
                    si2,
                    inner,
                    ranges.drop_first(),
                ),
                _ => Err(AdsError::TypeMismatch),
            }
        };
        match head {
            Ok(b) => match spec_encode_elems(types, sym, content, ranges, i + 1) {
                Ok(rest) => Ok(b + rest),
                Err(e) => Err(e),
            },
            Err(e) => Err(e),
        }
    }
}

/// The bytes a full struct value encodes to: field names must be unique
/// and declared, each field encodes at its declared offset, and together
/// the fields must cover the struct's declared size exactly, with no
/// overlap and no gap.
pub open spec fn spec_encode_struct(
    types: Seq<DataTypeV>,
    sym: SymbolV,
    fields: Seq<(Seq<char>, Val)>,
) -> Result<Seq<u8>, AdsError>
    decreases fields, 0nat, 2nat, 0nat,
{
    if !spec_names_unique(fields) {
        Err(AdsError::InvalidArgument)
    } else {
        match spec_lookup_type(types, sym.data_type_name) {
            None => Err(AdsError::NotFound),
            Some(sdt) => {
                let init = Seq::new(sdt.size_bytes as nat, |j: int| None::<u8>);
                match spec_encode_struct_fields(types, sdt, fields, 0, init) {
                    Ok(acc) => if exists|j: int| 0 <= j < acc.len() && acc[j] is None {
                        Err(AdsError::InvalidArgument)
                    } else {
                        Ok(Seq::new(acc.len(), |j: int| acc[j]->Some_0))
                    },
                    Err(e) => Err(e),
                }
            },
        }
    }
}

/// Places each provided field's encoding into the struct buffer `acc` at
/// its declared offset; a field outside the declared size or over an
/// already-written byte is refused.
pub open spec fn spec_encode_struct_fields(
    types: Seq<DataTypeV>,
    sdt: DataTypeV,
    fields: Seq<(Seq<char>, Val)>,
    i: int,
    acc: Seq<Option<u8>>,
) -> Result<Seq<Option<u8>>, AdsError>
    decreases fields, 0nat, 1nat, fields.len() - i,
{
    if i < 0 || i >= fields.len() {
        Ok(acc)
    } else {
        match crate::resolve::spec_find_field(sdt.fields, fields[i].0) {
            None => Err(AdsError::InvalidArgument),
            Some(fsym) => match spec_lookup_type(types, fsym.data_type_name) {
                None => Err(AdsError::NotFound),
                Some(fdt) => match spec_encode_value(
                    types,
                    fsym,
                    fdt.array_ranges,
                    fields[i].1,
                ) {
                    Err(e) => Err(e),
                    Ok(b) => {
                        if fsym.offset < 0 || fsym.offset + b.len() > acc.len() {
                            Err(AdsError::InvalidArgument)
                        } else if exists|k: int|
                            fsym.offset <= k < fsym.offset + b.len() && acc[k] is Some {
                            Err(AdsError::InvalidArgument)
                        } else {
                            let placed = Seq::new(
                                acc.len(),
                                |j: int|
                                    if fsym.offset <= j < fsym.offset + b.len() {
                                        Some(b[j - fsym.offset])
                                    } else {
                                        acc[j]
                                    },
                            );
                            spec_encode_struct_fields(types, sdt, fields, i + 1, placed)
                        }
                    },
                },
            },
        }
    }
}

/// The bytes a whole value encodes to under its resolved symbol and data
/// type.
pub open spec fn spec_encode_full(
    types: Seq<DataTypeV>,
    sym: SymbolV,
    dt: DataTypeV,
    v: Val,
) -> Result<Seq<u8>, AdsError> {
    spec_encode_value(types, sym, dt.array_ranges, v)
}


impl Variable {
    /// Encodes this value into the byte layout that `symbol` and
    /// `symbol_data_type` declare.
    pub fn to_bytes(
        &self,
        data_types: &DataTypes,
        symbol: &Symbol,
        symbol_data_type: &DataType,
    ) -> (r: Result<Vec<u8>, AdsError>)
        ensures
            match r {
                Ok(b) => spec_encode_full(data_types@, symbol@, symbol_data_type@, self@) == Ok::<
                    _,
                    AdsError,
                >(b@),
                Err(e) => spec_encode_full(data_types@, symbol@, symbol_data_type@, self@)
                    == Err::<Seq<u8>, _>(e),
            },
        decreases *self, symbol_data_type.array_ranges@.len() + 1, 2nat, 2nat,
    {
        let ranges = vstd::slice::slice_subrange(
            symbol_data_type.array_ranges.as_slice(),
            0,
            symbol_data_type.array_ranges.len(),
        );
        assert(ranges@ =~= symbol_data_type@.array_ranges);
        self.to_bytes_inner(data_types, symbol, ranges)
    }

    /// Encodes this value with the given dimensions still declared.
    pub fn to_bytes_inner(
        &self,
        data_types: &DataTypes,
        symbol: &Symbol,
        ranges: &[(i32, i32)],
    ) -> (r: Result<Vec<u8>, AdsError>)
        ensures
            match r {
                Ok(b) => spec_encode_value(data_types@, symbol@, ranges@, self@) == Ok::<
                    _,
                    AdsError,
                >(b@),
                Err(e) => spec_encode_value(data_types@, symbol@, ranges@, self@) == Err::<
                    Seq<u8>,
                    _,
                >(e),
            },
        decreases *self, ranges@.len(), 2nat, 1nat,
    {
        match self {
            Variable::Array(si, content) => {
                let content_slice = vstd::slice::slice_subrange(
                    content.as_slice(),
                    0,
                    content.len(),
                );
                assert(content_slice@ =~= content@);
                proof {
                    lemma_vals_of(content@);
                }
                array_to_bytes(data_types, symbol, si, content_slice, ranges)
            },
            Variable::Struct(fields) => {
                if symbol.data_type_id == 65 {
                    let fields_slice = vstd::slice::slice_subrange(
                        fields.as_slice(),
                        0,
                        fields.len(),
                    );
                    assert(fields_slice@ =~= fields@);
                    struct_to_bytes(data_types, symbol, fields_slice)
                } else {
                    Err(AdsError::TypeMismatch)
                }
            },
            _ => scalar_to_bytes(self, symbol.data_type_id),
        }
    }
}

/// Encodes a scalar or text value under the primitive tag.
fn scalar_to_bytes(v: &Variable, tag: u8) -> (r: Result<Vec<u8>, AdsError>)
    requires
        !(v matches Variable::Array(_, _)),
        !(v matches Variable::Struct(_)),
    ensures
        match r {
            Ok(b) => spec_encode_scalar(v@, tag) == Ok::<_, AdsError>(b@),
            Err(e) => spec_encode_scalar(v@, tag) == Err::<Seq<u8>, _>(e),
        },
{
    match v {
        Variable::Void => if tag == 0 {
            let empty: Vec<u8> = Vec::new();
            assert(empty@ =~= Seq::<u8>::empty());
            Ok(empty)
        } else {
            Err(AdsError::TypeMismatch)
        },
        Variable::Bool(b) => if tag == 33 {
            let byte: u8 = if *b {
                1
            } else {
                0
            };
            let out = vec![byte];
            assert(out@ =~= seq![byte]);
            Ok(out)
        } else {
            Err(AdsError::TypeMismatch)
        },
        Variable::I8(x) => if tag == 16 {
            Ok(uint_to_le(*x as u8 as u64, 1))
        } else {
            Err(AdsError::TypeMismatch)
        },
        Variable::I16(x) => if tag == 2 {
            Ok(uint_to_le(*x as u16 as u64, 2))
        } else {
            Err(AdsError::TypeMismatch)
        },
        Variable::I32(x) => if tag == 3 {
            Ok(uint_to_le(*x as u32 as u64, 4))
        } else {
            Err(AdsError::TypeMismatch)
        },
        Variable::I64(x) => if tag == 20 {
            Ok(uint_to_le(*x as u64, 8))
        } else {
            Err(AdsError::TypeMismatch)
        },
        Variable::U8(x) => if tag == 17 {
            Ok(uint_to_le(*x as u64, 1))
        } else {
            Err(AdsError::TypeMismatch)
        },
        Variable::U16(x) => if tag == 18 {
            Ok(uint_to_le(*x as u64, 2))
        } else {
            Err(AdsError::TypeMismatch)
        },
        Variable::U32(x) => if tag == 19 {
            Ok(uint_to_le(*x as u64, 4))
        } else {
            Err(AdsError::TypeMismatch)
        },
        Variable::U64(x) => if tag == 21 {
            Ok(uint_to_le(*x, 8))
        } else {
            Err(AdsError::TypeMismatch)
        },
        Variable::F32(x) => if tag == 4 {
            Ok(uint_to_le(*x as u64, 4))
        } else {
            Err(AdsError::TypeMismatch)
        },
        Variable::F64(x) => if tag == 5 {
            Ok(uint_to_le(*x, 8))
        } else {
            Err(AdsError::TypeMismatch)
        },
        Variable::Text(s) => if tag == 30 {
            Ok(str_to_bytes(s.as_str()))
        } else {
            Err(AdsError::TypeMismatch)
        },
        _ => Err(AdsError::TypeMismatch),
    }
}

/// Encodes an array value against the declared dimensions: optional
/// explicit start index, prefix writes allowed, elements concatenated.
#[verifier::rlimit(60)]
fn array_to_bytes(
    data_types: &DataTypes,
    symbol: &Symbol,
    start_index: &StartIndex,
    content: &[Variable],
    ranges: &[(i32, i32)],
) -> (r: Result<Vec<u8>, AdsError>)
    ensures
        match r {
            Ok(b) => spec_encode_array(data_types@, symbol@, *start_index, vals_of(content@), ranges@)
                == Ok::<_, AdsError>(b@),
            Err(e) => spec_encode_array(
                data_types@,
                symbol@,
                *start_index,
                vals_of(content@),
                ranges@,
            ) == Err::<Seq<u8>, _>(e),
        },
    decreases content@, ranges@.len(), 2nat, 0nat,
{
    proof {
        lemma_vals_of(content@);
    }
    let n_ranges = ranges.len();
    if n_ranges == 0 {
        return Err(AdsError::MalformedData);
    }
    let (lo, hi) = *vstd::slice::slice_index_get(ranges, 0);
    match start_index {
        StartIndex::At(i) => if *i != lo {
            return Err(AdsError::InvalidArgument);
        },
        StartIndex::Start => {},
    }
    let n_content = content.len();
    let declared: i64 = 1 + hi as i64 - lo as i64;
    let too_long = if declared < 0 {
        true
    } else {
        (n_content as u64) > (declared as u64)
    };
    if too_long {
        return Err(AdsError::InvalidArgument);
    }
    let mut out: Vec<u8> = Vec::new();
    let mut i: usize = 0;
    proof {
        assert(out@ =~= Seq::<u8>::empty());
        assert(vals_of(content@).len() <= 1 + ranges@[0].1 - ranges@[0].0);
        match spec_encode_elems(data_types@, symbol@, vals_of(content@), ranges@, 0) {
            Ok(rest) => {
                assert(out@ + rest =~= rest);
            },
            Err(_) => {},
        }
    }
    while i < n_content
        invariant
            i <= n_content,
            n_content == content@.len(),
            n_ranges == ranges@.len(),
            n_ranges >= 1,
            vals_of(content@).len() == content@.len(),
            forall|k: int|
                0 <= k < content@.len() ==> vals_of(content@)[k] == val_of(
                    #[trigger] content@[k],
                ),
            spec_encode_array(data_types@, symbol@, *start_index, vals_of(content@), ranges@) == (
            match spec_encode_elems(data_types@, symbol@, vals_of(content@), ranges@, i as int) {
                Ok(rest) => Ok::<_, AdsError>(out@ + rest),
                Err(e) => Err::<Seq<u8>, _>(e),
            }),
        decreases n_content - i,
    {
        let element = vstd::slice::slice_index_get(content, i);
        let head = if n_ranges == 1 {
            let empty_ranges: [(i32, i32); 0] = [];
            let er = vstd::slice::slice_subrange(&empty_ranges, 0, 0);
            assert(er@ =~= Seq::<(i32, i32)>::empty());
            element.to_bytes_inner(data_types, symbol, er)
        } else {
            match element {
                Variable::Array(si2, inner) => {
                    let inner_slice = vstd::slice::slice_subrange(
                        inner.as_slice(),
                        0,
                        inner.len(),
                    );
                    assert(inner_slice@ =~= inner@);
                    let rest_ranges = vstd::slice::slice_subrange(ranges, 1, n_ranges);
                    assert(rest_ranges@ =~= ranges@.drop_first());
                    array_to_bytes(data_types, symbol, si2, inner_slice, rest_ranges)
                },
                _ => {
                    proof {
                        assert(!(val_of(content@[i as int]) matches Val::Array(_, _)));
                    }
                    return Err(AdsError::TypeMismatch);
                },
            }
        };
        let mut head = match head {
            Ok(b) => b,
            Err(e) => {
                return Err(e);
            },
        };
        let ghost out_before = out@;
        let ghost head_spec = head@;
        out.append(&mut head);
        proof {
            let rest = spec_encode_elems(
                data_types@,
                symbol@,
                vals_of(content@),
                ranges@,
                i + 1,
            );
            if rest is Ok {
                assert(out_before + (head_spec + rest->Ok_0) =~= (out_before + head_spec)
                    + rest->Ok_0);
            }
        }
        i = i + 1;
    }
    proof {
        assert(out@ + Seq::<u8>::empty() =~= out@);
    }
    Ok(out)
}


/// Whether no byte in `acc[offset..offset+len)` has been written yet.
fn range_all_none(acc: &Vec<Option<u8>>, offset: usize, len: usize) -> (r: bool)
    requires
        offset + len <= acc@.len(),
    ensures
        r == !(exists|k: int| offset <= k < offset + len && (#[trigger] acc@[k]) is Some),
{
    let n_acc = acc.len();
    let mut k: usize = 0;
    while k < len
        invariant
            k <= len,
            n_acc == acc@.len(),
            offset + len <= n_acc,
            forall|j: int| offset <= j < offset + k ==> (#[trigger] acc@[j]) is None,
        decreases len - k,
    {
        if acc[offset + k].is_some() {
            return false;
        }
        k = k + 1;
    }
    true
}

/// Writes `bytes` into `acc` starting at `offset`.
fn place_bytes(acc: &mut Vec<Option<u8>>, offset: usize, bytes: &Vec<u8>)
    requires
        offset + bytes@.len() <= old(acc)@.len(),
    ensures
        final(acc)@ == Seq::new(
            old(acc)@.len(),
            |j: int|
                if offset <= j < offset + bytes@.len() {
                    Some(bytes@[j - offset])
                } else {
                    old(acc)@[j]
                },
        ),
{
    let ghost acc0 = acc@;
    let n = bytes.len();
    let n_acc = acc.len();
    let mut k: usize = 0;
    while k < n
        invariant
            k <= n,
            n == bytes@.len(),
            offset + n <= acc0.len(),
            n_acc == acc0.len(),
            acc@.len() == acc0.len(),
            forall|j: int| offset + k <= j < acc0.len() ==> (#[trigger] acc@[j]) == acc0[j],
            forall|j: int| 0 <= j < offset ==> (#[trigger] acc@[j]) == acc0[j],
            forall|j: int|
                offset <= j < offset + k ==> (#[trigger] acc@[j]) == Some(bytes@[j - offset]),
        decreases n - k,
    {
        let byte = bytes[k];
        acc.set(offset + k, Some(byte));
        k = k + 1;
    }
    proof {
        assert(acc@ =~= Seq::new(
            acc0.len(),
            |j: int|
                if offset <= j < offset + bytes@.len() {
                    Some(bytes@[j - offset])
                } else {
                    acc0[j]
                },
        ));
    }
}

/// Unwraps a fully-written struct buffer; `None` when a gap remains.
fn unwrap_bytes(acc: &Vec<Option<u8>>) -> (r: Option<Vec<u8>>)
    ensures
        match r {
            Some(out) => !(exists|j: int| 0 <= j < acc@.len() && (#[trigger] acc@[j]) is None)
                && out@ == Seq::new(acc@.len(), |j: int| acc@[j]->Some_0),
            None => exists|j: int| 0 <= j < acc@.len() && (#[trigger] acc@[j]) is None,
        },
{
    let n = acc.len();
    let mut out: Vec<u8> = Vec::new();
    let mut k: usize = 0;
    while k < n
        invariant
            k <= n,
            n == acc@.len(),
            out@.len() == k,
            forall|j: int| 0 <= j < k ==> (#[trigger] acc@[j]) is Some,
            forall|j: int| 0 <= j < k ==> (#[trigger] out@[j]) == acc@[j]->Some_0,
        decreases n - k,
    {
        match acc[k] {
            Some(b) => {
                out.push(b);
            },
            None => {
                return None;
            },
        }
        k = k + 1;
    }
    proof {
        assert(out@ =~= Seq::new(acc@.len(), |j: int| acc@[j]->Some_0));
    }
    Some(out)
}

/// Encodes a full struct value: unique, declared field names, each field
/// at its declared offset, covering the declared size exactly.
#[verifier::rlimit(100)]
fn struct_to_bytes(
    data_types: &DataTypes,
    symbol: &Symbol,
    fields: &[(String, Variable)],
) -> (r: Result<Vec<u8>, AdsError>)
    ensures
        match r {
            Ok(b) => spec_encode_struct(data_types@, symbol@, crate::variables::field_vals_of(fields@))
                == Ok::<_, AdsError>(b@),
            Err(e) => spec_encode_struct(
                data_types@,
                symbol@,
                crate::variables::field_vals_of(fields@),
            ) == Err::<Seq<u8>, _>(e),
        },
    decreases fields@, 0nat, 3nat, 0nat,
{
    proof {
        crate::variables::lemma_field_vals_of(fields@);
    }
    let ghost fvals = crate::variables::field_vals_of(fields@);
    let n_fields = fields.len();
    // Reject duplicated field names first.
    let mut i: usize = 0;
    while i < n_fields
        invariant
            i <= n_fields,
            n_fields == fields@.len(),
            fvals == crate::variables::field_vals_of(fields@),
            fvals.len() == n_fields,
            forall|a: int|
                0 <= a < fields@.len() ==> fvals[a] == ((#[trigger] fields@[a]).0@, val_of(
                    fields@[a].1,
                )),
            forall|a: int, b: int| 0 <= a < b < fields@.len() && a < i ==> (#[trigger] fvals[a]).0
                != (#[trigger] fvals[b]).0,
        decreases n_fields - i,
    {
        let mut j: usize = i + 1;
        while j < n_fields
            invariant
                i < j || j == i + 1,
                i + 1 <= j <= n_fields,
                i < n_fields,
                n_fields == fields@.len(),
                fvals == crate::variables::field_vals_of(fields@),
                fvals.len() == n_fields,
                forall|a: int|
                    0 <= a < fields@.len() ==> fvals[a] == ((#[trigger] fields@[a]).0@, val_of(
                        fields@[a].1,
                    )),
                forall|b: int| i < b < j ==> (fvals[i as int]).0 != (#[trigger] fvals[b]).0,
            decreases n_fields - j,
        {
            if crate::text::str_eq(fields[i].0.as_str(), fields[j].0.as_str()) {
                proof {
                    assert(!spec_names_unique(fvals)) by {
                        assert((fvals[i as int]).0 == (fvals[j as int]).0);
                    }
                }
                return Err(AdsError::InvalidArgument);
            }
            j = j + 1;
        }
        i = i + 1;
    }
    assert(spec_names_unique(fvals));
    let struct_dt = match data_types.get(symbol.data_type_name.as_str()) {
        Ok(d) => d,
        Err(e) => {
            return Err(e);
        },
    };
    let size = struct_dt.size_bytes;
    let mut acc: Vec<Option<u8>> = Vec::new();
    let mut k: usize = 0;
    while k < size
        invariant
            k <= size,
            acc@.len() == k,
            forall|j: int| 0 <= j < k ==> (#[trigger] acc@[j]) is None,
        decreases size - k,
    {
        acc.push(None);
        k = k + 1;
    }
    let ghost init = Seq::new(size as nat, |j: int| None::<u8>);
    proof {
        assert(acc@ =~= init);
    }
    let mut idx: usize = 0;
    while idx < n_fields
        invariant
            idx <= n_fields,
            n_fields == fields@.len(),
            fvals == crate::variables::field_vals_of(fields@),
            fvals.len() == n_fields,
            spec_names_unique(fvals),
            forall|a: int|
                0 <= a < fields@.len() ==> fvals[a] == ((#[trigger] fields@[a]).0@, val_of(
                    fields@[a].1,
                )),
            acc@.len() == size,
            size == struct_dt@.size_bytes,
            spec_lookup_type(data_types@, symbol@.data_type_name) == Some(struct_dt@),
            spec_encode_struct(data_types@, symbol@, fvals) == (match spec_encode_struct_fields(
                data_types@,
                struct_dt@,
                fvals,
                idx as int,
                acc@,
            ) {
                Ok(done) => if exists|j: int| 0 <= j < done.len() && done[j] is None {
                    Err::<Seq<u8>, AdsError>(AdsError::InvalidArgument)
                } else {
                    Ok::<_, AdsError>(Seq::new(done.len(), |j: int| done[j]->Some_0))
                },
                Err(e) => Err::<Seq<u8>, _>(e),
            }),
        decreases n_fields - idx,
    {
        let field_symbol = match struct_dt.find_field(fields[idx].0.as_str()) {
            Some(fs) => fs,
            None => {
                return Err(AdsError::InvalidArgument);
            },
        };
        let field_dt = match data_types.get(field_symbol.data_type_name.as_str()) {
            Ok(d) => d,
            Err(e) => {
                return Err(e);
            },
        };
        let value = &fields[idx].1;
        let encoded = match value.to_bytes(data_types, field_symbol, field_dt) {
            Ok(b) => b,
            Err(e) => {
                return Err(e);
            },
        };
        let offset = field_symbol.offset;
        let blen = encoded.len();
        if blen > size || offset > size - blen {
            return Err(AdsError::InvalidArgument);
        }
        // Refuse overlap with any byte already written.
        if !range_all_none(&acc, offset, blen) {
            return Err(AdsError::InvalidArgument);
        }
        let ghost acc_before = acc@;
        place_bytes(&mut acc, offset, &encoded);
        proof {
            let placed = Seq::new(
                acc_before.len(),
                |j: int|
                    if field_symbol@.offset <= j < field_symbol@.offset + encoded@.len() {
                        Some(encoded@[j - field_symbol@.offset])
                    } else {
                        acc_before[j]
                    },
            );
            assert(acc@ =~= placed);
        }
        idx = idx + 1;
    }
    // No byte may be left unwritten: the fields must cover the whole
    // declared size.
    let out = match unwrap_bytes(&acc) {
        Some(o) => o,
        None => {
            return Err(AdsError::InvalidArgument);
        },
    };
    Ok(out)
}

} // verus!
