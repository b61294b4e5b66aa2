//! The schema model and the defensive parser for the two upload blobs.
//!
//! A device describes itself with two binary tables: a symbol table and a
//! data-type table, each a sequence of variable-length records.  Every
//! length and offset in them is device-controlled and therefore untrusted:
//! all access here is bounds-checked and fails with `MalformedSchema`
//! instead of ever reading out of range.
//!
//! Record layout, little-endian throughout.  A symbol record starts with a
//! 30-byte header: entry length, group, offset, size, data type and flags
//! as 32-bit words, then name, type-name and comment lengths as 16-bit
//! words; the three strings follow, each with one separator byte after it.
//! A data-type record (also used for struct-field sub-records) starts with
//! a 42-byte header: entry length, version, two hashes, size, offset, data
//! type and flags as 32-bit words, then name, type-name and comment
//! lengths, array-dimension count and sub-item count as 16-bit words; the
//! three strings follow as above, then 8 bytes per array dimension (read
//! past but not used: the dimensions are parsed from the type name
//! itself), then the sub-item records.  A record's total length is its
//! self-declared entry length.

use vstd::prelude::*;

use crate::array::{get_ranges, spec_get_ranges};
use crate::error::AdsError;
use crate::text::spec_trim;
use vstd::utf8::{decode_utf8, valid_utf8};

verus! {

/// Which address space a symbol lives in.
#[derive(Clone, Copy, Debug, PartialEq, Eq, Structural)]
pub enum Group {
    /// A physical input (`%I*`).
    Input,
    /// A physical output (`%Q*`).
    Output,
    /// A flag / merker area variable (`%M*`).
    Flag,
    /// No assigned address space.
    Unassigned,
    /// A field inside a structure; its offset is relative to the struct.
    StructField,
}

impl Group {
    /// The group encoded by a symbol record's group word.
    pub open spec fn spec_from_u32(input: u32) -> Group {
        if input == 61472 {
            Group::Input
        } else if input == 61488 {
            Group::Output
        } else if input == 16416 {
            Group::Flag
        } else {
            Group::Unassigned
        }
    }

    /// Decodes a symbol record's group word.
    pub fn from_u32(input: u32) -> (r: Group)
        ensures
            r == Group::spec_from_u32(input),
    {
        if input == 61472 {
            Group::Input
        } else if input == 61488 {
            Group::Output
        } else if input == 16416 {
            Group::Flag
        } else {
            Group::Unassigned
        }
    }
}

/// One named entity: a top-level device variable or a struct field.
#[derive(Clone, Debug)]
pub struct Symbol {
    /// The symbol's full name (for a struct field, the field name).
    pub name: String,
    /// The device's primitive type identifier.
    pub data_type_id: u8,
    /// The declared type name, which for arrays literally encodes the
    /// dimension ranges.
    pub data_type_name: String,
    /// Byte offset; relative to the struct start for a struct field.
    pub offset: usize,
    /// The address space the symbol lives in.
    pub group: Group,
    /// Whether the device retains this value across restarts.
    pub persistent: bool,
    /// The schema comment, absent when it decoded to an empty string.
    pub comment: Option<String>,
}

/// The mathematical image of a `Symbol`.
pub struct SymbolV {
    pub name: Seq<char>,
    pub data_type_id: u8,
    pub data_type_name: Seq<char>,
    pub offset: int,
    pub group: Group,
    pub persistent: bool,
    pub comment: Option<Seq<char>>,
}

impl View for Symbol {
    type V = SymbolV;

    open spec fn view(&self) -> SymbolV {
        SymbolV {
            name: self.name@,
            data_type_id: self.data_type_id,
            data_type_name: self.data_type_name@,
            offset: self.offset as int,
            group: self.group,
            persistent: self.persistent,
            comment: match self.comment {
                Some(c) => Some(c@),
                None => None,
            },
        }
    }
}

impl Symbol {
    /// The symbol's name.
    pub fn name(&self) -> (r: &str)
        ensures
            r@ == self@.name,
    {
        self.name.as_str()
    }

    /// The device's primitive type identifier.
    pub fn data_type_id(&self) -> (r: u8)
        ensures
            r == self@.data_type_id,
    {
        self.data_type_id
    }

    /// The declared type name.
    pub fn data_type(&self) -> (r: &str)
        ensures
            r@ == self@.data_type_name,
    {
        self.data_type_name.as_str()
    }

    /// The symbol's byte offset.
    pub fn offset(&self) -> (r: usize)
        ensures
            r == self@.offset,
    {
        self.offset
    }
}

/// One named type: a primitive, a struct (fields populated) or an array
/// (dimension ranges populated).
#[derive(Clone, Debug)]
pub struct DataType {
    /// The declared type name.
    pub name: String,
    /// Total byte size of one value of this type.
    pub size_bytes: usize,
    /// The schema comment, absent when it decoded to an empty string.
    pub comment: Option<String>,
    /// Inclusive dimension ranges, outermost first, parsed from `name`.
    pub array_ranges: Vec<(i32, i32)>,
    /// The struct fields in declaration order, empty for non-structs.
    pub fields: Vec<Symbol>,
}

/// The images of a sequence of symbols, in order.
pub open spec fn views_of_symbols(v: Seq<Symbol>) -> Seq<SymbolV> {
    v.map_values(|s: Symbol| s@)
}


/// The mathematical image of a `DataType`.
pub struct DataTypeV {
    pub name: Seq<char>,
    pub size_bytes: int,
    pub comment: Option<Seq<char>>,
    pub array_ranges: Seq<(i32, i32)>,
    pub fields: Seq<SymbolV>,
}

impl View for DataType {
    type V = DataTypeV;

    open spec fn view(&self) -> DataTypeV {
        DataTypeV {
            name: self.name@,
            size_bytes: self.size_bytes as int,
            comment: match self.comment {
                Some(c) => Some(c@),
                None => None,
            },
            array_ranges: self.array_ranges@,
            fields: views_of_symbols(self.fields@),
        }
    }
}

impl DataType {
    /// Total byte size of one value of this type.
    pub fn size_bytes(&self) -> (r: usize)
        ensures
            r == self@.size_bytes,
    {
        self.size_bytes
    }

    /// The inclusive dimension ranges, outermost first.
    pub fn array_ranges(&self) -> (r: &Vec<(i32, i32)>)
        ensures
            r@ == self@.array_ranges,
    {
        &self.array_ranges
    }

    /// The struct fields in declaration order.
    pub fn fields(&self) -> (r: &Vec<Symbol>)
        ensures
            views_of_symbols(r@) == self@.fields,
    {
        &self.fields
    }
}

/// The word read little-endian from two bytes at `i`.
pub open spec fn le16(b: Seq<u8>, i: int) -> int {
    b[i] + 256 * b[i + 1]
}

/// The word read little-endian from four bytes at `i`.
pub open spec fn le32(b: Seq<u8>, i: int) -> int {
    b[i] + 256 * b[i + 1] + 65536 * b[i + 2] + 16777216 * b[i + 3]
}

/// Reads a little-endian 16-bit word.
pub fn read_u16(bytes: &[u8], i: usize) -> (r: u16)
    requires
        i + 2 <= bytes@.len(),
    ensures
        r == le16(bytes@, i as int),
{
    let n = bytes.len();
    let b0 = *vstd::slice::slice_index_get(bytes, i) as u16;
    let b1 = *vstd::slice::slice_index_get(bytes, i + 1) as u16;
    b0 + 256 * b1
}

/// Reads a little-endian 32-bit word.
pub fn read_u32(bytes: &[u8], i: usize) -> (r: u32)
    requires
        i + 4 <= bytes@.len(),
    ensures
        r == le32(bytes@, i as int),
{
    let n = bytes.len();
    let b0 = *vstd::slice::slice_index_get(bytes, i) as u32;
    let b1 = *vstd::slice::slice_index_get(bytes, i + 1) as u32;
    let b2 = *vstd::slice::slice_index_get(bytes, i + 2) as u32;
    let b3 = *vstd::slice::slice_index_get(bytes, i + 3) as u32;
    b0 + 256 * b1 + 65536 * b2 + 16777216 * b3
}

/// Relies on std's `core::str::from_utf8`: it succeeds exactly on valid
/// UTF-8 input and returns the decoded characters.
#[verifier::external_body]
pub(crate) fn utf8_to_str(bytes: &[u8]) -> (r: Option<&str>)
    ensures
        match r {
            Some(s) => valid_utf8(bytes@) && s@ == decode_utf8(bytes@),
            None => !valid_utf8(bytes@),
        },
{
    core::str::from_utf8(bytes).ok()
}

/// The characters a blob string field decodes to: the UTF-8 decoding of
/// its bytes with surrounding whitespace trimmed, or `MalformedSchema`
/// when the bytes are not valid UTF-8.
pub open spec fn spec_bytes_string(b: Seq<u8>) -> Result<Seq<char>, AdsError> {
    if valid_utf8(b) {
        Ok(spec_trim(decode_utf8(b)))
    } else {
        Err(AdsError::MalformedSchema)
    }
}

/// Decodes one string field of a blob record: UTF-8, trimmed.
pub fn bytes_get_string(bytes: &[u8]) -> (r: Result<String, AdsError>)
    ensures
        match r {
            Ok(s) => spec_bytes_string(bytes@) == Ok::<_, AdsError>(s@),
            Err(e) => spec_bytes_string(bytes@) == Err::<Seq<char>, _>(e),
        },
{
    match utf8_to_str(bytes) {
        Some(s) => {
            let n = s.unicode_len();
            let t = crate::text::trimmed_substring(s, 0, n);
            assert(s@.subrange(0, s@.len() as int) =~= s@);
            Ok(t.to_owned())
        },
        None => Err(AdsError::MalformedSchema),
    }
}

/// The comment field of a record: as `spec_bytes_string`, with an empty
/// result standing for "absent".
pub open spec fn spec_bytes_comment(b: Seq<u8>) -> Result<Option<Seq<char>>, AdsError> {
    match spec_bytes_string(b) {
        Ok(s) => if s.len() == 0 {
            Ok(None)
        } else {
            Ok(Some(s))
        },
        Err(e) => Err(e),
    }
}

/// Decodes the comment field of a blob record; an empty comment is absent.
pub fn bytes_get_comment(bytes: &[u8]) -> (r: Result<Option<String>, AdsError>)
    ensures
        match r {
            Ok(None) => spec_bytes_comment(bytes@) == Ok::<_, AdsError>(
                None::<Seq<char>>,
            ),
            Ok(Some(s)) => spec_bytes_comment(bytes@) == Ok::<_, AdsError>(Some(s@)),
            Err(e) => spec_bytes_comment(bytes@) == Err::<Option<Seq<char>>, _>(e),
        },
{
    match bytes_get_string(bytes) {
        Ok(s) => {
            if s.as_str().is_empty() {
                Ok(None)
            } else {
                Ok(Some(s))
            }
        },
        Err(e) => Err(e),
    }
}

/// The length of a symbol record's fixed header.
pub const SYMBOL_HEADER_LEN: usize = 30;

/// The length of a data-type (and struct-field) record's fixed header.
pub const TYPE_HEADER_LEN: usize = 42;

/// The bytes one array-dimension entry occupies in a data-type record.
pub const ARRAY_INFO_LEN: usize = 8;

/// One symbol record parsed at `cur`: the symbol and the cursor of the
/// next record (`cur` plus the record's self-declared entry length).
#[verifier::opaque]
pub open spec fn spec_parse_symbol_record(b: Seq<u8>, cur: int) -> Result<
    (SymbolV, int),
    AdsError,
> {
    if cur < 0 || cur + 30 > b.len() {
        Err(AdsError::MalformedSchema)
    } else {
        let entry_length = le32(b, cur);
        let group = le32(b, cur + 4);
        let offs = le32(b, cur + 8);
        let data_type = le32(b, cur + 16);
        let flags = le32(b, cur + 20);
        let name_len = le16(b, cur + 24);
        let type_len = le16(b, cur + 26);
        let comment_len = le16(b, cur + 28);
        let name_start = cur + 30;
        let name_end = name_start + name_len;
        let dt_start = name_end + 1;
        let dt_end = dt_start + type_len;
        let c_start = dt_end + 1;
        let c_end = c_start + comment_len;
        if c_end > b.len() {
            Err(AdsError::MalformedSchema)
        } else {
            match (spec_bytes_string(b.subrange(name_start, name_end)), spec_bytes_string(
                b.subrange(dt_start, dt_end),
            ), spec_bytes_comment(b.subrange(c_start, c_end))) {
                (Ok(name), Ok(dt_name), Ok(comment)) => Ok(
                    (
                        SymbolV {
                            name: name,
                            data_type_id: (data_type % 256) as u8,
                            data_type_name: dt_name,
                            offset: offs,
                            group: Group::spec_from_u32(group as u32),
                            persistent: flags % 2 == 1,
                            comment: comment,
                        },
                        cur + entry_length,
                    ),
                ),
                _ => Err(AdsError::MalformedSchema),
            }
        }
    }
}

/// One struct-field sub-record parsed at `cur` (42-byte header): the field
/// symbol and the next cursor.  The persistent mark of a field sits eight
/// bits higher in the flags word than a top-level symbol's.
#[verifier::opaque]
pub open spec fn spec_parse_field_record(b: Seq<u8>, cur: int) -> Result<(SymbolV, int), AdsError> {
    if cur < 0 || cur + 42 > b.len() {
        Err(AdsError::MalformedSchema)
    } else {
        let entry_length = le32(b, cur);
        let offs = le32(b, cur + 20);
        let data_type = le32(b, cur + 24);
        let flags = le32(b, cur + 28);
        let name_len = le16(b, cur + 32);
        let type_len = le16(b, cur + 34);
        let comment_len = le16(b, cur + 36);
        let name_start = cur + 42;
        let name_end = name_start + name_len;
        let dt_start = name_end + 1;
        let dt_end = dt_start + type_len;
        let c_start = dt_end + 1;
        let c_end = c_start + comment_len;
        if c_end > b.len() {
            Err(AdsError::MalformedSchema)
        } else {
            match (spec_bytes_string(b.subrange(name_start, name_end)), spec_bytes_string(
                b.subrange(dt_start, dt_end),
            ), spec_bytes_comment(b.subrange(c_start, c_end))) {
                (Ok(name), Ok(dt_name), Ok(comment)) => Ok(
                    (
                        SymbolV {
                            name: name,
                            data_type_id: (data_type % 256) as u8,
                            data_type_name: dt_name,
                            offset: offs,
                            group: Group::StructField,
                            persistent: (flags / 256) % 2 == 1,
                            comment: comment,
                        },
                        cur + entry_length,
                    ),
                ),
                _ => Err(AdsError::MalformedSchema),
            }
        }
    }
}

/// Parses one symbol record of the symbol-table blob, returning the
/// symbol and the record's self-declared entry length.
pub fn parse_symbol_record(bytes: &[u8], cursor: usize) -> (r: Result<(Symbol, usize), AdsError>)
    ensures
        match r {
            Ok((sym, elen)) => spec_parse_symbol_record(bytes@, cursor as int) == Ok::<_, AdsError>(
                (sym@, cursor + elen),
            ),
            Err(e) => spec_parse_symbol_record(bytes@, cursor as int) == Err::<(SymbolV, int), _>(
                e,
            ),
        },
{
    proof {
        reveal(spec_parse_symbol_record);
    }
    let len = bytes.len();
    if len < 30 || cursor > len - 30 {
        return Err(AdsError::MalformedSchema);
    }
    let entry_length = read_u32(bytes, cursor);
    let group = read_u32(bytes, cursor + 4);
    let offs = read_u32(bytes, cursor + 8);
    let data_type = read_u32(bytes, cursor + 16);
    let flags = read_u32(bytes, cursor + 20);
    let name_len = read_u16(bytes, cursor + 24) as usize;
    let type_len = read_u16(bytes, cursor + 26) as usize;
    let comment_len = read_u16(bytes, cursor + 28) as usize;
    let name_start = cursor + 30;
    if len - name_start < name_len || len - name_start - name_len < 1 {
        return Err(AdsError::MalformedSchema);
    }
    let name_end = name_start + name_len;
    let dt_start = name_end + 1;
    if len - dt_start < type_len || len - dt_start - type_len < 1 {
        return Err(AdsError::MalformedSchema);
    }
    let dt_end = dt_start + type_len;
    let c_start = dt_end + 1;
    if len - c_start < comment_len {
        return Err(AdsError::MalformedSchema);
    }
    let c_end = c_start + comment_len;
    let name = match bytes_get_string(vstd::slice::slice_subrange(bytes, name_start, name_end)) {
        Ok(s) => s,
        Err(e) => {
            return Err(e);
        },
    };
    let dt_name = match bytes_get_string(vstd::slice::slice_subrange(bytes, dt_start, dt_end)) {
        Ok(s) => s,
        Err(e) => {
            return Err(e);
        },
    };
    let comment = match bytes_get_comment(vstd::slice::slice_subrange(bytes, c_start, c_end)) {
        Ok(c) => c,
        Err(e) => {
            return Err(e);
        },
    };
    Ok(
        (
            Symbol {
                name,
                data_type_id: (data_type % 256) as u8,
                data_type_name: dt_name,
                offset: offs as usize,
                group: Group::from_u32(group),
                persistent: flags % 2 == 1,
                comment,
            },
            entry_length as usize,
        ),
    )
}

/// Parses one struct-field sub-record of a data-type record, returning
/// the field symbol and the sub-record's self-declared entry length.
pub fn parse_field_record(bytes: &[u8], cursor: usize) -> (r: Result<(Symbol, usize), AdsError>)
    ensures
        match r {
            Ok((sym, elen)) => spec_parse_field_record(bytes@, cursor as int) == Ok::<_, AdsError>(
                (sym@, cursor + elen),
            ),
            Err(e) => spec_parse_field_record(bytes@, cursor as int) == Err::<(SymbolV, int), _>(
                e,
            ),
        },
{
    proof {
        reveal(spec_parse_field_record);
    }
    let len = bytes.len();
    if len < 42 || cursor > len - 42 {
        return Err(AdsError::MalformedSchema);
    }
    let entry_length = read_u32(bytes, cursor);
    let offs = read_u32(bytes, cursor + 20);
    let data_type = read_u32(bytes, cursor + 24);
    let flags = read_u32(bytes, cursor + 28);
    let name_len = read_u16(bytes, cursor + 32) as usize;
    let type_len = read_u16(bytes, cursor + 34) as usize;
    let comment_len = read_u16(bytes, cursor + 36) as usize;
    let name_start = cursor + 42;
    if len - name_start < name_len || len - name_start - name_len < 1 {
        return Err(AdsError::MalformedSchema);
    }
    let name_end = name_start + name_len;
    let dt_start = name_end + 1;
    if len - dt_start < type_len || len - dt_start - type_len < 1 {
        return Err(AdsError::MalformedSchema);
    }
    let dt_end = dt_start + type_len;
    let c_start = dt_end + 1;
    if len - c_start < comment_len {
        return Err(AdsError::MalformedSchema);
    }
    let c_end = c_start + comment_len;
    let name = match bytes_get_string(vstd::slice::slice_subrange(bytes, name_start, name_end)) {
        Ok(s) => s,
        Err(e) => {
            return Err(e);
        },
    };
    let dt_name = match bytes_get_string(vstd::slice::slice_subrange(bytes, dt_start, dt_end)) {
        Ok(s) => s,
        Err(e) => {
            return Err(e);
        },
    };
    let comment = match bytes_get_comment(vstd::slice::slice_subrange(bytes, c_start, c_end)) {
        Ok(c) => c,
        Err(e) => {
            return Err(e);
        },
    };
    Ok(
        (
            Symbol {
                name,
                data_type_id: (data_type % 256) as u8,
                data_type_name: dt_name,
                offset: offs as usize,
                group: Group::StructField,
                persistent: (flags / 256) % 2 == 1,
                comment,
            },
            entry_length as usize,
        ),
    )
}

/// `n` consecutive struct-field sub-records starting at `cur`, each
/// advancing the cursor by its own entry length.
pub open spec fn spec_parse_fields_from(b: Seq<u8>, cur: int, n: nat) -> Result<
    Seq<SymbolV>,
    AdsError,
>
    decreases n,
{
    if n == 0 {
        Ok(Seq::empty())
    } else {
        match spec_parse_field_record(b, cur) {
            Ok((field, next)) => match spec_parse_fields_from(b, next, (n - 1) as nat) {
                Ok(rest) => Ok(seq![field] + rest),
                Err(e) => Err(e),
            },
            Err(e) => Err(e),
        }
    }
}

/// One data-type record parsed at `cur`: the data type and the cursor of
/// the next record.  The dimension ranges come from the type's own name;
/// a name that fails range parsing simply yields no ranges, mirroring the
/// upload's lenient handling of non-array names.
#[verifier::opaque]
pub open spec fn spec_parse_data_type_record(b: Seq<u8>, cur: int) -> Result<
    (DataTypeV, int),
    AdsError,
> {
    if cur < 0 || cur + 42 > b.len() {
        Err(AdsError::MalformedSchema)
    } else {
        let entry_length = le32(b, cur);
        let size = le32(b, cur + 16);
        let name_len = le16(b, cur + 32);
        let type_len = le16(b, cur + 34);
        let comment_len = le16(b, cur + 36);
        let array_dim = le16(b, cur + 38);
        let sub_items = le16(b, cur + 40);
        let name_start = cur + 42;
        let name_end = name_start + name_len;
        let t_start = name_end + 1;
        let t_end = t_start + type_len;
        let c_start = t_end + 1;
        let c_end = c_start + comment_len;
        let field_info_start = c_end + 1 + array_dim * 8;
        if c_end > b.len() {
            Err(AdsError::MalformedSchema)
        } else {
            match (spec_bytes_string(b.subrange(name_start, name_end)), spec_bytes_comment(
                b.subrange(c_start, c_end),
            )) {
                (Ok(name), Ok(comment)) => {
                    let ranges = match spec_get_ranges(name) {
                        Ok(r) => r,
                        Err(_) => Seq::empty(),
                    };
                    match spec_parse_fields_from(b, field_info_start, sub_items as nat) {
                        Ok(fields) => Ok(
                            (
                                DataTypeV {
                                    name: name,
                                    size_bytes: size,
                                    comment: comment,
                                    array_ranges: ranges,
                                    fields: fields,
                                },
                                cur + entry_length,
                            ),
                        ),
                        Err(e) => Err(e),
                    }
                },
                _ => Err(AdsError::MalformedSchema),
            }
        }
    }
}

/// Parses one data-type record of the data-type-table blob, returning the
/// data type and the record's self-declared entry length.
#[verifier::rlimit(60)]
pub fn parse_data_type_record(bytes: &[u8], cursor: usize) -> (r: Result<
    (DataType, usize),
    AdsError,
>)
    ensures
        match r {
            Ok((dt, elen)) => spec_parse_data_type_record(bytes@, cursor as int) == Ok::<
                _,
                AdsError,
            >((dt@, cursor + elen)),
            Err(e) => spec_parse_data_type_record(bytes@, cursor as int) == Err::<
                (DataTypeV, int),
                _,
            >(e),
        },
{
    proof {
        reveal(spec_parse_data_type_record);
    }
    let len = bytes.len();
    if len < 42 || cursor > len - 42 {
        return Err(AdsError::MalformedSchema);
    }
    let entry_length = read_u32(bytes, cursor);
    let size = read_u32(bytes, cursor + 16);
    let name_len = read_u16(bytes, cursor + 32) as usize;
    let type_len = read_u16(bytes, cursor + 34) as usize;
    let comment_len = read_u16(bytes, cursor + 36) as usize;
    let array_dim = read_u16(bytes, cursor + 38) as usize;
    let sub_items = read_u16(bytes, cursor + 40);
    let name_start = cursor + 42;
    if len - name_start < name_len || len - name_start - name_len < 1 {
        return Err(AdsError::MalformedSchema);
    }
    let name_end = name_start + name_len;
    let t_start = name_end + 1;
    if len - t_start < type_len || len - t_start - type_len < 1 {
        return Err(AdsError::MalformedSchema);
    }
    let t_end = t_start + type_len;
    let c_start = t_end + 1;
    if len - c_start < comment_len {
        return Err(AdsError::MalformedSchema);
    }
    let c_end = c_start + comment_len;
    let name = match bytes_get_string(vstd::slice::slice_subrange(bytes, name_start, name_end)) {
        Ok(s) => s,
        Err(e) => {
            return Err(e);
        },
    };
    let comment = match bytes_get_comment(vstd::slice::slice_subrange(bytes, c_start, c_end)) {
        Ok(c) => c,
        Err(e) => {
            return Err(e);
        },
    };
    let array_ranges = match get_ranges(name.as_str()) {
        Ok(r) => r,
        Err(_) => Vec::new(),
    };
    let ghost field_info_start_spec = c_end + 1 + (array_dim as int) * 8;
    let field_info_start = match c_end.checked_add(1 + array_dim * 8) {
        Some(f) => f,
        None => {
            // The dimension table alone would run past any addressable
            // buffer, so the first sub-record read below must fail.
            if sub_items == 0 {
                let empty_fields: Vec<Symbol> = Vec::new();
                assert(views_of_symbols(empty_fields@) =~= Seq::<SymbolV>::empty());
                return Ok(
                    (
                        DataType {
                            name,
                            size_bytes: size as usize,
                            comment,
                            array_ranges,
                            fields: empty_fields,
                        },
                        entry_length as usize,
                    ),
                );
            }
            proof {
                reveal(spec_parse_field_record);
                assert(field_info_start_spec + 42 > bytes@.len());
            }
            return Err(AdsError::MalformedSchema);
        },
    };
    let fields = match parse_fields(bytes, field_info_start, sub_items) {
        Ok(f) => f,
        Err(e) => {
            return Err(e);
        },
    };
    Ok(
        (
            DataType { name, size_bytes: size as usize, comment, array_ranges, fields },
            entry_length as usize,
        ),
    )
}

/// Parses `count` consecutive struct-field sub-records starting at
/// `start`.
#[verifier::rlimit(60)]
fn parse_fields(bytes: &[u8], start: usize, count: u16) -> (r: Result<Vec<Symbol>, AdsError>)
    ensures
        match r {
            Ok(v) => spec_parse_fields_from(bytes@, start as int, count as nat) == Ok::<
                _,
                AdsError,
            >(views_of_symbols(v@)),
            Err(e) => spec_parse_fields_from(bytes@, start as int, count as nat) == Err::<
                Seq<SymbolV>,
                _,
            >(e),
        },
{
    let len = bytes.len();
    let mut fields: Vec<Symbol> = Vec::new();
    let mut field_cursor = start;
    let mut remaining = count;
    assert(views_of_symbols(fields@) =~= Seq::<SymbolV>::empty());
    proof {
        match spec_parse_fields_from(bytes@, start as int, count as nat) {
            Ok(rest) => {
                assert(views_of_symbols(fields@) + rest =~= rest);
            },
            Err(_) => {},
        }
    }
    while remaining > 0
        invariant
            bytes@.len() <= usize::MAX,
            spec_parse_fields_from(bytes@, start as int, count as nat) == (match
                spec_parse_fields_from(bytes@, field_cursor as int, remaining as nat) {
                Ok(rest) => Ok::<_, AdsError>(views_of_symbols(fields@) + rest),
                Err(e) => Err::<Seq<SymbolV>, _>(e),
            }),
        decreases remaining,
    {
        let ghost fields_before = views_of_symbols(fields@);
        let (field, elen) = match parse_field_record(bytes, field_cursor) {
            Ok(fe) => fe,
            Err(e) => {
                return Err(e);
            },
        };
        fields.push(field);
        proof {
            assert(views_of_symbols(fields@) =~= fields_before.push(field@));
        }
        remaining = remaining - 1;
        let next = match field_cursor.checked_add(elen) {
            Some(n) => n,
            None => {
                // The next sub-record would start past any addressable
                // buffer, so reading it must fail unless none is left.
                if remaining == 0 {
                    proof {
                        assert(spec_parse_fields_from(bytes@, field_cursor + elen, 0) == Ok::<
                            _,
                            AdsError,
                        >(Seq::<SymbolV>::empty()));
                        assert(seq![field@] + Seq::<SymbolV>::empty() =~= seq![field@]);
                        assert(fields_before + seq![field@] =~= fields_before.push(field@));
                    }
                    return Ok(fields);
                }
                proof {
                    reveal(spec_parse_field_record);
                    reveal_with_fuel(spec_parse_fields_from, 3);
                    assert(field_cursor + elen + 42 > bytes@.len());
                    assert(spec_parse_field_record(bytes@, field_cursor + elen) == Err::<
                        (SymbolV, int),
                        _,
                    >(AdsError::MalformedSchema));
                }
                return Err(AdsError::MalformedSchema);
            },
        };
        proof {
            let rest = spec_parse_fields_from(bytes@, next as int, remaining as nat);
            if rest is Ok {
                assert(fields_before + (seq![field@] + rest->Ok_0) =~= fields_before.push(field@)
                    + rest->Ok_0);
            }
        }
        field_cursor = next;
    }
    proof {
        assert(spec_parse_fields_from(bytes@, field_cursor as int, 0) == Ok::<_, AdsError>(
            Seq::<SymbolV>::empty(),
        ));
        assert(views_of_symbols(fields@) + Seq::<SymbolV>::empty() =~= views_of_symbols(fields@));
    }
    Ok(fields)
}

/// The images of a sequence of data types, in order.
pub open spec fn views_of_types(v: Seq<DataType>) -> Seq<DataTypeV> {
    v.map_values(|t: DataType| t@)
}


/// The name-keyed table of every uploaded top-level symbol, in upload
/// order.
#[derive(Clone, Debug)]
pub struct Symbols {
    /// The symbol records in upload order.
    pub entries: Vec<Symbol>,
}

impl View for Symbols {
    type V = Seq<SymbolV>;

    open spec fn view(&self) -> Seq<SymbolV> {
        views_of_symbols(self.entries@)
    }
}

/// The name-keyed table of every uploaded data type, in upload order.
#[derive(Clone, Debug)]
pub struct DataTypes {
    /// The data-type records in upload order.
    pub entries: Vec<DataType>,
}

impl View for DataTypes {
    type V = Seq<DataTypeV>;

    open spec fn view(&self) -> Seq<DataTypeV> {
        views_of_types(self.entries@)
    }
}

/// `n` consecutive symbol records starting at `cur`.
pub open spec fn spec_parse_symbols_from(b: Seq<u8>, cur: int, n: nat) -> Result<
    Seq<SymbolV>,
    AdsError,
>
    decreases n,
{
    if n == 0 {
        Ok(Seq::empty())
    } else {
        match spec_parse_symbol_record(b, cur) {
            Ok((sym, next)) => match spec_parse_symbols_from(b, next, (n - 1) as nat) {
                Ok(rest) => Ok(seq![sym] + rest),
                Err(e) => Err(e),
            },
            Err(e) => Err(e),
        }
    }
}

/// `n` consecutive data-type records starting at `cur`.
pub open spec fn spec_parse_types_from(b: Seq<u8>, cur: int, n: nat) -> Result<
    Seq<DataTypeV>,
    AdsError,
>
    decreases n,
{
    if n == 0 {
        Ok(Seq::empty())
    } else {
        match spec_parse_data_type_record(b, cur) {
            Ok((dt, next)) => match spec_parse_types_from(b, next, (n - 1) as nat) {
                Ok(rest) => Ok(seq![dt] + rest),
                Err(e) => Err(e),
            },
            Err(e) => Err(e),
        }
    }
}

/// Parses the symbol-table blob: exactly `count` records, each advancing
/// the cursor by its self-declared entry length.
#[verifier::rlimit(30)]
pub fn parse_symbols(bytes: &[u8], count: u32) -> (r: Result<Symbols, AdsError>)
    ensures
        match r {
            Ok(syms) => spec_parse_symbols_from(bytes@, 0, count as nat) == Ok::<_, AdsError>(
                syms@,
            ),
            Err(e) => spec_parse_symbols_from(bytes@, 0, count as nat) == Err::<Seq<SymbolV>, _>(
                e,
            ),
        },
{
    let len = bytes.len();
    let mut entries: Vec<Symbol> = Vec::new();
    let mut cursor: usize = 0;
    let mut remaining = count;
    assert(views_of_symbols(entries@) =~= Seq::<SymbolV>::empty());
    proof {
        match spec_parse_symbols_from(bytes@, 0, count as nat) {
            Ok(rest) => {
                assert(views_of_symbols(entries@) + rest =~= rest);
            },
            Err(_) => {},
        }
    }
    while remaining > 0
        invariant
            bytes@.len() <= usize::MAX,
            spec_parse_symbols_from(bytes@, 0, count as nat) == (match spec_parse_symbols_from(
                bytes@,
                cursor as int,
                remaining as nat,
            ) {
                Ok(rest) => Ok::<_, AdsError>(views_of_symbols(entries@) + rest),
                Err(e) => Err::<Seq<SymbolV>, _>(e),
            }),
        decreases remaining,
    {
        let ghost before = views_of_symbols(entries@);
        let (sym, elen) = match parse_symbol_record(bytes, cursor) {
            Ok(se) => se,
            Err(e) => {
                return Err(e);
            },
        };
        entries.push(sym);
        proof {
            assert(views_of_symbols(entries@) =~= before.push(sym@));
        }
        remaining = remaining - 1;
        let next = match cursor.checked_add(elen) {
            Some(n) => n,
            None => {
                // The next record would start past any addressable
                // buffer, so reading it must fail unless none is left.
                if remaining == 0 {
                    proof {
                        assert(spec_parse_symbols_from(bytes@, cursor + elen, 0) == Ok::<
                            _,
                            AdsError,
                        >(Seq::<SymbolV>::empty()));
                        assert(seq![sym@] + Seq::<SymbolV>::empty() =~= seq![sym@]);
                        assert(before + seq![sym@] =~= before.push(sym@));
                    }
                    return Ok(Symbols { entries });
                }
                proof {
                    reveal(spec_parse_symbol_record);
                    reveal_with_fuel(spec_parse_symbols_from, 3);
                    assert(cursor + elen + 30 > bytes@.len());
                    assert(spec_parse_symbol_record(bytes@, cursor + elen) == Err::<
                        (SymbolV, int),
                        _,
                    >(AdsError::MalformedSchema));
                }
                return Err(AdsError::MalformedSchema);
            },
        };
        proof {
            let rest = spec_parse_symbols_from(bytes@, next as int, remaining as nat);
            if rest is Ok {
                assert(before + (seq![sym@] + rest->Ok_0) =~= before.push(sym@) + rest->Ok_0);
            }
        }
        cursor = next;
    }
    proof {
        assert(spec_parse_symbols_from(bytes@, cursor as int, 0) == Ok::<_, AdsError>(
            Seq::<SymbolV>::empty(),
        ));
        assert(views_of_symbols(entries@) + Seq::<SymbolV>::empty() =~= views_of_symbols(
            entries@,
        ));
    }
    Ok(Symbols { entries })
}

/// Parses the data-type-table blob: exactly `count` records, each
/// advancing the cursor by its self-declared entry length.
#[verifier::rlimit(30)]
pub fn parse_data_types(bytes: &[u8], count: u32) -> (r: Result<DataTypes, AdsError>)
    ensures
        match r {
            Ok(types) => spec_parse_types_from(bytes@, 0, count as nat) == Ok::<_, AdsError>(
                types@,
            ),
            Err(e) => spec_parse_types_from(bytes@, 0, count as nat) == Err::<Seq<DataTypeV>, _>(
                e,
            ),
        },
{
    let len = bytes.len();
    let mut entries: Vec<DataType> = Vec::new();
    let mut cursor: usize = 0;
    let mut remaining = count;
    assert(views_of_types(entries@) =~= Seq::<DataTypeV>::empty());
    proof {
        match spec_parse_types_from(bytes@, 0, count as nat) {
            Ok(rest) => {
                assert(views_of_types(entries@) + rest =~= rest);
            },
            Err(_) => {},
        }
    }
    while remaining > 0
        invariant
            bytes@.len() <= usize::MAX,
            spec_parse_types_from(bytes@, 0, count as nat) == (match spec_parse_types_from(
                bytes@,
                cursor as int,
                remaining as nat,
            ) {
                Ok(rest) => Ok::<_, AdsError>(views_of_types(entries@) + rest),
                Err(e) => Err::<Seq<DataTypeV>, _>(e),
            }),
        decreases remaining,
    {
        let ghost before = views_of_types(entries@);
        let (dt, elen) = match parse_data_type_record(bytes, cursor) {
            Ok(de) => de,
            Err(e) => {
                return Err(e);
            },
        };
        entries.push(dt);
        proof {
            assert(views_of_types(entries@) =~= before.push(dt@));
        }
        remaining = remaining - 1;
        let next = match cursor.checked_add(elen) {
            Some(n) => n,
            None => {
                // The next record would start past any addressable
                // buffer, so reading it must fail unless none is left.
                if remaining == 0 {
                    proof {
                        assert(spec_parse_types_from(bytes@, cursor + elen, 0) == Ok::<
                            _,
                            AdsError,
                        >(Seq::<DataTypeV>::empty()));
                        assert(seq![dt@] + Seq::<DataTypeV>::empty() =~= seq![dt@]);
                        assert(before + seq![dt@] =~= before.push(dt@));
                    }
                    return Ok(DataTypes { entries });
                }
                proof {
                    reveal(spec_parse_data_type_record);
                    reveal_with_fuel(spec_parse_types_from, 3);
                    assert(cursor + elen + 42 > bytes@.len());
                    assert(spec_parse_data_type_record(bytes@, cursor + elen) == Err::<
                        (DataTypeV, int),
                        _,
                    >(AdsError::MalformedSchema));
                }
                return Err(AdsError::MalformedSchema);
            },
        };
        proof {
            let rest = spec_parse_types_from(bytes@, next as int, remaining as nat);
            if rest is Ok {
                assert(before + (seq![dt@] + rest->Ok_0) =~= before.push(dt@) + rest->Ok_0);
            }
        }
        cursor = next;
    }
    proof {
        assert(spec_parse_types_from(bytes@, cursor as int, 0) == Ok::<_, AdsError>(
            Seq::<DataTypeV>::empty(),
        ));
        assert(views_of_types(entries@) + Seq::<DataTypeV>::empty() =~= views_of_types(entries@));
    }
    Ok(DataTypes { entries })
}

/// The two tables of one session's discovered schema, built once from the
/// upload blobs and immutable afterwards.
#[derive(Clone, Debug)]
pub struct SymbolsAndDataTypes {
    /// Every top-level symbol.
    pub symbols: Symbols,
    /// Every named data type.
    pub data_types: DataTypes,
}

impl SymbolsAndDataTypes {
    /// Builds the directory from the two raw upload blobs and their
    /// record counts, exactly as the device reports them.
    pub fn from_blobs(
        symbol_blob: &[u8],
        n_symbols: u32,
        data_type_blob: &[u8],
        n_data_types: u32,
    ) -> (r: Result<SymbolsAndDataTypes, AdsError>)
        ensures
            match r {
                Ok(sdt) => spec_parse_symbols_from(symbol_blob@, 0, n_symbols as nat) == Ok::<
                    _,
                    AdsError,
                >(sdt.symbols@) && spec_parse_types_from(data_type_blob@, 0, n_data_types as nat)
                    == Ok::<_, AdsError>(sdt.data_types@),
                Err(e) => spec_parse_symbols_from(symbol_blob@, 0, n_symbols as nat) == Err::<
                    Seq<SymbolV>,
                    _,
                >(e) || (spec_parse_symbols_from(symbol_blob@, 0, n_symbols as nat) is Ok
                    && spec_parse_types_from(data_type_blob@, 0, n_data_types as nat) == Err::<
                    Seq<DataTypeV>,
                    _,
                >(e)),
            },
    {
        let symbols = match parse_symbols(symbol_blob, n_symbols) {
            Ok(s) => s,
            Err(e) => {
                return Err(e);
            },
        };
        let data_types = match parse_data_types(data_type_blob, n_data_types) {
            Ok(t) => t,
            Err(e) => {
                return Err(e);
            },
        };
        Ok(SymbolsAndDataTypes { symbols, data_types })
    }

    /// The symbol table.
    pub fn symbols(&self) -> (r: &Symbols)
        ensures
            r@ == self.symbols@,
    {
        &self.symbols
    }

    /// The data-type table.
    pub fn data_types(&self) -> (r: &DataTypes)
        ensures
            r@ == self.data_types@,
    {
        &self.data_types
    }
}

} // verus!
