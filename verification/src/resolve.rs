//! Name lookup and symbolic path resolution over the type directory.
//!
//! A path such as `main.kitchen.fridge.middle_shelf[3]` is split at every
//! dot; the first two segments (with trailing accessors stripped from the
//! second) name a top-level symbol, every further segment names a field
//! inside the current struct's data type, and the accessors of the final
//! segment reduce the resolved symbol's declared type dimension by
//! dimension.  Accessors may only appear on the trailing segment:
//! intermediate struct fields are never addressed element-wise.

use vstd::prelude::*;

use crate::array::{
    count_accessors, get_base_name, spec_count_accessors, spec_strip_all, spec_strip_units,
    spec_trim_accessors, trim_accessors,
};
use crate::error::AdsError;
use crate::schema::{
    DataType, DataTypeV, DataTypes, Symbol, SymbolV, Symbols, SymbolsAndDataTypes,
};
use crate::text::{
    rfind_sub, spec_rfind_sub, spec_split, spec_trim, split_at_char, str_eq, trimmed_substring,
    views_of_strings,
};

verus! {

/// The entry for `name` among the uploaded symbols: when the same name was
/// uploaded more than once, the latest record wins, as a keyed upload
/// would have overwritten the earlier one.
pub open spec fn spec_lookup_symbol(entries: Seq<SymbolV>, name: Seq<char>) -> Option<SymbolV>
    decreases entries.len(),
{
    if entries.len() == 0 {
        None
    } else if entries.last().name == name {
        Some(entries.last())
    } else {
        spec_lookup_symbol(entries.drop_last(), name)
    }
}

/// The entry for `name` among the uploaded data types; the latest record
/// wins.
pub open spec fn spec_lookup_type(entries: Seq<DataTypeV>, name: Seq<char>) -> Option<DataTypeV>
    decreases entries.len(),
{
    if entries.len() == 0 {
        None
    } else if entries.last().name == name {
        Some(entries.last())
    } else {
        spec_lookup_type(entries.drop_last(), name)
    }
}

impl Symbols {
    /// Looks up a top-level symbol by its full name.
    pub fn get(&self, name: &str) -> (r: Option<&Symbol>)
        ensures
            match r {
                Some(sym) => spec_lookup_symbol(self@, name@) == Some(sym@),
                None => spec_lookup_symbol(self@, name@) is None,
            },
    {
        let n = self.entries.len();
        let mut i = n;
        assert(self@.take(n as int) =~= self@);
        while i > 0
            invariant
                i <= n,
                n == self.entries.len(),
                spec_lookup_symbol(self@, name@) == spec_lookup_symbol(
                    self@.take(i as int),
                    name@,
                ),
            decreases i,
        {
            proof {
                assert(self@.take(i as int).last() == self@[i - 1]);
                assert(self@.take(i as int).drop_last() =~= self@.take(i - 1));
            }
            if str_eq(self.entries[i - 1].name.as_str(), name) {
                return Some(&self.entries[i - 1]);
            }
            i = i - 1;
        }
        proof {
            assert(self@.take(0) =~= Seq::<SymbolV>::empty());
        }
        None
    }
}

impl DataTypes {
    /// Looks up a data type by name; its absence is a lookup error.
    pub fn get(&self, name: &str) -> (r: Result<&DataType, AdsError>)
        ensures
            match r {
                Ok(dt) => spec_lookup_type(self@, name@) == Some(dt@),
                Err(e) => spec_lookup_type(self@, name@) is None && e == AdsError::NotFound,
            },
    {
        let n = self.entries.len();
        let mut i = n;
        assert(self@.take(n as int) =~= self@);
        while i > 0
            invariant
                i <= n,
                n == self.entries.len(),
                spec_lookup_type(self@, name@) == spec_lookup_type(self@.take(i as int), name@),
            decreases i,
        {
            proof {
                assert(self@.take(i as int).last() == self@[i - 1]);
                assert(self@.take(i as int).drop_last() =~= self@.take(i - 1));
            }
            if str_eq(self.entries[i - 1].name.as_str(), name) {
                return Ok(&self.entries[i - 1]);
            }
            i = i - 1;
        }
        proof {
            assert(self@.take(0) =~= Seq::<DataTypeV>::empty());
        }
        Err(AdsError::NotFound)
    }
}

/// The base type name a declared type name reduces to: accessors stripped
/// (all of them for `None`, exactly `n` units for `Some(n)`), and for
/// subrange types everything up to the last ` TO ` removed.
pub open spec fn spec_type_base_name(s: Seq<char>, n: Option<int>) -> Result<Seq<char>, AdsError> {
    let stripped = match n {
        Some(k) => spec_strip_units(s, k),
        None => Ok(spec_strip_all(s)),
    };
    match stripped {
        Ok(b) => Ok(
            match spec_rfind_sub(b, " TO "@) {
                Some(k) => spec_trim(b.subrange(k + 4, b.len() as int)),
                None => b,
            },
        ),
        Err(e) => Err(e),
    }
}

/// Reduces a declared type name to the base type name it denotes after
/// `n_accessors` accessor units (all of them when `None`).
pub fn data_type_get_base_name<'a>(data_type: &'a str, n_accessors: Option<usize>) -> (r: Result<
    &'a str,
    AdsError,
>)
    ensures
        ({
            let n_spec = match n_accessors {
                Some(k) => Some(k as int),
                None => None,
            };
            match r {
                Ok(b) => spec_type_base_name(data_type@, n_spec) == Ok::<_, AdsError>(b@),
                Err(e) => spec_type_base_name(data_type@, n_spec) == Err::<Seq<char>, _>(e),
            }
        }),
{
    proof {
        reveal_strlit(" TO ");
    }
    let base = match get_base_name(data_type, n_accessors) {
        Ok(b) => b,
        Err(e) => {
            return Err(e);
        },
    };
    match rfind_sub(base, " TO ") {
        Some(k) => {
            let len = base.unicode_len();
            Ok(trimmed_substring(base, k + 4, len))
        },
        None => Ok(base),
    }
}

impl DataTypes {
    /// The data type a whole declared array type reduces to.
    pub fn data_type_get_base_type(&self, data_type: &DataType) -> (r: Result<&DataType, AdsError>)
        ensures
            match r {
                Ok(dt) => spec_lookup_type(self@, spec_type_base_name(data_type@.name, None)->Ok_0)
                    == Some(dt@),
                Err(e) => spec_lookup_type(
                    self@,
                    spec_type_base_name(data_type@.name, None)->Ok_0,
                ) is None && e == AdsError::NotFound,
            },
    {
        let base = match data_type_get_base_name(data_type.name.as_str(), None) {
            Ok(b) => b,
            Err(_) => {
                // Stripping every accessor never fails.
                proof {
                    assert(false);
                }
                return Err(AdsError::NotFound);
            },
        };
        self.get(base)
    }

    /// The data type a symbol's declared type reduces to after
    /// `n_accessors` accessor units.
    pub fn symbol_get_base_type(&self, symbol: &Symbol, n_accessors: Option<usize>) -> (r: Result<
        &DataType,
        AdsError,
    >)
        ensures
            ({
                let n_spec = match n_accessors {
                    Some(k) => Some(k as int),
                    None => None,
                };
                match r {
                    Ok(dt) => spec_type_base_name(symbol@.data_type_name, n_spec) matches Ok(base)
                        && spec_lookup_type(self@, base) == Some(dt@),
                    Err(e) => (spec_type_base_name(symbol@.data_type_name, n_spec) == Err::<
                        Seq<char>,
                        _,
                    >(e)) || (spec_type_base_name(symbol@.data_type_name, n_spec) matches Ok(base)
                        && spec_lookup_type(self@, base) is None && e == AdsError::NotFound),
                }
            }),
    {
        let base = match data_type_get_base_name(symbol.data_type_name.as_str(), n_accessors) {
            Ok(b) => b,
            Err(e) => {
                return Err(e);
            },
        };
        self.get(base)
    }
}

/// The first field of `fields` named `name`.
pub open spec fn spec_find_field(fields: Seq<SymbolV>, name: Seq<char>) -> Option<SymbolV>
    decreases fields.len(),
{
    if fields.len() == 0 {
        None
    } else if fields[0].name == name {
        Some(fields[0])
    } else {
        spec_find_field(fields.drop_first(), name)
    }
}

/// Walks the remaining path segments `tokens[i..]` down through struct
/// fields, starting from `current`.  Each segment (accessors stripped)
/// must name a field of the current symbol's base data type.
pub open spec fn spec_walk_fields(
    types: Seq<DataTypeV>,
    current: SymbolV,
    tokens: Seq<Seq<char>>,
    i: int,
) -> Result<SymbolV, AdsError>
    decreases tokens.len() - i,
{
    if i < 0 || i >= tokens.len() {
        Ok(current)
    } else {
        let token_base = spec_trim_accessors(tokens[i]);
        match spec_lookup_type(types, spec_type_base_name(current.data_type_name, None)->Ok_0) {
            None => Err(AdsError::NotFound),
            Some(parent) => match spec_find_field(parent.fields, token_base) {
                None => Err(AdsError::NotFound),
                Some(field) => spec_walk_fields(types, field, tokens, i + 1),
            },
        }
    }
}

/// The symbol a path resolves to: the first two segments (accessors
/// stripped from the second) name a top-level symbol, every further
/// segment a struct field.
pub open spec fn spec_get_symbol(
    symbols: Seq<SymbolV>,
    types: Seq<DataTypeV>,
    path: Seq<char>,
) -> Result<SymbolV, AdsError> {
    let tokens = spec_split(path, '.');
    let entry_name = if tokens.len() == 1 {
        tokens[0]
    } else {
        tokens[0] + seq!['.'] + spec_trim_accessors(tokens[1])
    };
    match spec_lookup_symbol(symbols, entry_name) {
        None => Err(AdsError::NotFound),
        Some(sym) => spec_walk_fields(types, sym, tokens, 2),
    }
}

/// The symbol and effective data type a path resolves to.  When the final
/// segment carries accessors, the symbol's declared type is reduced by
/// that many accessor units; otherwise the declared type itself is looked
/// up.
pub open spec fn spec_resolve(
    symbols: Seq<SymbolV>,
    types: Seq<DataTypeV>,
    path: Seq<char>,
) -> Result<(SymbolV, DataTypeV), AdsError> {
    match spec_get_symbol(symbols, types, path) {
        Err(e) => Err(e),
        Ok(sym) => {
            let n = spec_count_accessors(path);
            if n > 0 {
                match spec_type_base_name(sym.data_type_name, Some(n)) {
                    Err(e) => Err(e),
                    Ok(base) => match spec_lookup_type(types, base) {
                        None => Err(AdsError::NotFound),
                        Some(dt) => Ok((sym, dt)),
                    },
                }
            } else {
                match spec_lookup_type(types, sym.data_type_name) {
                    None => Err(AdsError::NotFound),
                    Some(dt) => Ok((sym, dt)),
                }
            }
        },
    }
}

impl DataType {
    /// The first field of this struct type with the given name.
    pub fn find_field(&self, name: &str) -> (r: Option<&Symbol>)
        ensures
            match r {
                Some(f) => spec_find_field(self@.fields, name@) == Some(f@),
                None => spec_find_field(self@.fields, name@) is None,
            },
    {
        let n = self.fields.len();
        let mut j: usize = 0;
        assert(self@.fields.skip(0) =~= self@.fields);
        while j < n
            invariant
                j <= n,
                n == self.fields.len(),
                spec_find_field(self@.fields, name@) == spec_find_field(
                    self@.fields.skip(j as int),
                    name@,
                ),
            decreases n - j,
        {
            proof {
                assert(self@.fields.skip(j as int)[0] == self@.fields[j as int]);
                assert(self@.fields.skip(j as int).drop_first() =~= self@.fields.skip(j + 1));
                assert(self@.fields[j as int] == self.fields@[j as int]@);
            }
            if str_eq(self.fields[j].name.as_str(), name) {
                return Some(&self.fields[j]);
            }
            j = j + 1;
        }
        proof {
            assert(self@.fields.skip(n as int) =~= Seq::<SymbolV>::empty());
        }
        None
    }
}

impl SymbolsAndDataTypes {
    /// Resolves a dotted path to the symbol it names, walking nested
    /// struct fields.
    pub fn get_symbol(&self, value_name: &str) -> (r: Result<&Symbol, AdsError>)
        ensures
            match r {
                Ok(sym) => spec_get_symbol(self.symbols@, self.data_types@, value_name@) == Ok::<
                    _,
                    AdsError,
                >(sym@),
                Err(e) => spec_get_symbol(self.symbols@, self.data_types@, value_name@) == Err::<
                    SymbolV,
                    _,
                >(e),
            },
    {
        let tokens = split_at_char(value_name, '.');
        let ghost tokens_spec = spec_split(value_name@, '.');
        let entry_name: String = if tokens.len() == 1 {
            proof {
                assert(views_of_strings(tokens@)[0] == tokens_spec[0]);
            }
            let t: &String = &tokens[0];
            t.clone()
        } else {
            proof {
                assert(views_of_strings(tokens@)[0] == tokens_spec[0]);
                assert(views_of_strings(tokens@)[1] == tokens_spec[1]);
            }
            let mut name = tokens[0].clone();
            name.append(".");
            let two_base = trim_accessors(tokens[1].as_str());
            name.append(two_base.as_str());
            proof {
                reveal_strlit(".");
                assert("."@ =~= seq!['.']);
                assert(name@ == tokens_spec[0] + seq!['.'] + spec_trim_accessors(tokens_spec[1]));
            }
            name
        };
        let mut symbol_entry: &Symbol = match self.symbols.get(entry_name.as_str()) {
            Some(sym) => sym,
            None => {
                return Err(AdsError::NotFound);
            },
        };
        let n = tokens.len();
        let mut i: usize = 2;
        while i < n
            invariant
                2 <= i,
                n == tokens@.len(),
                views_of_strings(tokens@) == tokens_spec,
                spec_get_symbol(self.symbols@, self.data_types@, value_name@) == spec_walk_fields(
                    self.data_types@,
                    symbol_entry@,
                    tokens_spec,
                    i as int,
                ),
            decreases n - i,
        {
            proof {
                assert(views_of_strings(tokens@)[i as int] == tokens_spec[i as int]);
            }
            let token_base = trim_accessors(tokens[i].as_str());
            let parent = match self.data_types.symbol_get_base_type(symbol_entry, None) {
                Ok(p) => p,
                Err(e) => {
                    return Err(e);
                },
            };
            match parent.find_field(token_base.as_str()) {
                Some(f) => {
                    symbol_entry = f;
                },
                None => {
                    return Err(AdsError::NotFound);
                },
            }
            i = i + 1;
        }
        Ok(symbol_entry)
    }

    /// Resolves a dotted path to its symbol and the effective data type
    /// after the final segment's array accessors.
    pub fn get_symbol_and_data_type(&self, value_name: &str) -> (r: Result<
        (&Symbol, &DataType),
        AdsError,
    >)
        ensures
            match r {
                Ok((sym, dt)) => spec_resolve(self.symbols@, self.data_types@, value_name@) == Ok::<
                    _,
                    AdsError,
                >((sym@, dt@)),
                Err(e) => spec_resolve(self.symbols@, self.data_types@, value_name@) == Err::<
                    (SymbolV, DataTypeV),
                    _,
                >(e),
            },
    {
        let symbol = match self.get_symbol(value_name) {
            Ok(s) => s,
            Err(e) => {
                return Err(e);
            },
        };
        let n_accessors = count_accessors(value_name);
        if n_accessors > 0 {
            match self.data_types.symbol_get_base_type(symbol, Some(n_accessors)) {
                Ok(dt) => Ok((symbol, dt)),
                Err(e) => Err(e),
            }
        } else {
            match self.data_types.get(symbol.data_type_name.as_str()) {
                Ok(dt) => Ok((symbol, dt)),
                Err(e) => Err(e),
            }
        }
    }
}

} // verus!
