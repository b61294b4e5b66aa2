//! Enumerating the concrete leaf paths that satisfy a predicate.
//!
//! For every top-level symbol, either the symbol itself satisfies the
//! predicate — then its name alone is emitted — or its data type is
//! descended: array dimensions multiply the partial paths by every index
//! of their outermost range (inspecting only the first dimension at each
//! level, a deliberate bound on the output for very large nested arrays),
//! and struct fields append `.name` segments.  A field whose type cannot
//! be resolved is skipped silently: this enumeration is best-effort.

use vstd::prelude::*;

use crate::numbers::{format_i32, spec_format_int};
use crate::resolve::{spec_lookup_type, spec_type_base_name};
use crate::schema::{DataType, DataTypeV, SymbolV, SymbolsAndDataTypes};
use crate::text::views_of_strings;

verus! {

broadcast use vstd::std_specs::vec::group_vec_axioms, vstd::seq::group_seq_axioms;

/// One path fragment found under a symbol: array expansions, struct
/// segments, and the matching leaf name at the end.
pub enum Field {
    /// Expand an array dimension over its inclusive range.
    Array((i32, i32), Box<Field>),
    /// Step into a named struct field.
    Flat(String, Box<Field>),
    /// The matching leaf field.
    End(String),
}

/// The mathematical image of a `Field`.
pub enum FieldV {
    Array((i32, i32), Box<FieldV>),
    Flat(Seq<char>, Box<FieldV>),
    End(Seq<char>),
}

/// The image of one `Field`.
pub open spec fn field_view(f: Field) -> FieldV
    decreases f,
{
    match f {
        Field::Array(range, next) => FieldV::Array(range, Box::new(field_view(*next))),
        Field::Flat(name, next) => FieldV::Flat(name@, Box::new(field_view(*next))),
        Field::End(name) => FieldV::End(name@),
    }
}

impl View for Field {
    type V = FieldV;

    open spec fn view(&self) -> FieldV {
        field_view(*self)
    }
}

/// Every start string continued by `[i]` for one index `i`.
pub open spec fn spec_bracketed(starts: Seq<Seq<char>>, i: int) -> Seq<Seq<char>> {
    Seq::new(starts.len(), |j: int| starts[j] + seq!['['] + spec_format_int(i) + seq![']'])
}

/// Every start string expanded over the indices `lo..=hi`, index by
/// index: all starts with `[lo]`, then all with `[lo+1]`, and so on.
pub open spec fn spec_expand_range(starts: Seq<Seq<char>>, lo: int, hi: int) -> Seq<Seq<char>>
    decreases hi + 1 - lo,
{
    if lo > hi {
        Seq::empty()
    } else {
        spec_bracketed(starts, lo) + spec_expand_range(starts, lo + 1, hi)
    }
}

/// Every start string continued by `.word`.
pub open spec fn spec_append_segment(starts: Seq<Seq<char>>, word: Seq<char>) -> Seq<Seq<char>> {
    Seq::new(starts.len(), |j: int| starts[j] + seq!['.'] + word)
}

/// The concrete path strings a fragment expands the start strings into.
pub open spec fn spec_to_strings(f: FieldV, starts: Seq<Seq<char>>) -> Seq<Seq<char>>
    decreases f,
{
    match f {
        FieldV::Array(range, next) => spec_to_strings(
            *next,
            spec_expand_range(starts, range.0 as int, range.1 as int),
        ),
        FieldV::Flat(word, next) => spec_to_strings(*next, spec_append_segment(starts, word)),
        FieldV::End(word) => spec_append_segment(starts, word),
    }
}

impl Field {
    /// Expands this fragment into full path strings beginning with
    /// `start`.
    pub fn to_strings(&self, start: String) -> (r: Vec<String>)
        ensures
            views_of_strings(r@) == spec_to_strings(self@, seq![start@]),
    {
        let ghost start_view = start@;
        let mut output: Vec<String> = Vec::new();
        output.push(start);
        proof {
            assert(views_of_strings(output@) =~= seq![start_view]);
        }
        self.to_string_inner(&mut output);
        output
    }

    /// Expands this fragment over every string in `s`, in place.
    pub fn to_string_inner(&self, s: &mut Vec<String>)
        ensures
            views_of_strings(final(s)@) == spec_to_strings(self@, views_of_strings(old(s)@)),
        decreases *self,
    {
        match self {
            Field::Array(range, next) => {
                let (lo, hi) = *range;
                let mut s_new: Vec<String> = Vec::new();
                proof {
                    assert(views_of_strings(s_new@) + spec_expand_range(
                        views_of_strings(s@),
                        lo as int,
                        hi as int,
                    ) =~= spec_expand_range(views_of_strings(s@), lo as int, hi as int));
                }
                let mut idx: i64 = lo as i64;
                while idx <= hi as i64
                    invariant
                        lo as i64 <= idx,
                        spec_expand_range(views_of_strings(s@), lo as int, hi as int)
                            == views_of_strings(s_new@) + spec_expand_range(
                            views_of_strings(s@),
                            idx as int,
                            hi as int,
                        ),
                    decreases hi as int + 1 - idx,
                {
                    let ghost new_before = views_of_strings(s_new@);
                    let ghost sv = views_of_strings(s@);
                    append_bracketed(&mut s_new, s, idx as i32);
                    proof {
                        assert(spec_expand_range(sv, idx as int, hi as int) == spec_bracketed(
                            sv,
                            idx as int,
                        ) + spec_expand_range(sv, idx + 1, hi as int));
                        assert(new_before + (spec_bracketed(sv, idx as int) + spec_expand_range(
                            sv,
                            idx + 1,
                            hi as int,
                        )) =~= (new_before + spec_bracketed(sv, idx as int)) + spec_expand_range(
                            sv,
                            idx + 1,
                            hi as int,
                        ));
                    }
                    idx = idx + 1;
                }
                proof {
                    assert(views_of_strings(s_new@) + Seq::<Seq<char>>::empty()
                        =~= views_of_strings(s_new@));
                }
                *s = s_new;
                next.to_string_inner(s);
            },
            Field::Flat(word, next) => {
                append_segment(s, word.as_str());
                next.to_string_inner(s);
            },
            Field::End(word) => {
                append_segment(s, word.as_str());
            },
        }
    }
}

/// Appends to `out` every string of `s` continued by `[idx]`.
fn append_bracketed(out: &mut Vec<String>, s: &Vec<String>, idx: i32)
    ensures
        views_of_strings(final(out)@) == views_of_strings(old(out)@) + spec_bracketed(
            views_of_strings(s@),
            idx as int,
        ),
{
    proof {
        reveal_strlit("[");
        reveal_strlit("]");
    }
    let ghost out0 = views_of_strings(out@);
    let n = s.len();
    let mut j: usize = 0;
    while j < n
        invariant
            j <= n,
            n == s@.len(),
            "["@ =~= seq!['['],
            "]"@ =~= seq![']'],
            views_of_strings(out@).len() == out0.len() + j,
            forall|k: int| 0 <= k < out0.len() ==> views_of_strings(out@)[k] == out0[k],
            forall|k: int|
                0 <= k < j ==> views_of_strings(out@)[out0.len() + k] == views_of_strings(s@)[k]
                    + seq!['['] + spec_format_int(idx as int) + seq![']'],
        decreases n - j,
    {
        let ghost before = views_of_strings(out@);
        let mut piece: String = s[j].clone();
        piece.append("[");
        let digits = format_i32(idx);
        piece.append(digits.as_str());
        piece.append("]");
        out.push(piece);
        proof {
            crate::text::lemma_views_of_strings_push(out@.drop_last(), out@.last());
            assert(out@.drop_last() =~= out@.subrange(0, out@.len() - 1));
            assert(views_of_strings(out@) =~= before.push(
                views_of_strings(s@)[j as int] + seq!['['] + spec_format_int(idx as int)
                    + seq![']'],
            ));
        }
        j = j + 1;
    }
    proof {
        assert(views_of_strings(out@) =~= out0 + spec_bracketed(views_of_strings(s@), idx as int));
    }
}

/// Continues every string of `s` by `.word`, in place.
fn append_segment(s: &mut Vec<String>, word: &str)
    ensures
        views_of_strings(final(s)@) == spec_append_segment(views_of_strings(old(s)@), word@),
{
    proof {
        reveal_strlit(".");
    }
    let ghost s0 = views_of_strings(s@);
    let n = s.len();
    let mut j: usize = 0;
    while j < n
        invariant
            j <= n,
            n == s@.len(),
            s@.len() == s0.len(),
            "."@ =~= seq!['.'],
            forall|k: int| j <= k < s0.len() ==> views_of_strings(s@)[k] == s0[k],
            forall|k: int|
                0 <= k < j ==> views_of_strings(s@)[k] == s0[k] + seq!['.'] + word@,
        decreases n - j,
    {
        let ghost prev = s@;
        let mut piece: String = s[j].clone();
        piece.append(".");
        piece.append(word);
        let ghost pv = piece@;
        s.set(j, piece);
        proof {
            assert(views_of_strings(prev)[j as int] == prev[j as int]@);
            assert(pv == s0[j as int] + seq!['.'] + word@);
            assert forall|k: int| 0 <= k < j + 1 implies views_of_strings(s@)[k] == s0[k]
                + seq!['.'] + word@ by {
                if k < j {
                    assert(s@[k] == prev[k]);
                    assert(views_of_strings(s@)[k] == views_of_strings(prev)[k]);
                } else {
                    assert(views_of_strings(s@)[j as int] == pv);
                }
            }
            assert forall|k: int| j + 1 <= k < s0.len() implies views_of_strings(s@)[k]
                == s0[k] by {
                assert(s@[k] == prev[k]);
                assert(views_of_strings(s@)[k] == views_of_strings(prev)[k]);
            }
        }
        j = j + 1;
    }
    proof {
        assert(views_of_strings(s@) =~= spec_append_segment(s0, word@));
    }
}


/// The predicate a flattening query selects leaves by.
pub enum LeafFilter {
    /// Symbols the device retains across restarts.
    Persistent,
    /// Symbols declared with exactly this type name.
    WithDataTypeName(String),
}

/// Whether a symbol satisfies the filter.
pub open spec fn spec_leaf_matches(filter_name: Option<Seq<char>>, sym: SymbolV) -> bool {
    match filter_name {
        None => sym.persistent,
        Some(n) => sym.data_type_name == n,
    }
}

/// The image of a filter: `None` selects persistent symbols, `Some(n)`
/// symbols of declared type `n`.
pub open spec fn filter_view(f: LeafFilter) -> Option<Seq<char>> {
    match f {
        LeafFilter::Persistent => None,
        LeafFilter::WithDataTypeName(n) => Some(n@),
    }
}

impl LeafFilter {
    /// Whether `sym` satisfies this filter.
    fn matches(&self, sym: &crate::schema::Symbol) -> (r: bool)
        ensures
            r == spec_leaf_matches(filter_view(*self), sym@),
    {
        match self {
            LeafFilter::Persistent => sym.persistent,
            LeafFilter::WithDataTypeName(n) => crate::text::str_eq(
                sym.data_type_name.as_str(),
                n.as_str(),
            ),
        }
    }
}

/// Each fragment of `fields` wrapped in one more array expansion.
pub open spec fn spec_wrap_array(range: (i32, i32), fields: Seq<FieldV>) -> Seq<FieldV> {
    Seq::new(fields.len(), |i: int| FieldV::Array(range, Box::new(fields[i])))
}

/// Each fragment of `fields` wrapped in one more struct segment.
pub open spec fn spec_wrap_flat(word: Seq<char>, fields: Seq<FieldV>) -> Seq<FieldV> {
    Seq::new(fields.len(), |i: int| FieldV::Flat(word, Box::new(fields[i])))
}

/// The images of a sequence of fragments, in order.
pub open spec fn views_of_fields(v: Seq<Field>) -> Seq<FieldV> {
    v.map_values(|f: Field| field_view(f))
}

/// The fragments a data type contributes under the filter.  An array
/// type peels only its outermost range and descends into the type its
/// name reduces to after one accessor unit; a struct type emits each
/// matching field and descends into the others.  Descents deeper than
/// `fuel` — deeper than an acyclic directory allows — yield nothing.
pub open spec fn spec_recurse(
    types: Seq<DataTypeV>,
    filter_name: Option<Seq<char>>,
    dt: DataTypeV,
    fuel: nat,
) -> Seq<FieldV>
    decreases fuel, 1nat, 0nat,
{
    if dt.array_ranges.len() > 0 {
        match spec_type_base_name(dt.name, Some(1)) {
            Err(_) => Seq::empty(),
            Ok(base) => match spec_lookup_type(types, base) {
                None => Seq::empty(),
                Some(parent) => if fuel == 0 {
                    Seq::empty()
                } else {
                    spec_wrap_array(
                        dt.array_ranges[0],
                        spec_recurse(types, filter_name, parent, (fuel - 1) as nat),
                    )
                },
            },
        }
    } else {
        spec_recurse_fields(types, filter_name, dt.fields, 0, fuel)
    }
}

/// The fragments the struct fields `i..` contribute under the filter.
pub open spec fn spec_recurse_fields(
    types: Seq<DataTypeV>,
    filter_name: Option<Seq<char>>,
    fields: Seq<SymbolV>,
    i: int,
    fuel: nat,
) -> Seq<FieldV>
    decreases fuel, 0nat, fields.len() - i,
{
    if i < 0 || i >= fields.len() {
        Seq::empty()
    } else {
        let head = if spec_leaf_matches(filter_name, fields[i]) {
            seq![FieldV::End(fields[i].name)]
        } else {
            match spec_lookup_type(types, fields[i].data_type_name) {
                None => Seq::empty(),
                Some(child) => if fuel == 0 {
                    Seq::empty()
                } else {
                    spec_wrap_flat(
                        fields[i].name,
                        spec_recurse(types, filter_name, child, (fuel - 1) as nat),
                    )
                },
            }
        };
        head + spec_recurse_fields(types, filter_name, fields, i + 1, fuel)
    }
}

/// The full flattening: for each top-level symbol in upload order, its
/// bare name when the symbol itself matches, else every leaf path its
/// data type contributes.
pub open spec fn spec_flatten_from(
    symbols: Seq<SymbolV>,
    types: Seq<DataTypeV>,
    filter_name: Option<Seq<char>>,
    i: int,
    fuel: nat,
) -> Seq<Seq<char>>
    decreases symbols.len() - i,
{
    if i < 0 || i >= symbols.len() {
        Seq::empty()
    } else {
        let sym = symbols[i];
        let head = if spec_leaf_matches(filter_name, sym) {
            seq![sym.name]
        } else {
            match spec_lookup_type(types, sym.data_type_name) {
                None => Seq::empty(),
                Some(dt) => spec_strings_of(
                    spec_recurse(types, filter_name, dt, fuel),
                    0,
                    sym.name,
                ),
            }
        };
        head + spec_flatten_from(symbols, types, filter_name, i + 1, fuel)
    }
}

/// The concatenated expansions of the fragments `i..`, each started at
/// `start`.
pub open spec fn spec_strings_of(fields: Seq<FieldV>, i: int, start: Seq<char>) -> Seq<Seq<char>>
    decreases fields.len() - i,
{
    if i < 0 || i >= fields.len() {
        Seq::empty()
    } else {
        spec_to_strings(fields[i], seq![start]) + spec_strings_of(fields, i + 1, start)
    }
}

impl SymbolsAndDataTypes {
    /// Every leaf path under the symbols `i..` that satisfies the
    /// filter.
    fn flatten(&self, filter: &LeafFilter) -> (r: Vec<String>)
        ensures
            views_of_strings(r@) == spec_flatten_from(
                self.symbols@,
                self.data_types@,
                filter_view(*filter),
                0,
                crate::codec::decode_fuel(self.data_types@),
            ),
    {
        let fuel: usize = if self.data_types.entries.len() < usize::MAX {
            self.data_types.entries.len() + 1
        } else {
            usize::MAX
        };
        let ghost fv = filter_view(*filter);
        let n = self.symbols.entries.len();
        let mut output: Vec<String> = Vec::new();
        let mut i: usize = 0;
        proof {
            assert(views_of_strings(output@) + spec_flatten_from(
                self.symbols@,
                self.data_types@,
                fv,
                0,
                fuel as nat,
            ) =~= spec_flatten_from(self.symbols@, self.data_types@, fv, 0, fuel as nat));
        }
        while i < n
            invariant
                i <= n,
                n == self.symbols.entries.len(),
                fv == filter_view(*filter),
                fuel as nat == crate::codec::decode_fuel(self.data_types@),
                spec_flatten_from(self.symbols@, self.data_types@, fv, 0, fuel as nat)
                    == views_of_strings(output@) + spec_flatten_from(
                    self.symbols@,
                    self.data_types@,
                    fv,
                    i as int,
                    fuel as nat,
                ),
            decreases n - i,
        {
            proof {
                assert(self.symbols@[i as int] == self.symbols.entries@[i as int]@);
            }
            let symbol = &self.symbols.entries[i];
            let ghost out_before = views_of_strings(output@);
            if filter.matches(symbol) {
                output.push(symbol.name.clone());
                proof {
                    crate::text::lemma_views_of_strings_push(output@.drop_last(), output@.last());
                    assert(output@.drop_last() =~= output@.subrange(0, output@.len() - 1));
                    assert(views_of_strings(output@) =~= out_before.push(
                        self.symbols@[i as int].name,
                    ));
                    assert(out_before + seq![self.symbols@[i as int].name] =~= out_before.push(
                        self.symbols@[i as int].name,
                    ));
                }
            } else {
                match self.data_types.get(symbol.data_type_name.as_str()) {
                    Err(_) => {
                        proof {
                            assert(views_of_strings(output@) + Seq::<Seq<char>>::empty()
                                =~= views_of_strings(output@));
                        }
                    },
                    Ok(dt) => {
                        let found = self.recurse(filter, dt, fuel);
                        let m = found.len();
                        let ghost fragments = views_of_fields(found@);
                        proof {
                            lemma_views_of_fields(found@);
                            assert(views_of_strings(output@) + spec_strings_of(
                                fragments,
                                0,
                                self.symbols@[i as int].name,
                            ) =~= out_before + spec_strings_of(
                                fragments,
                                0,
                                self.symbols@[i as int].name,
                            ));
                        }
                        let mut j: usize = 0;
                        while j < m
                            invariant
                                j <= m,
                                m == found@.len(),
                                i < n,
                                n == self.symbols.entries.len(),
                                fragments == views_of_fields(found@),
                                fragments.len() == m,
                                forall|k: int|
                                    0 <= k < m ==> fragments[k] == field_view(
                                        #[trigger] found@[k],
                                    ),
                                self.symbols@[i as int] == self.symbols.entries@[i as int]@,
                                views_of_strings(output@) + spec_strings_of(
                                    fragments,
                                    j as int,
                                    self.symbols@[i as int].name,
                                ) == out_before + spec_strings_of(
                                    fragments,
                                    0,
                                    self.symbols@[i as int].name,
                                ),
                            decreases m - j,
                        {
                            let mut expanded = found[j].to_strings(
                                self.symbols.entries[i].name.clone(),
                            );
                            let ghost expanded_view = views_of_strings(expanded@);
                            let ghost out_mid = views_of_strings(output@);
                            append_strings(&mut output, &mut expanded);
                            proof {
                                assert((out_mid + expanded_view) + spec_strings_of(
                                    fragments,
                                    j + 1,
                                    self.symbols@[i as int].name,
                                ) =~= out_mid + (expanded_view + spec_strings_of(
                                    fragments,
                                    j + 1,
                                    self.symbols@[i as int].name,
                                )));
                            }
                            j = j + 1;
                        }
                        proof {
                            assert(views_of_strings(output@) + Seq::<Seq<char>>::empty()
                                =~= views_of_strings(output@));
                        }
                    },
                }
            }
            i = i + 1;
        }
        proof {
            assert(views_of_strings(output@) + Seq::<Seq<char>>::empty() =~= views_of_strings(
                output@,
            ));
        }
        output
    }

    /// Every persistent value's leaf path: the symbol's own name when
    /// the symbol itself is marked persistent, deeper paths otherwise.
    pub fn persistent(&self) -> (r: Vec<String>)
        ensures
            views_of_strings(r@) == spec_flatten_from(
                self.symbols@,
                self.data_types@,
                None,
                0,
                crate::codec::decode_fuel(self.data_types@),
            ),
    {
        self.flatten(&LeafFilter::Persistent)
    }

    /// Every leaf path whose symbol is declared with exactly this type
    /// name.
    pub fn symbols_with_data_type_name(&self, data_type_name: &str) -> (r: Vec<String>)
        ensures
            views_of_strings(r@) == spec_flatten_from(
                self.symbols@,
                self.data_types@,
                Some(data_type_name@),
                0,
                crate::codec::decode_fuel(self.data_types@),
            ),
    {
        self.flatten(&LeafFilter::WithDataTypeName(data_type_name.to_owned()))
    }

    /// The fragments `data_type` contributes under the filter.
    fn recurse(&self, filter: &LeafFilter, data_type: &DataType, fuel: usize) -> (r: Vec<Field>)
        ensures
            views_of_fields(r@) == spec_recurse(
                self.data_types@,
                filter_view(*filter),
                data_type@,
                fuel as nat,
            ),
        decreases fuel, 1nat, 0nat,
    {
        let ghost fv = filter_view(*filter);
        if data_type.array_ranges.len() > 0 {
            let range = data_type.array_ranges[0];
            let parent_name = match crate::resolve::data_type_get_base_name(
                data_type.name.as_str(),
                Some(1),
            ) {
                Ok(p) => p,
                Err(_) => {
                    let empty: Vec<Field> = Vec::new();
                    assert(views_of_fields(empty@) =~= Seq::<FieldV>::empty());
                    return empty;
                },
            };
            let parent = match self.data_types.get(parent_name) {
                Ok(p) => p,
                Err(_) => {
                    let empty: Vec<Field> = Vec::new();
                    assert(views_of_fields(empty@) =~= Seq::<FieldV>::empty());
                    return empty;
                },
            };
            if fuel == 0 {
                let empty: Vec<Field> = Vec::new();
                assert(views_of_fields(empty@) =~= Seq::<FieldV>::empty());
                return empty;
            }
            let inner = self.recurse(filter, parent, fuel - 1);
            wrap_array(range, inner)
        } else {
            let n_fields = data_type.fields.len();
            let mut output: Vec<Field> = Vec::new();
            let mut i: usize = 0;
            proof {
                assert(views_of_fields(output@) + spec_recurse_fields(
                    self.data_types@,
                    fv,
                    data_type@.fields,
                    0,
                    fuel as nat,
                ) =~= spec_recurse_fields(
                    self.data_types@,
                    fv,
                    data_type@.fields,
                    0,
                    fuel as nat,
                ));
            }
            while i < n_fields
                invariant
                    i <= n_fields,
                    n_fields == data_type.fields.len(),
                    fv == filter_view(*filter),
                    spec_recurse_fields(
                        self.data_types@,
                        fv,
                        data_type@.fields,
                        0,
                        fuel as nat,
                    ) == views_of_fields(output@) + spec_recurse_fields(
                        self.data_types@,
                        fv,
                        data_type@.fields,
                        i as int,
                        fuel as nat,
                    ),
                decreases fuel, 0nat, n_fields - i,
            {
                proof {
                    assert(data_type@.fields[i as int] == data_type.fields@[i as int]@);
                }
                let field = &data_type.fields[i];
                let ghost out_before = views_of_fields(output@);
                if filter.matches(field) {
                    output.push(Field::End(field.name.clone()));
                    proof {
                        lemma_views_of_fields_push(output@.drop_last(), output@.last());
                        assert(output@.drop_last() =~= output@.subrange(0, output@.len() - 1));
                        assert(out_before + seq![FieldV::End(data_type@.fields[i as int].name)]
                            =~= out_before.push(FieldV::End(data_type@.fields[i as int].name)));
                    }
                } else {
                    match self.data_types.get(field.data_type_name.as_str()) {
                        Err(_) => {
                            proof {
                                assert(views_of_fields(output@) + Seq::<FieldV>::empty()
                                    =~= views_of_fields(output@));
                            }
                        },
                        Ok(child) => {
                            if fuel == 0 {
                                proof {
                                    assert(views_of_fields(output@) + Seq::<FieldV>::empty()
                                        =~= views_of_fields(output@));
                                }
                            } else {
                                let inner = self.recurse(filter, child, fuel - 1);
                                let mut wrapped = wrap_flat(field.name.clone(), inner);
                                let ghost wrapped_view = views_of_fields(wrapped@);
                                let ghost out_mid = views_of_fields(output@);
                                output.append(&mut wrapped);
                                proof {
                                    assert(views_of_fields(output@) =~= out_mid + wrapped_view);
                                }
                            }
                        },
                    }
                }
                i = i + 1;
            }
            proof {
                assert(views_of_fields(output@) + Seq::<FieldV>::empty() =~= views_of_fields(
                    output@,
                ));
            }
            output
        }
    }
}

/// The image sequence has one image per fragment, in place.
proof fn lemma_views_of_fields(v: Seq<Field>)
    ensures
        views_of_fields(v).len() == v.len(),
        forall|i: int| 0 <= i < v.len() ==> views_of_fields(v)[i] == field_view(#[trigger] v[i]),
{
}

/// Pushing a fragment pushes its image.
proof fn lemma_views_of_fields_push(v: Seq<Field>, f: Field)
    ensures
        views_of_fields(v.push(f)) == views_of_fields(v).push(field_view(f)),
{
    assert(views_of_fields(v.push(f)) =~= views_of_fields(v).push(field_view(f)));
}

/// Moves every string of `extra` to the end of `out`.
fn append_strings(out: &mut Vec<String>, extra: &mut Vec<String>)
    ensures
        views_of_strings(final(out)@) == views_of_strings(old(out)@) + views_of_strings(
            old(extra)@,
        ),
{
    let ghost out0 = out@;
    let ghost extra0 = extra@;
    out.append(extra);
    proof {
        assert(views_of_strings(out@) =~= views_of_strings(out0) + views_of_strings(extra0));
    }
}

/// Wraps every fragment in one more array expansion, preserving order.
fn wrap_array(range: (i32, i32), fields: Vec<Field>) -> (r: Vec<Field>)
    ensures
        views_of_fields(r@) == spec_wrap_array(range, views_of_fields(fields@)),
{
    let ghost fields0 = fields@;
    let mut rest = fields;
    let mut out: Vec<Field> = Vec::new();
    proof {
        lemma_views_of_fields(fields0);
    }
    while rest.len() > 0
        invariant
            out@.len() + rest@.len() == fields0.len(),
            forall|k: int|
                0 <= k < rest@.len() ==> #[trigger] rest@[k] == fields0[out@.len() + k],
            forall|k: int|
                0 <= k < out@.len() ==> field_view(#[trigger] out@[k]) == FieldV::Array(
                    range,
                    Box::new(field_view(fields0[k])),
                ),
        decreases rest@.len(),
    {
        let f = rest.remove(0);
        out.push(Field::Array(range, Box::new(f)));
        proof {
            assert(forall|k: int|
                0 <= k < rest@.len() ==> #[trigger] rest@[k] == fields0[out@.len() + k]);
        }
    }
    proof {
        lemma_views_of_fields(out@);
        lemma_views_of_fields(fields0);
        assert(views_of_fields(out@) =~= spec_wrap_array(range, views_of_fields(fields0)));
    }
    out
}

/// Wraps every fragment in one more struct segment, preserving order.
fn wrap_flat(word: String, fields: Vec<Field>) -> (r: Vec<Field>)
    ensures
        views_of_fields(r@) == spec_wrap_flat(word@, views_of_fields(fields@)),
{
    let ghost fields0 = fields@;
    let ghost word_view = word@;
    let mut rest = fields;
    let mut out: Vec<Field> = Vec::new();
    proof {
        lemma_views_of_fields(fields0);
    }
    while rest.len() > 0
        invariant
            word@ == word_view,
            out@.len() + rest@.len() == fields0.len(),
            forall|k: int|
                0 <= k < rest@.len() ==> #[trigger] rest@[k] == fields0[out@.len() + k],
            forall|k: int|
                0 <= k < out@.len() ==> field_view(#[trigger] out@[k]) == FieldV::Flat(
                    word_view,
                    Box::new(field_view(fields0[k])),
                ),
        decreases rest@.len(),
    {
        let f = rest.remove(0);
        out.push(Field::Flat(word.clone(), Box::new(f)));
        proof {
            assert(forall|k: int|
                0 <= k < rest@.len() ==> #[trigger] rest@[k] == fields0[out@.len() + k]);
        }
    }
    proof {
        lemma_views_of_fields(out@);
        lemma_views_of_fields(fields0);
        assert(views_of_fields(out@) =~= spec_wrap_flat(word_view, views_of_fields(fields0)));
    }
    out
}

/// The leading contribution of one symbol to the flattening.
pub open spec fn spec_flatten_head(
    sym: SymbolV,
    types: Seq<DataTypeV>,
    filter_name: Option<Seq<char>>,
    fuel: nat,
) -> Seq<Seq<char>> {
    if spec_leaf_matches(filter_name, sym) {
        seq![sym.name]
    } else {
        match spec_lookup_type(types, sym.data_type_name) {
            None => Seq::empty(),
            Some(dt) => spec_strings_of(spec_recurse(types, filter_name, dt, fuel), 0, sym.name),
        }
    }
}

} // verus!
