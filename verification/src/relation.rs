use vstd::prelude::*;
use crate::numeric::{is_float_literal, is_valid_numeric};
use crate::schema::{
    code_of, spec_code_of, spec_parse_attr_type, ArffError, AttrFormatView, AttrTypeView,
    AttributeFormat, AttributeType, ErrView,
};
use crate::text::{
    chars_eq_str, chars_of, join_from, spec_join_from, spec_split, spec_trim, split_char,
    string_of, strings_view, trim,
};
use crate::tokenize::{next_quoted, spec_next_quoted};

verus! {

/// One field of a decoded data row. A numeric observation carries the
/// field's literal text, already validated against the floating-point
/// grammar; turning it into a machine float is the caller's concern. A
/// nominal observation carries the declared value's stable code.
#[derive(Debug)]
pub enum Value {
    Numeric(String),
    Nominal(usize),
    Missing,
}

pub enum ValueView {
    Numeric(Seq<char>),
    Nominal(int),
    Missing,
}

impl View for Value {
    type V = ValueView;

    open spec fn view(&self) -> ValueView {
        match self {
            Value::Numeric(s) => ValueView::Numeric(s@),
            Value::Nominal(c) => ValueView::Nominal(*c as int),
            Value::Missing => ValueView::Missing,
        }
    }
}

impl PartialEq for Value {
    fn eq(&self, other: &Value) -> (r: bool) {
        match (self, other) {
            (Value::Numeric(a), Value::Numeric(b)) => *a == *b,
            (Value::Nominal(a), Value::Nominal(b)) => *a == *b,
            (Value::Missing, Value::Missing) => true,
            _ => false,
        }
    }
}

impl vstd::std_specs::cmp::PartialEqSpecImpl for Value {
    open spec fn obeys_eq_spec() -> bool {
        true
    }

    open spec fn eq_spec(&self, other: &Value) -> bool {
        self@ == other@
    }
}

impl Value {
    /// A copy holding the same observation.
    pub fn duplicate(&self) -> (r: Value)
        ensures
            r@ == self@,
    {
        match self {
            Value::Numeric(s) => Value::Numeric(s.clone()),
            Value::Nominal(c) => Value::Nominal(*c),
            Value::Missing => Value::Missing,
        }
    }
}

pub open spec fn row_view(r: Seq<Value>) -> Seq<ValueView> {
    r.map_values(|v: Value| v@)
}

pub open spec fn data_view(d: Seq<Vec<Value>>) -> Seq<Seq<ValueView>> {
    d.map_values(|r: Vec<Value>| row_view(r@))
}

pub open spec fn schema_view(s: Seq<AttributeFormat>) -> Seq<AttrFormatView> {
    s.map_values(|a: AttributeFormat| a@)
}

/// The fully-loaded dataset: origin filename, relation name, ordered
/// schema, and the ordered row store.
#[derive(Debug)]
pub struct Relation {
    pub filename: String,
    pub name: String,
    data: Vec<Vec<Value>>,
    schema: Vec<AttributeFormat>,
}

pub struct RelationView {
    pub filename: Seq<char>,
    pub name: Seq<char>,
    pub data: Seq<Seq<ValueView>>,
    pub schema: Seq<AttrFormatView>,
}

impl View for Relation {
    type V = RelationView;

    closed spec fn view(&self) -> RelationView {
        RelationView {
            filename: self.filename@,
            name: self.name@,
            data: data_view(self.data@),
            schema: schema_view(self.schema@),
        }
    }
}

/// Whether a decoded field fits its column's type.
pub open spec fn value_ok(v: ValueView, t: AttrTypeView) -> bool {
    match (v, t) {
        (ValueView::Missing, _) => true,
        (ValueView::Numeric(s), AttrTypeView::Numeric) => is_float_literal(s),
        (ValueView::Nominal(c), AttrTypeView::Nominal(vals)) => 0 <= c < vals.len(),
        _ => false,
    }
}

impl RelationView {
    /// Every row is exactly as wide as the schema, every nominal set is
    /// well formed, and every stored field fits its column.
    pub open spec fn wf(self) -> bool {
        &&& (forall|i: int| 0 <= i < self.data.len() ==> (#[trigger] self.data[i]).len()
            == self.schema.len())
        &&& (forall|k: int|
            0 <= k < self.schema.len() ==> (#[trigger] self.schema[k]).attr_type.wf())
        &&& (forall|i: int, k: int|
            0 <= i < self.data.len() && 0 <= k < self.schema.len() ==> value_ok(
                #[trigger] self.data[i][k],
                self.schema[k].attr_type,
            ))
    }
}

/// How one header line reads: dispatch on its first space-separated token.
/// The returned flag says whether the header has concluded.
pub open spec fn spec_header_step(rel: RelationView, line: Seq<char>) -> Result<
    (RelationView, bool),
    ErrView,
> {
    let frags = spec_split(line, ' ');
    let first = frags[0];
    if first == "@relation"@ {
        match spec_next_quoted(frags, 1, ' ') {
            Some((nm, j)) => Ok((RelationView { name: nm, ..rel }, false)),
            None => Err(ErrView::NoRelationName),
        }
    } else if first == "@attribute"@ {
        match spec_next_quoted(frags, 1, ' ') {
            None => Err(ErrView::NoAttributeName),
            Some((nm, j)) => {
                let type_str = spec_trim(spec_join_from(frags, j, ' '));
                match spec_parse_attr_type(type_str) {
                    Ok(t) => Ok(
                        (
                            RelationView {
                                schema: rel.schema.push(
                                    AttrFormatView { name: nm, attr_type: t },
                                ),
                                ..rel
                            },
                            false,
                        ),
                    ),
                    Err(e) => Err(e),
                }
            },
        }
    } else if first == "@data"@ {
        Ok((rel, true))
    } else if first.len() == 0 {
        Ok((rel, false))
    } else {
        Err(ErrView::UnrecognizedToken(first))
    }
}

/// How one trimmed field reads against its column's type: the missing
/// marker, a validated numeric literal, or a declared nominal value.
pub open spec fn spec_decode_field(f: Seq<char>, t: AttrTypeView) -> Result<ValueView, ErrView> {
    if f == "?"@ {
        Ok(ValueView::Missing)
    } else {
        match t {
            AttrTypeView::Numeric => if is_float_literal(f) {
                Ok(ValueView::Numeric(f))
            } else {
                Err(ErrView::UnparseableNumeric(f))
            },
            AttrTypeView::Nominal(vals) => match spec_code_of(vals, f, 0) {
                Some(c) => Ok(ValueView::Nominal(c)),
                None => Err(ErrView::UnknownValue(f)),
            },
        }
    }
}

/// Converts fields positionally against schema columns, left to right,
/// stopping at the shorter of the two; the first failure wins.
pub open spec fn spec_convert(
    fields: Seq<Seq<char>>,
    schema: Seq<AttrFormatView>,
    i: int,
) -> Result<Seq<ValueView>, ErrView>
    decreases fields.len() - i,
    when 0 <= i
{
    if i >= fields.len() || i >= schema.len() {
        Ok(Seq::empty())
    } else {
        match spec_decode_field(spec_trim(fields[i]), schema[i].attr_type) {
            Err(e) => Err(e),
            Ok(v) => match spec_convert(fields, schema, i + 1) {
                Ok(rest) => Ok(seq![v] + rest),
                Err(e) => Err(e),
            },
        }
    }
}

/// How one data line reads against the schema: comma-split fields, each
/// trimmed and converted; the field count must equal the schema's width.
pub open spec fn spec_decode_row(schema: Seq<AttrFormatView>, line: Seq<char>) -> Result<
    Seq<ValueView>,
    ErrView,
> {
    let fields = spec_split(line, ',');
    match spec_convert(fields, schema, 0) {
        Err(e) => Err(e),
        Ok(row) => if fields.len() == schema.len() {
            Ok(row)
        } else {
            Err(ErrView::WidthMismatch(fields.len() as int, schema.len() as int))
        },
    }
}

/// A relation before any line was processed: the origin filename alone.
pub open spec fn spec_empty_relation(filename: Seq<char>) -> RelationView {
    RelationView {
        filename,
        name: Seq::<char>::empty(),
        data: Seq::<Seq<ValueView>>::empty(),
        schema: Seq::<AttrFormatView>::empty(),
    }
}

impl Relation {
    /// A relation with no name, schema or rows yet.
    pub fn new(filename: &str) -> (r: Relation)
        ensures
            r@ == spec_empty_relation(filename@),
    {
        let r = Relation {
            filename: filename.to_owned(),
            name: String::new(),
            data: Vec::new(),
            schema: Vec::new(),
        };
        proof {
            assert(data_view(r.data@) =~= Seq::<Seq<ValueView>>::empty());
            assert(schema_view(r.schema@) =~= Seq::<AttrFormatView>::empty());
        }
        r
    }

    /// Processes one comment-stripped header line; `Ok(true)` says the
    /// header has concluded.
    #[verifier::loop_isolation(false)]
    pub fn load_header_line(&mut self, line: &str) -> (r: Result<bool, ArffError>)
        ensures
            match r {
                Ok(done) => spec_header_step(old(self)@, line@) == Ok::<
                    (RelationView, bool),
                    ErrView,
                >((final(self)@, done)),
                Err(e) => spec_header_step(old(self)@, line@) == Err::<
                    (RelationView, bool),
                    ErrView,
                >(e@) && final(self)@ == old(self)@,
            },
    {
        let cs = chars_of(line);
        let frags = split_char(&cs, ' ');
        let ghost fv = spec_split(line@, ' ');
        proof {
            crate::text::lemma_split_len(line@, ' ');
            assert(fv[0] == frags@[0]@);
        }
        let first = &frags[0];
        if chars_eq_str(first, "@relation") {
            match next_quoted(&frags, 1, ' ') {
                Some((nm, _next)) => {
                    self.name = string_of(&nm);
                    Ok(false)
                },
                None => Err(ArffError::NoRelationName),
            }
        } else if chars_eq_str(first, "@attribute") {
            match next_quoted(&frags, 1, ' ') {
                None => Err(ArffError::NoAttributeName),
                Some((nm, next)) => {
                    let joined = join_from(&frags, next, ' ');
                    let type_chars = trim(&joined);
                    let type_str = string_of(&type_chars);
                    match AttributeType::parse_schema(type_str.as_str()) {
                        Ok(t) => {
                            let ghost schema0 = schema_view(self.schema@);
                            self.schema.push(
                                AttributeFormat { name: string_of(&nm), attr_type: t },
                            );
                            proof {
                                assert(schema_view(self.schema@) =~= schema0.push(
                                    self.schema@.last()@,
                                ));
                            }
                            Ok(false)
                        },
                        Err(e) => Err(e),
                    }
                },
            }
        } else if chars_eq_str(first, "@data") {
            Ok(true)
        } else if first.len() == 0 {
            Ok(false)
        } else {
            Err(ArffError::UnrecognizedToken(string_of(first)))
        }
    }

    /// Decodes one data line against the finished schema and appends the
    /// row, or reports the first failure and leaves the relation unchanged.
    #[verifier::loop_isolation(false)]
    pub fn load_data_line(&mut self, line: &str) -> (r: Result<(), ArffError>)
        ensures
            match r {
                Ok(_) => spec_decode_row(old(self)@.schema, line@) matches Ok(row) && final(self)@
                    == (RelationView { data: old(self)@.data.push(row), ..old(self)@ }),
                Err(e) => spec_decode_row(old(self)@.schema, line@) == Err::<
                    Seq<ValueView>,
                    ErrView,
                >(e@) && final(self)@ == old(self)@,
            },
    {
        let cs = chars_of(line);
        let fields = split_char(&cs, ',');
        let ghost fv = spec_split(line@, ',');
        let ghost sv = schema_view(self.schema@);
        let min: usize = if fields.len() < self.schema.len() {
            fields.len()
        } else {
            self.schema.len()
        };
        let mut row: Vec<Value> = Vec::new();
        let mut i: usize = 0;
        proof {
            assert(seq![] + row_view(row@) =~= row_view(row@));
        }
        while i < min
            invariant
                i <= min,
                min <= fields@.len(),
                min <= self.schema@.len(),
                row@.len() == i,
                spec_convert(fv, sv, 0) matches Ok(whole) ==> spec_convert(fv, sv, i as int)
                    matches Ok(rest) && whole == row_view(row@) + rest,
                spec_convert(fv, sv, 0) matches Err(e) ==> spec_convert(fv, sv, i as int)
                    == Err::<Seq<ValueView>, ErrView>(e),
            decreases min - i,
        {
            proof {
                assert(fv[i as int] == fields@[i as int]@);
                assert(sv[i as int] == self.schema@[i as int]@);
            }
            let field = trim(&fields[i]);
            let ghost fd = spec_decode_field(spec_trim(fv[i as int]), sv[i as int].attr_type);
            let v: Value;
            if chars_eq_str(&field, "?") {
                v = Value::Missing;
            } else {
                match &self.schema[i].attr_type {
                    AttributeType::Numeric => {
                        if is_valid_numeric(&field) {
                            v = Value::Numeric(string_of(&field));
                        } else {
                            proof {
                                assert(fd == Err::<ValueView, ErrView>(
                                    ErrView::UnparseableNumeric(spec_trim(fv[i as int])),
                                ));
                            }
                            return Err(ArffError::UnparseableNumeric(string_of(&field)));
                        }
                    },
                    AttributeType::Nominal(vals) => {
                        match code_of(vals, &field) {
                            Some(c) => {
                                v = Value::Nominal(c);
                            },
                            None => {
                                proof {
                                    assert(fd == Err::<ValueView, ErrView>(ErrView::UnknownValue(
                                        spec_trim(fv[i as int]),
                                    )));
                                }
                                return Err(ArffError::UnknownValue(string_of(&field)));
                            },
                        }
                    },
                }
            }
            proof {
                assert(fd == Ok::<ValueView, ErrView>(v@));
            }
            let ghost row0 = row@;
            row.push(v);
            proof {
                assert(row_view(row@) =~= row_view(row0).push(v@));
                if spec_convert(fv, sv, 0) is Ok {
                    let rest = spec_convert(fv, sv, i as int)->Ok_0;
                    assert(spec_convert(fv, sv, i as int) == Ok::<Seq<ValueView>, ErrView>(
                        seq![v@] + spec_convert(fv, sv, i as int + 1)->Ok_0,
                    ));
                    assert(row_view(row0) + (seq![v@] + spec_convert(fv, sv, i as int + 1)->Ok_0)
                        =~= row_view(row@) + spec_convert(fv, sv, i as int + 1)->Ok_0);
                }
            }
            i = i + 1;
        }
        proof {
            assert(spec_convert(fv, sv, min as int) == Ok::<Seq<ValueView>, ErrView>(
                Seq::<ValueView>::empty(),
            ));
            assert(spec_convert(fv, sv, 0) is Ok);
            assert(row_view(row@) + Seq::<ValueView>::empty() =~= row_view(row@));
            assert(spec_convert(fv, sv, 0) == Ok::<Seq<ValueView>, ErrView>(row_view(row@)));
        }
        if fields.len() != self.schema.len() {
            return Err(ArffError::WidthMismatch(fields.len(), self.schema.len()));
        }
        let ghost data0 = data_view(self.data@);
        self.data.push(row);
        proof {
            assert(data_view(self.data@) =~= data0.push(row_view(self.data@.last()@)));
        }
        Ok(())
    }
}

/// A found value name's code lies among the declared names.
pub proof fn lemma_code_of_range(vals: Seq<Seq<char>>, f: Seq<char>, n: int)
    requires
        0 <= n,
    ensures
        spec_code_of(vals, f, n) matches Some(c) ==> n <= c < vals.len(),
    decreases vals.len() - n,
{
    if n < vals.len() && vals[n] != f {
        lemma_code_of_range(vals, f, n + 1);
    }
}

/// Converted fields cover the shorter of the two sequences and each fits
/// its column.
pub proof fn lemma_convert_ok(fields: Seq<Seq<char>>, schema: Seq<AttrFormatView>, i: int)
    requires
        0 <= i,
    ensures
        spec_convert(fields, schema, i) matches Ok(rest) ==> {
            &&& i + rest.len() == vstd::math::min(fields.len() as int, schema.len() as int)
                || (i >= fields.len() || i >= schema.len())
            &&& (forall|k: int|
                0 <= k < rest.len() ==> value_ok(#[trigger] rest[k], schema[i + k].attr_type))
        },
    decreases fields.len() - i,
{
    if i < fields.len() && i < schema.len() {
        if spec_decode_field(spec_trim(fields[i]), schema[i].attr_type) is Ok {
            lemma_convert_ok(fields, schema, i + 1);
            match schema[i].attr_type {
                AttrTypeView::Nominal(vals) => {
                    lemma_code_of_range(vals, spec_trim(fields[i]), 0);
                },
                AttrTypeView::Numeric => {},
            }
        }
    }
}

/// A decoded row is exactly as wide as the schema and each of its values
/// fits its column.
pub proof fn lemma_decode_row_wf(schema: Seq<AttrFormatView>, line: Seq<char>)
    ensures
        spec_decode_row(schema, line) matches Ok(row) ==> row.len() == schema.len() && (forall|
            k: int,
        | 0 <= k < row.len() ==> value_ok(#[trigger] row[k], schema[k].attr_type)),
{
    lemma_convert_ok(spec_split(line, ','), schema, 0);
}

/// No duplicate was found from `n` on, so no token from `n` on repeats an
/// earlier one.
proof fn lemma_first_dup_none(toks: Seq<Seq<char>>, n: int)
    requires
        0 <= n,
        crate::schema::first_dup(toks, n) is None,
    ensures
        forall|m: int, k: int| 0 <= m < k < toks.len() && n <= k ==> toks[m] != toks[k],
    decreases toks.len() - n,
{
    if n < toks.len() {
        lemma_first_dup_none(toks, n + 1);
    }
}

/// A parsed attribute type is well formed.
pub proof fn lemma_parse_attr_type_wf(s: Seq<char>)
    ensures
        spec_parse_attr_type(s) matches Ok(t) ==> t.wf(),
{
    match spec_parse_attr_type(s) {
        Ok(AttrTypeView::Nominal(toks)) => {
            lemma_first_dup_none(toks, 0);
        },
        _ => {},
    }
}

/// A header step keeps the relation well formed and its row store empty.
pub proof fn lemma_header_step_wf(rel: RelationView, line: Seq<char>)
    requires
        rel.wf(),
        rel.data.len() == 0,
    ensures
        spec_header_step(rel, line) matches Ok((r2, done)) ==> r2.wf() && r2.data.len() == 0,
{
    let frags = spec_split(line, ' ');
    if frags[0] == "@attribute"@ {
        match spec_next_quoted(frags, 1, ' ') {
            Some((nm, j)) => {
                lemma_parse_attr_type_wf(spec_trim(spec_join_from(frags, j, ' ')));
            },
            None => {},
        }
    }
}

/// One forward pass from line `i` on: header lines accumulate name and
/// schema until one concludes the header, and every later line must decode
/// as a data row; the first failure aborts the whole load.
pub open spec fn spec_load_from(
    rel: RelationView,
    in_header: bool,
    lines: Seq<Seq<char>>,
    i: int,
) -> Result<RelationView, ErrView>
    decreases lines.len() - i,
    when 0 <= i
{
    if i >= lines.len() {
        Ok(rel)
    } else if in_header {
        match spec_header_step(rel, lines[i]) {
            Err(e) => Err(e),
            Ok((r2, done)) => spec_load_from(r2, !done, lines, i + 1),
        }
    } else {
        match spec_decode_row(rel.schema, lines[i]) {
            Err(e) => Err(e),
            Ok(row) => spec_load_from(
                RelationView { data: rel.data.push(row), ..rel },
                false,
                lines,
                i + 1,
            ),
        }
    }
}

/// What loading comment-stripped lines yields: the relation, or the first
/// failure; no partial relation on failure.
pub open spec fn spec_load(filename: Seq<char>, lines: Seq<Seq<char>>) -> Result<
    RelationView,
    ErrView,
> {
    spec_load_from(spec_empty_relation(filename), true, lines, 0)
}

/// Whatever the load yields is well formed.
pub proof fn lemma_load_from_wf(
    rel: RelationView,
    in_header: bool,
    lines: Seq<Seq<char>>,
    i: int,
)
    requires
        0 <= i,
        rel.wf(),
        in_header ==> rel.data.len() == 0,
    ensures
        spec_load_from(rel, in_header, lines, i) matches Ok(r2) ==> r2.wf(),
    decreases lines.len() - i,
{
    if i < lines.len() {
        if in_header {
            lemma_header_step_wf(rel, lines[i]);
            match spec_header_step(rel, lines[i]) {
                Ok((r2, done)) => {
                    lemma_load_from_wf(r2, !done, lines, i + 1);
                },
                Err(_) => {},
            }
        } else {
            lemma_decode_row_wf(rel.schema, lines[i]);
            match spec_decode_row(rel.schema, lines[i]) {
                Ok(row) => {
                    let r2 = RelationView { data: rel.data.push(row), ..rel };
                    assert(r2.wf());
                    lemma_load_from_wf(r2, false, lines, i + 1);
                },
                Err(_) => {},
            }
        }
    }
}

impl Relation {
    /// Loads a whole relation from comment-stripped lines, in one forward
    /// pass: the header up to its concluding marker, then one data row per
    /// line. The first failure aborts the load and no relation is returned.
    pub fn load(filename: &str, lines: &Vec<String>) -> (r: Result<Relation, ArffError>)
        ensures
            match r {
                Ok(rel) => spec_load(filename@, strings_view(lines@)) == Ok::<
                    RelationView,
                    ErrView,
                >(rel@) && rel@.wf(),
                Err(e) => spec_load(filename@, strings_view(lines@)) == Err::<
                    RelationView,
                    ErrView,
                >(e@),
            },
    {
        let ghost lv = strings_view(lines@);
        let ghost target = spec_load(filename@, lv);
        let mut rel = Relation::new(filename);
        let mut in_header = true;
        let mut i: usize = 0;
        while i < lines.len()
            invariant
                i <= lines@.len(),
                lv == strings_view(lines@),
                target == spec_load(filename@, lv),
                target == spec_load_from(rel@, in_header, lv, i as int),
                rel@.wf(),
                in_header ==> rel@.data.len() == 0,
            decreases lines@.len() - i,
        {
            proof {
                assert(lv[i as int] == lines@[i as int]@);
            }
            if in_header {
                proof {
                    lemma_header_step_wf(rel@, lv[i as int]);
                }
                match rel.load_header_line(lines[i].as_str()) {
                    Ok(done) => {
                        if done {
                            in_header = false;
                        }
                    },
                    Err(e) => {
                        return Err(e);
                    },
                }
            } else {
                proof {
                    lemma_decode_row_wf(rel@.schema, lv[i as int]);
                }
                match rel.load_data_line(lines[i].as_str()) {
                    Ok(_) => {},
                    Err(e) => {
                        return Err(e);
                    },
                }
            }
            i = i + 1;
        }
        Ok(rel)
    }
}

/// The row at `i`, or nothing out of range.
pub open spec fn spec_row(data: Seq<Seq<ValueView>>, i: int) -> Option<Seq<ValueView>> {
    if 0 <= i < data.len() {
        Some(data[i])
    } else {
        None
    }
}

/// The column at `k`: the `k`-th value of every row, or nothing as soon as
/// any row lacks that position.
pub open spec fn spec_col(data: Seq<Seq<ValueView>>, k: int) -> Option<Seq<ValueView>> {
    if 0 <= k && (forall|i: int| 0 <= i < data.len() ==> k < (#[trigger] data[i]).len()) {
        Some(Seq::new(data.len(), |i: int| data[i][k]))
    } else {
        None
    }
}

impl Relation {
    /// The number of loaded rows.
    pub fn n_rows(&self) -> (r: usize)
        ensures
            r == self@.data.len(),
    {
        self.data.len()
    }

    /// A read-only view of the schema.
    pub fn schema(&self) -> (r: &Vec<AttributeFormat>)
        ensures
            schema_view(r@) == self@.schema,
    {
        &self.schema
    }

    /// The row at `n`, or `None` out of range.
    pub fn row(&self, n: usize) -> (r: Option<&Vec<Value>>)
        ensures
            match r {
                Some(v) => spec_row(self@.data, n as int) == Some(row_view(v@)),
                None => spec_row(self@.data, n as int) is None,
            },
    {
        if n < self.data.len() {
            proof {
                assert(data_view(self.data@)[n as int] == row_view(self.data@[n as int]@));
            }
            Some(&self.data[n])
        } else {
            None
        }
    }

    /// A mutable view of the row at `n`, or `None` out of range. Editing
    /// through it must not change the row's width.
    pub fn row_mut(&mut self, n: usize) -> (r: Option<&mut Vec<Value>>)
        ensures
            match r {
                Some(v) => {
                    &&& spec_row(old(self)@.data, n as int) == Some(row_view((*v)@))
                    &&& final(self)@ == (RelationView {
                        data: old(self)@.data.update(n as int, row_view((*final(v))@)),
                        ..old(self)@
                    })
                },
                None => spec_row(old(self)@.data, n as int) is None && final(self)@ == old(
                    self,
                )@,
            },
    {
        if n < self.data.len() {
            proof {
                assert(data_view(self.data@)[n as int] == row_view(self.data@[n as int]@));
            }
            let r = &mut self.data[n];
            proof {
                assert(data_view(old(self).data@.update(n as int, *final(r))) =~= data_view(
                    old(self).data@,
                ).update(n as int, row_view(final(r)@)));
            }
            Some(r)
        } else {
            None
        }
    }

    /// The column at `n`: one value per row, in row order, or `None` as
    /// soon as any row lacks that position.
    #[verifier::loop_isolation(false)]
    pub fn col(&self, n: usize) -> (r: Option<Vec<Value>>)
        ensures
            match r {
                Some(c) => spec_col(self@.data, n as int) == Some(row_view(c@)),
                None => spec_col(self@.data, n as int) is None,
            },
    {
        let ghost dv = self@.data;
        let mut out: Vec<Value> = Vec::new();
        let mut i: usize = 0;
        while i < self.data.len()
            invariant
                i <= self.data@.len(),
                out@.len() == i,
                forall|j: int| 0 <= j < i ==> n < (#[trigger] dv[j]).len(),
                forall|j: int| 0 <= j < i ==> row_view(out@)[j] == dv[j][n as int],
            decreases self.data@.len() - i,
        {
            proof {
                assert(dv[i as int] == row_view(self.data@[i as int]@));
            }
            let row = &self.data[i];
            if n < row.len() {
                let ghost out0 = out@;
                out.push(row[n].duplicate());
                proof {
                    assert(out@.drop_last() =~= out0);
                    assert(row_view(out@) =~= row_view(out0).push(out@.last()@));
                    assert(dv[i as int][n as int] == self.data@[i as int]@[n as int]@);
                    assert(out@.last()@ == dv[i as int][n as int]);
                    assert(forall|j: int|
                        0 <= j < i ==> row_view(out@)[j] == row_view(out0)[j]);
                }
            } else {
                proof {
                    assert(spec_col(dv, n as int) is None);
                }
                return None;
            }
            i = i + 1;
        }
        proof {
            assert(row_view(out@) =~= Seq::new(dv.len(), |j: int| dv[j][n as int]));
        }
        Some(out)
    }
}

/// Law: after a successful load every row in range is exactly as wide as
/// the schema; `row` out of range yields nothing by [`spec_row`].
pub proof fn lemma_load_row_width(filename: Seq<char>, lines: Seq<Seq<char>>, i: int)
    requires
        spec_load(filename, lines) is Ok,
    ensures
        spec_row(spec_load(filename, lines)->Ok_0.data, i) matches Some(row) ==> row.len()
            == spec_load(filename, lines)->Ok_0.schema.len(),
{
    lemma_load_from_wf(spec_empty_relation(filename), true, lines, 0);
}

/// Law: loading the same lines twice yields the same relation, value for
/// value, schema and metadata included.
pub proof fn lemma_load_deterministic(
    filename: Seq<char>,
    lines: Seq<Seq<char>>,
    a: Result<RelationView, ErrView>,
    b: Result<RelationView, ErrView>,
)
    requires
        a == spec_load(filename, lines),
        b == spec_load(filename, lines),
    ensures
        a == b,
{
}

/// Law: where a column exists it has one value per row, and its `i`-th
/// value is the `i`-th row's value at that column.
pub proof fn lemma_col_row_consistent(data: Seq<Seq<ValueView>>, k: int, i: int)
    requires
        spec_col(data, k) is Some,
        0 <= i < data.len(),
    ensures
        spec_col(data, k)->Some_0.len() == data.len(),
        spec_col(data, k)->Some_0[i] == spec_row(data, i)->Some_0[k],
{
}

} // verus!
