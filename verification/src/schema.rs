use vstd::prelude::*;
use crate::text::{
    chars_eq_string, chars_eq_vec, chars_of, eq_ignore_case, eq_ignore_case_seq, spec_split,
    split_char, string_of, strings_view, sub_range, views_of,
};
use crate::tokenize::{collect_tokens, spec_tokens};

verus! {

/// Why a load fails; each variant carries the offending text or the two
/// mismatched sizes, so that the report can name them.
#[derive(Debug)]
pub enum ArffError {
    InvalidAttributeType(String),
    IncompleteNominal,
    DuplicateNominal(String),
    NoRelationName,
    NoAttributeName,
    UnrecognizedToken(String),
    UnparseableNumeric(String),
    UnknownValue(String),
    WidthMismatch(usize, usize),
}

pub enum ErrView {
    InvalidAttributeType(Seq<char>),
    IncompleteNominal,
    DuplicateNominal(Seq<char>),
    NoRelationName,
    NoAttributeName,
    UnrecognizedToken(Seq<char>),
    UnparseableNumeric(Seq<char>),
    UnknownValue(Seq<char>),
    WidthMismatch(int, int),
}

impl View for ArffError {
    type V = ErrView;

    open spec fn view(&self) -> ErrView {
        match self {
            ArffError::InvalidAttributeType(s) => ErrView::InvalidAttributeType(s@),
            ArffError::IncompleteNominal => ErrView::IncompleteNominal,
            ArffError::DuplicateNominal(s) => ErrView::DuplicateNominal(s@),
            ArffError::NoRelationName => ErrView::NoRelationName,
            ArffError::NoAttributeName => ErrView::NoAttributeName,
            ArffError::UnrecognizedToken(s) => ErrView::UnrecognizedToken(s@),
            ArffError::UnparseableNumeric(s) => ErrView::UnparseableNumeric(s@),
            ArffError::UnknownValue(s) => ErrView::UnknownValue(s@),
            ArffError::WidthMismatch(a, b) => ErrView::WidthMismatch(*a as int, *b as int),
        }
    }
}

/// One column's type: floating-point, or an enumerated set of value names
/// whose stable codes are their declaration positions.
#[derive(Debug)]
pub enum AttributeType {
    Numeric,
    Nominal(Vec<String>),
}

pub enum AttrTypeView {
    Numeric,
    Nominal(Seq<Seq<char>>),
}

impl View for AttributeType {
    type V = AttrTypeView;

    open spec fn view(&self) -> AttrTypeView {
        match self {
            AttributeType::Numeric => AttrTypeView::Numeric,
            AttributeType::Nominal(vals) => AttrTypeView::Nominal(strings_view(vals@)),
        }
    }
}

impl AttrTypeView {
    /// A nominal set declares at least one value name, each exactly once.
    pub open spec fn wf(self) -> bool {
        match self {
            AttrTypeView::Numeric => true,
            AttrTypeView::Nominal(vals) => vals.len() >= 1 && (forall|i: int, j: int|
                0 <= i < j < vals.len() ==> vals[i] != vals[j]),
        }
    }
}

/// One schema column: a name (duplicates among columns are legal) and a type.
#[derive(Debug)]
pub struct AttributeFormat {
    pub name: String,
    pub attr_type: AttributeType,
}

pub struct AttrFormatView {
    pub name: Seq<char>,
    pub attr_type: AttrTypeView,
}

impl View for AttributeFormat {
    type V = AttrFormatView;

    open spec fn view(&self) -> AttrFormatView {
        AttrFormatView { name: self.name@, attr_type: self.attr_type@ }
    }
}

/// The first position at or after `n` whose token already appeared earlier,
/// scanning left to right.
pub open spec fn first_dup(toks: Seq<Seq<char>>, n: int) -> Option<int>
    decreases toks.len() - n,
    when 0 <= n
{
    if n >= toks.len() {
        None
    } else if exists|m: int| 0 <= m < n && toks[m] == toks[n] {
        Some(n)
    } else {
        first_dup(toks, n + 1)
    }
}

/// How a type declaration reads: one of the case-insensitive numeric
/// keywords; else a brace-wrapped, comma-separated, quote-aware list of
/// value names, which must be non-empty and free of duplicates.
pub open spec fn spec_parse_attr_type(s: Seq<char>) -> Result<AttrTypeView, ErrView> {
    if eq_ignore_case_seq(s, "real"@) || eq_ignore_case_seq(s, "continuous"@)
        || eq_ignore_case_seq(s, "integer"@) {
        Ok(AttrTypeView::Numeric)
    } else if !(s.len() >= 2 && s[0] == '{' && s.last() == '}') {
        Err(ErrView::InvalidAttributeType(s))
    } else {
        let toks = spec_tokens(spec_split(s.subrange(1, s.len() - 1), ','), 0, ',');
        if toks.len() == 0 {
            Err(ErrView::IncompleteNominal)
        } else {
            match first_dup(toks, 0) {
                Some(n) => Err(ErrView::DuplicateNominal(toks[n])),
                None => Ok(AttrTypeView::Nominal(toks)),
            }
        }
    }
}

impl AttributeType {
    /// Classifies the trimmed remainder of an attribute declaration.
    #[verifier::loop_isolation(false)]
    pub fn parse_schema(type_str: &str) -> (r: Result<AttributeType, ArffError>)
        ensures
            match r {
                Ok(t) => spec_parse_attr_type(type_str@) == Ok::<AttrTypeView, ErrView>(t@)
                    && t@.wf(),
                Err(e) => spec_parse_attr_type(type_str@) == Err::<AttrTypeView, ErrView>(e@),
            },
    {
        let cs = chars_of(type_str);
        if eq_ignore_case(&cs, "real") || eq_ignore_case(&cs, "continuous") || eq_ignore_case(
            &cs,
            "integer",
        ) {
            return Ok(AttributeType::Numeric);
        }
        if !(cs.len() >= 2 && cs[0] == '{' && cs[cs.len() - 1] == '}') {
            return Err(ArffError::InvalidAttributeType(string_of(&cs)));
        }
        let inner = sub_range(&cs, 1, cs.len() - 1);
        let frags = split_char(&inner, ',');
        let toks = collect_tokens(&frags, 0, ',');
        let ghost gt = spec_tokens(spec_split(cs@.subrange(1, cs@.len() - 1), ','), 0, ',');
        proof {
            assert(gt == views_of(toks@));
        }
        if toks.len() == 0 {
            return Err(ArffError::IncompleteNominal);
        }
        let mut values: Vec<String> = Vec::new();
        let mut n: usize = 0;
        while n < toks.len()
            invariant
                n <= toks@.len(),
                gt == views_of(toks@),
                first_dup(gt, 0) == first_dup(gt, n as int),
                forall|i: int, j: int| 0 <= i < j < n ==> gt[i] != gt[j],
                strings_view(values@) == gt.take(n as int),
            decreases toks@.len() - n,
        {
            let mut m: usize = 0;
            while m < n
                invariant
                    m <= n < toks@.len(),
                    gt == views_of(toks@),
                    forall|k: int| 0 <= k < m ==> gt[k] != gt[n as int],
                decreases n - m,
            {
                proof {
                    assert(gt[m as int] == toks@[m as int]@);
                    assert(gt[n as int] == toks@[n as int]@);
                }
                if chars_eq_vec(&toks[m], &toks[n]) {
                    proof {
                        assert(gt[m as int] == gt[n as int]);
                        assert(first_dup(gt, n as int) == Some(n as int));
                    }
                    return Err(ArffError::DuplicateNominal(string_of(&toks[n])));
                }
                m = m + 1;
            }
            proof {
                assert(!(exists|k: int| 0 <= k < n && gt[k] == gt[n as int]));
                assert(first_dup(gt, n as int) == first_dup(gt, n as int + 1));
            }
            let ghost vals0 = values@;
            proof {
                assert(gt[n as int] == toks@[n as int]@);
            }
            values.push(string_of(&toks[n]));
            proof {
                assert(values@.drop_last() =~= vals0);
                assert(strings_view(values@) =~= strings_view(vals0).push(values@.last()@));
                assert(strings_view(values@) =~= gt.take(n as int + 1));
            }
            n = n + 1;
        }
        proof {
            assert(first_dup(gt, toks@.len() as int) is None);
            assert(strings_view(values@) =~= gt);
        }
        Ok(AttributeType::Nominal(values))
    }
}

/// The code of a value name: its position among the declared names, or
/// `None` where it was never declared.
pub open spec fn spec_code_of(vals: Seq<Seq<char>>, f: Seq<char>, n: int) -> Option<int>
    decreases vals.len() - n,
    when 0 <= n
{
    if n >= vals.len() {
        None
    } else if vals[n] == f {
        Some(n)
    } else {
        spec_code_of(vals, f, n + 1)
    }
}

/// Looks a field's text up among the declared value names.
pub fn code_of(vals: &Vec<String>, field: &Vec<char>) -> (r: Option<usize>)
    ensures
        match r {
            Some(c) => spec_code_of(strings_view(vals@), field@, 0) == Some(c as int) && c
                < vals@.len(),
            None => spec_code_of(strings_view(vals@), field@, 0) is None,
        },
{
    let ghost sv = strings_view(vals@);
    let mut i: usize = 0;
    while i < vals.len()
        invariant
            i <= vals@.len(),
            sv == strings_view(vals@),
            spec_code_of(sv, field@, 0) == spec_code_of(sv, field@, i as int),
        decreases vals@.len() - i,
    {
        proof {
            assert(sv[i as int] == vals@[i as int]@);
        }
        if chars_eq_string(field, &vals[i]) {
            return Some(i);
        }
        i = i + 1;
    }
    None
}

} // verus!
