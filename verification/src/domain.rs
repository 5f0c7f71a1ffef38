//! Per-type statistical summaries used for predicate pruning: min/max
//! ranges, nullability and boolean flags, computed from a column.

use core::cmp::Ordering;

use vstd::prelude::*;

use crate::aggregate::number_min_max;
use crate::aggregate::string_min_max;
use crate::column::Column;
use crate::column::DecimalColumn;
use crate::column::NumberColumn;
use crate::ord::bytes_cmp;
use crate::scalar::DecimalScalar;
use crate::scalar::NumberScalar;
use crate::scalar::ScalarRef;
use crate::scalar::Val;
use crate::types::DataType;
use crate::types::DecimalSize;
use crate::types::TypeV;

verus! {

/// An inclusive value range.
#[derive(Debug)]
pub struct SimpleDomain<T> {
    pub min: T,
    pub max: T,
}

/// Which boolean values occur.
#[derive(Debug)]
pub struct BooleanDomain {
    pub has_false: bool,
    pub has_true: bool,
}

/// Lexicographic byte-string range; `max` of `None` signals an unbounded
/// upper bound.
#[derive(Debug)]
pub struct StringDomain {
    pub min: Vec<u8>,
    pub max: Option<Vec<u8>>,
}

/// Whether nulls occur, and the summary of the stored inner rows.
#[derive(Debug)]
pub struct NullableDomain {
    pub has_null: bool,
    pub value: Option<Box<Domain>>,
}

/// Number range, one variant per physical kind.
#[derive(Debug)]
pub enum NumberDomain {
    UInt8(SimpleDomain<u8>),
    UInt16(SimpleDomain<u16>),
    UInt32(SimpleDomain<u32>),
    UInt64(SimpleDomain<u64>),
    Int8(SimpleDomain<i8>),
    Int16(SimpleDomain<i16>),
    Int32(SimpleDomain<i32>),
    Int64(SimpleDomain<i64>),
}

/// Decimal range with the shared precision and scale.
#[derive(Debug)]
pub enum DecimalDomain {
    Decimal128(SimpleDomain<i128>, DecimalSize),
    Decimal256(SimpleDomain<crate::scalar::I256>, DecimalSize),
}

/// A compact per-type summary of the value space of a scalar or column.
#[derive(Debug)]
pub enum Domain {
    Number(NumberDomain),
    Decimal(DecimalDomain),
    Boolean(BooleanDomain),
    String(StringDomain),
    Timestamp(SimpleDomain<i64>),
    Date(SimpleDomain<i32>),
    Nullable(NullableDomain),
    Array(Option<Box<Domain>>),
    KvMap(Option<Box<(Domain, Domain)>>),
    Tuple(Vec<Domain>),
    Undefined,
}

/// The lower bound a number domain states.
pub open spec fn nd_min(nd: &NumberDomain) -> int {
    match nd {
        NumberDomain::UInt8(sd) => sd.min as int,
        NumberDomain::UInt16(sd) => sd.min as int,
        NumberDomain::UInt32(sd) => sd.min as int,
        NumberDomain::UInt64(sd) => sd.min as int,
        NumberDomain::Int8(sd) => sd.min as int,
        NumberDomain::Int16(sd) => sd.min as int,
        NumberDomain::Int32(sd) => sd.min as int,
        NumberDomain::Int64(sd) => sd.min as int,
    }
}

/// The upper bound a number domain states.
pub open spec fn nd_max(nd: &NumberDomain) -> int {
    match nd {
        NumberDomain::UInt8(sd) => sd.max as int,
        NumberDomain::UInt16(sd) => sd.max as int,
        NumberDomain::UInt32(sd) => sd.max as int,
        NumberDomain::UInt64(sd) => sd.max as int,
        NumberDomain::Int8(sd) => sd.max as int,
        NumberDomain::Int16(sd) => sd.max as int,
        NumberDomain::Int32(sd) => sd.max as int,
        NumberDomain::Int64(sd) => sd.max as int,
    }
}

/// The kind a number domain describes.
pub open spec fn nd_kind(nd: &NumberDomain) -> crate::types::NumberDataType {
    match nd {
        NumberDomain::UInt8(_) => crate::types::NumberDataType::UInt8,
        NumberDomain::UInt16(_) => crate::types::NumberDataType::UInt16,
        NumberDomain::UInt32(_) => crate::types::NumberDataType::UInt32,
        NumberDomain::UInt64(_) => crate::types::NumberDataType::UInt64,
        NumberDomain::Int8(_) => crate::types::NumberDataType::Int8,
        NumberDomain::Int16(_) => crate::types::NumberDataType::Int16,
        NumberDomain::Int32(_) => crate::types::NumberDataType::Int32,
        NumberDomain::Int64(_) => crate::types::NumberDataType::Int64,
    }
}

/// A column's domain is computed only from a non-empty column, and from
/// non-empty flattened values for nested wrappers.
pub open spec fn domain_defined(c: &Column) -> bool
    decreases c,
{
    c.vals().len() > 0 && match c {
        Column::Array(ac) => domain_defined(&ac.values),
        Column::KvMap(ac) => domain_defined(&ac.values),
        Column::Nullable(nc) => domain_defined(&nc.column),
        Column::Tuple { fields, .. } => cols_domain_defined(fields@),
        _ => true,
    }
}

/// `domain_defined` over a sequence of sibling columns.
pub open spec fn cols_domain_defined(cs: Seq<Column>) -> bool
    decreases cs,
{
    cs.len() == 0 || (cols_domain_defined(cs.drop_last()) && domain_defined(&cs.last()))
}

/// `cols_domain_defined` holds elementwise.
pub proof fn lemma_cols_domain_defined(cs: Seq<Column>)
    requires
        cols_domain_defined(cs),
    ensures
        forall|i: int| 0 <= i < cs.len() ==> #[trigger] domain_defined(&cs[i]),
    decreases cs.len(),
{
    if cs.len() > 0 {
        lemma_cols_domain_defined(cs.drop_last());
        assert forall|i: int| 0 <= i < cs.len() implies #[trigger] domain_defined(&cs[i]) by {
            if i < cs.len() - 1 {
                assert(domain_defined(&cs.drop_last()[i]));
                assert(cs.drop_last()[i] == cs[i]);
            } else {
                assert(cs[i] == cs.last());
            }
        }
    }
}

/// The exact characterization of a column's domain: per variant, the stated
/// bounds hold of every row and are attained, the flags report exactly what
/// occurs, and nested summaries characterize the nested columns.
pub open spec fn domain_ok(d: &Domain, c: &Column) -> bool
    decreases c, 0int,
{
    match c {
        Column::Null { .. } => d matches Domain::Nullable(nd) && nd.has_null && nd.value is None,
        Column::EmptyArray { .. } => d matches Domain::Array(o) && o is None,
        Column::EmptyMap { .. } => d matches Domain::KvMap(o) && o is None,
        Column::Number(nc) => d matches Domain::Number(nd) && nd_kind(nd) == nc.kind() && (forall|
            i: int,
        |
            0 <= i < nc.vals().len() ==> nd_min(nd) <= (#[trigger] nc.vals()[i])->Number_0.ival()
                <= nd_max(nd)) && (exists|i: int|
            0 <= i < nc.vals().len() && (#[trigger] nc.vals()[i])->Number_0.ival() == nd_min(nd))
            && (exists|i: int|
            0 <= i < nc.vals().len() && (#[trigger] nc.vals()[i])->Number_0.ival() == nd_max(nd)),
        Column::Decimal(dc) => d matches Domain::Decimal(dd) && match (dc, dd) {
            (DecimalColumn::Decimal128(v, size), DecimalDomain::Decimal128(sd, dsize)) => dsize
                == size && (forall|i: int| 0 <= i < v@.len() ==> sd.min <= #[trigger] v@[i]
                <= sd.max) && (exists|i: int| 0 <= i < v@.len() && #[trigger] v@[i] == sd.min) && (
            exists|i: int| 0 <= i < v@.len() && #[trigger] v@[i] == sd.max),
            (DecimalColumn::Decimal256(v, size), DecimalDomain::Decimal256(sd, dsize)) => dsize
                == size && (forall|i: int|
                0 <= i < v@.len() ==> sd.min.le(#[trigger] v@[i]) && v@[i].le(sd.max)) && (exists|
                i: int,
            | 0 <= i < v@.len() && #[trigger] v@[i] == sd.min) && (exists|i: int|
                0 <= i < v@.len() && #[trigger] v@[i] == sd.max),
            _ => false,
        },
        Column::Boolean(v) => d matches Domain::Boolean(bd) && (bd.has_true <==> exists|i: int|
            0 <= i < v@.len() && v@[i]) && (bd.has_false <==> exists|i: int|
            0 <= i < v@.len() && !v@[i]),
        Column::String(_) => d matches Domain::String(sd) && sd.max matches Some(mx) && (forall|
            i: int,
        |
            0 <= i < c.vals().len() ==> bytes_cmp(sd.min@, (#[trigger] c.vals()[i])->String_0)
                != Ordering::Greater) && (forall|i: int|
            0 <= i < c.vals().len() ==> bytes_cmp(mx@, (#[trigger] c.vals()[i])->String_0)
                != Ordering::Less) && (exists|i: int|
            0 <= i < c.vals().len() && #[trigger] c.vals()[i] == Val::String(sd.min@)) && (exists|
            i: int,
        |
            0 <= i < c.vals().len() && #[trigger] c.vals()[i] == Val::String(mx@)),
        Column::Timestamp(v) => d matches Domain::Timestamp(sd) && (forall|i: int|
            0 <= i < v@.len() ==> sd.min <= #[trigger] v@[i] <= sd.max) && (exists|i: int|
            0 <= i < v@.len() && #[trigger] v@[i] == sd.min) && (exists|i: int|
            0 <= i < v@.len() && #[trigger] v@[i] == sd.max),
        Column::Date(v) => d matches Domain::Date(sd) && (forall|i: int|
            0 <= i < v@.len() ==> sd.min <= #[trigger] v@[i] <= sd.max) && (exists|i: int|
            0 <= i < v@.len() && #[trigger] v@[i] == sd.min) && (exists|i: int|
            0 <= i < v@.len() && #[trigger] v@[i] == sd.max),
        Column::Array(ac) => d matches Domain::Array(o) && o matches Some(inner) && domain_ok(
            &inner,
            &ac.values,
        ),
        Column::KvMap(ac) => d matches Domain::KvMap(o) && o matches Some(pair) && (
        ac.values matches Column::Tuple { fields, .. } && fields@.len() == 2 && domain_ok(
            &pair.0,
            &fields@[0],
        ) && domain_ok(&pair.1, &fields@[1])),
        Column::Nullable(nc) => d matches Domain::Nullable(nd) && (nd.has_null <==> exists|i: int|
            0 <= i < nc.validity@.len() && !(#[trigger] nc.validity@[i])) && (if exists|i: int|
            0 <= i < nc.validity@.len() && #[trigger] nc.validity@[i] {
            nd.value matches Some(inner) && nullable_inner_ok(&inner, &nc.column, nc.validity@)
        } else {
            nd.value is None
        }),
        Column::Tuple { fields, .. } => d matches Domain::Tuple(ds) && ds@.len() == fields@.len()
            && cols_domains_ok(ds@, fields@),
        Column::Variant(_) => d == Domain::Undefined,
    }
}

/// Pairwise `domain_ok` over sibling domains and columns.
pub open spec fn cols_domains_ok(ds: Seq<Domain>, cs: Seq<Column>) -> bool
    decreases cs,
{
    cs.len() == 0 || (cols_domains_ok(ds.drop_last(), cs.drop_last()) && domain_ok(
        &ds[cs.len() - 1],
        &cs.last(),
    ))
}

/// `cols_domains_ok` holds elementwise.
pub proof fn lemma_cols_domains_ok(ds: Seq<Domain>, cs: Seq<Column>)
    requires
        ds.len() == cs.len(),
        cols_domains_ok(ds, cs),
    ensures
        forall|i: int| 0 <= i < cs.len() ==> #[trigger] domain_ok(&ds[i], &cs[i]),
    decreases cs.len(),
{
    if cs.len() > 0 {
        lemma_cols_domains_ok(ds.drop_last(), cs.drop_last());
        assert forall|i: int| 0 <= i < cs.len() implies #[trigger] domain_ok(&ds[i], &cs[i]) by {
            if i < cs.len() - 1 {
                assert(domain_ok(&ds.drop_last()[i], &cs.drop_last()[i]));
                assert(ds.drop_last()[i] == ds[i]);
                assert(cs.drop_last()[i] == cs[i]);
            } else {
                assert(cs[i] == cs.last());
            }
        }
    }
}

/// `cols_domains_ok` from elementwise facts.
pub proof fn lemma_cols_domains_ok_intro(ds: Seq<Domain>, cs: Seq<Column>)
    requires
        ds.len() == cs.len(),
        forall|i: int| 0 <= i < cs.len() ==> #[trigger] domain_ok(&ds[i], &cs[i]),
    ensures
        cols_domains_ok(ds, cs),
    decreases cs.len(),
{
    if cs.len() > 0 {
        assert forall|i: int| 0 <= i < cs.drop_last().len() implies #[trigger] domain_ok(
            &ds.drop_last()[i],
            &cs.drop_last()[i],
        ) by {
            assert(ds.drop_last()[i] == ds[i]);
            assert(cs.drop_last()[i] == cs[i]);
            assert(domain_ok(&ds[i], &cs[i]));
        }
        lemma_cols_domains_ok_intro(ds.drop_last(), cs.drop_last());
        assert(cs.last() == cs[cs.len() - 1]);
        assert(domain_ok(&ds[cs.len() - 1], &cs[cs.len() - 1]));
    }
}

/// Minimum and maximum of a non-empty vector of 64-bit integers.
fn minmax_i64(v: &Vec<i64>) -> (r: (i64, i64))
    requires
        v@.len() > 0,
    ensures
        forall|i: int| 0 <= i < v@.len() ==> r.0 <= #[trigger] v@[i] <= r.1,
        exists|i: int| 0 <= i < v@.len() && #[trigger] v@[i] == r.0,
        exists|i: int| 0 <= i < v@.len() && #[trigger] v@[i] == r.1,
{
    let mut mn = v[0];
    let mut mx = v[0];
    let mut i: usize = 1;
    while i < v.len()
        invariant
            1 <= i <= v@.len(),
            forall|j: int| 0 <= j < i as int ==> mn <= #[trigger] v@[j] <= mx,
            exists|j: int| 0 <= j < i as int && #[trigger] v@[j] == mn,
            exists|j: int| 0 <= j < i as int && #[trigger] v@[j] == mx,
        decreases v@.len() - i,
    {
        let x = v[i];
        if x < mn {
            mn = x;
        }
        if x > mx {
            mx = x;
        }
        i = i + 1;
    }
    (mn, mx)
}

/// Minimum and maximum of a non-empty vector of 32-bit integers.
fn minmax_i32(v: &Vec<i32>) -> (r: (i32, i32))
    requires
        v@.len() > 0,
    ensures
        forall|i: int| 0 <= i < v@.len() ==> r.0 <= #[trigger] v@[i] <= r.1,
        exists|i: int| 0 <= i < v@.len() && #[trigger] v@[i] == r.0,
        exists|i: int| 0 <= i < v@.len() && #[trigger] v@[i] == r.1,
{
    let mut mn = v[0];
    let mut mx = v[0];
    let mut i: usize = 1;
    while i < v.len()
        invariant
            1 <= i <= v@.len(),
            forall|j: int| 0 <= j < i as int ==> mn <= #[trigger] v@[j] <= mx,
            exists|j: int| 0 <= j < i as int && #[trigger] v@[j] == mn,
            exists|j: int| 0 <= j < i as int && #[trigger] v@[j] == mx,
        decreases v@.len() - i,
    {
        let x = v[i];
        if x < mn {
            mn = x;
        }
        if x > mx {
            mx = x;
        }
        i = i + 1;
    }
    (mn, mx)
}

/// The number range of a non-empty number buffer, of its kind.
fn number_domain(nc: &NumberColumn) -> (r: NumberDomain)
    requires
        nc.vals().len() > 0,
    ensures
        nd_kind(&r) == nc.kind(),
        forall|i: int|
            0 <= i < nc.vals().len() ==> nd_min(&r) <= (#[trigger] nc.vals()[i])->Number_0.ival()
                <= nd_max(&r),
        exists|i: int|
            0 <= i < nc.vals().len() && (#[trigger] nc.vals()[i])->Number_0.ival() == nd_min(&r),
        exists|i: int|
            0 <= i < nc.vals().len() && (#[trigger] nc.vals()[i])->Number_0.ival() == nd_max(&r),
{
    let mn = number_min_max(nc, true);
    let mx = number_min_max(nc, false);
    proof {
        crate::builder::lemma_number_scalar_kind(mn);
        crate::builder::lemma_number_scalar_kind(mx);
        crate::builder::lemma_number_column_kind(nc);
    }
    match (mn, mx) {
        (NumberScalar::UInt8(a), NumberScalar::UInt8(b)) => NumberDomain::UInt8(
            SimpleDomain { min: a, max: b },
        ),
        (NumberScalar::UInt16(a), NumberScalar::UInt16(b)) => NumberDomain::UInt16(
            SimpleDomain { min: a, max: b },
        ),
        (NumberScalar::UInt32(a), NumberScalar::UInt32(b)) => NumberDomain::UInt32(
            SimpleDomain { min: a, max: b },
        ),
        (NumberScalar::UInt64(a), NumberScalar::UInt64(b)) => NumberDomain::UInt64(
            SimpleDomain { min: a, max: b },
        ),
        (NumberScalar::Int8(a), NumberScalar::Int8(b)) => NumberDomain::Int8(
            SimpleDomain { min: a, max: b },
        ),
        (NumberScalar::Int16(a), NumberScalar::Int16(b)) => NumberDomain::Int16(
            SimpleDomain { min: a, max: b },
        ),
        (NumberScalar::Int32(a), NumberScalar::Int32(b)) => NumberDomain::Int32(
            SimpleDomain { min: a, max: b },
        ),
        (NumberScalar::Int64(a), NumberScalar::Int64(b)) => NumberDomain::Int64(
            SimpleDomain { min: a, max: b },
        ),
        _ => vstd::pervasive::unreached(),
    }
}

impl Column {
    /// The per-type summary of a non-empty column: exact attained min/max
    /// ranges for numbers, dates, timestamps and strings, occurrence flags
    /// for booleans and nulls, and recursive summaries of the flattened
    /// values of nested variants.
    pub fn domain(&self) -> (r: Domain)
        requires
            self.wf(),
            domain_defined(self),
        ensures
            domain_ok(&r, self),
        decreases self, 0int,
    {
        match self {
            Column::Null { .. } => Domain::Nullable(NullableDomain { has_null: true, value: None }),
            Column::EmptyArray { .. } => Domain::Array(None),
            Column::EmptyMap { .. } => Domain::KvMap(None),
            Column::Number(nc) => Domain::Number(number_domain(nc)),
            Column::Decimal(dc) => Domain::Decimal(decimal_domain(dc)),
            Column::Boolean(v) => {
                let mut has_true = false;
                let mut has_false = false;
                let mut i: usize = 0;
                while i < v.len()
                    invariant
                        i <= v@.len(),
                        has_true <==> exists|j: int| 0 <= j < i as int && #[trigger] v@[j],
                        has_false <==> exists|j: int| 0 <= j < i as int && !(#[trigger] v@[j]),
                    decreases v@.len() - i,
                {
                    if v[i] {
                        has_true = true;
                    } else {
                        has_false = true;
                    }
                    i = i + 1;
                }
                Domain::Boolean(BooleanDomain { has_false, has_true })
            }
            Column::String(_) => {
                let mn = string_min_max(self, true);
                let mx = string_min_max(self, false);
                Domain::String(StringDomain { min: mn, max: Some(mx) })
            }
            Column::Timestamp(v) => {
                let (mn, mx) = minmax_i64(v);
                Domain::Timestamp(SimpleDomain { min: mn, max: mx })
            }
            Column::Date(v) => {
                let (mn, mx) = minmax_i32(v);
                Domain::Date(SimpleDomain { min: mn, max: mx })
            }
            Column::Array(ac) => {
                let inner = ac.values.domain();
                Domain::Array(Some(Box::new(inner)))
            }
            Column::KvMap(ac) => match &ac.values {
                Column::Tuple { fields, .. } => {
                    proof {
                        assert(ac.values.wf());
                        assert(domain_defined(&ac.values));
                        assert(crate::column::cols_wf_len(
                            fields@,
                            ac.values->Tuple_len as nat,
                        ));
                        crate::column::lemma_cols_wf_len(fields@, ac.values->Tuple_len as nat);
                        assert(cols_domain_defined(fields@));
                        lemma_cols_domain_defined(fields@);
                        crate::column::lemma_cols_typs(fields@);
                        assert(fields@.len() == 2);
                    }
                    let mut ds = domains_of(fields, Ghost(fields@));
                    let ghost ds0 = ds@;
                    let d1 = ds.remove(1);
                    let d0 = ds.remove(0);
                    proof {
                        assert(d1 == ds0[1]);
                        assert(d0 == ds0[0]);
                        assert(domain_ok(&ds0[0], &fields@[0]));
                        assert(domain_ok(&ds0[1], &fields@[1]));
                    }
                    let r = Domain::KvMap(Some(Box::new((d0, d1))));
                    proof {
                        assert(r->KvMap_0->Some_0.0 == ds0[0]);
                        assert(r->KvMap_0->Some_0.1 == ds0[1]);
                    }
                    r
                }
                _ => vstd::pervasive::unreached(),
            },
            Column::Nullable(nc) => {
                let mut has_null = false;
                let mut has_valid = false;
                let mut i: usize = 0;
                while i < nc.validity.len()
                    invariant
                        i <= nc.validity@.len(),
                        has_null <==> exists|j: int|
                            0 <= j < i as int && !(#[trigger] nc.validity@[j]),
                        has_valid <==> exists|j: int|
                            0 <= j < i as int && #[trigger] nc.validity@[j],
                    decreases nc.validity@.len() - i,
                {
                    if !nc.validity[i] {
                        has_null = true;
                    } else {
                        has_valid = true;
                    }
                    i = i + 1;
                }
                if has_valid {
                    proof {
                        nc.column.lemma_typ_variant();
                    }
                    let inner = nullable_inner_domain(&nc.column, &nc.validity);
                    Domain::Nullable(NullableDomain { has_null, value: Some(Box::new(inner)) })
                } else {
                    Domain::Nullable(NullableDomain { has_null, value: None })
                }
            }
            Column::Tuple { fields, len } => {
                proof {
                    crate::column::lemma_cols_wf_len(fields@, *len as nat);
                    lemma_cols_domain_defined(fields@);
                }
                let ds = domains_of(fields, Ghost(fields@));
                let r = Domain::Tuple(ds);
                proof {
                    lemma_cols_domains_ok_intro(r->Tuple_0@, fields@);
                }
                r
            }
            Column::Variant(_) => Domain::Undefined,
        }
    }
}

/// The decimal range of a non-empty decimal buffer, of its kind: attained
/// inclusive bounds over the values.
fn decimal_domain(dc: &DecimalColumn) -> (r: DecimalDomain)
    requires
        dc.vals().len() > 0,
    ensures
        match (dc, &r) {
            (DecimalColumn::Decimal128(v, size), DecimalDomain::Decimal128(sd, dsize)) => dsize
                == size && (forall|i: int| 0 <= i < v@.len() ==> sd.min <= #[trigger] v@[i]
                <= sd.max) && (exists|i: int| 0 <= i < v@.len() && #[trigger] v@[i] == sd.min) && (
            exists|i: int| 0 <= i < v@.len() && #[trigger] v@[i] == sd.max),
            (DecimalColumn::Decimal256(v, size), DecimalDomain::Decimal256(sd, dsize)) => *dsize
                == *size && (forall|i: int|
                0 <= i < v@.len() ==> sd.min.le(#[trigger] v@[i]) && v@[i].le(sd.max)) && (exists|
                i: int,
            | 0 <= i < v@.len() && #[trigger] v@[i] == sd.min) && (exists|i: int|
                0 <= i < v@.len() && #[trigger] v@[i] == sd.max),
            _ => false,
        },
{
    match dc {
        DecimalColumn::Decimal128(v, size) => {
            let mut mn = v[0];
            let mut mx = v[0];
            let mut i: usize = 1;
            while i < v.len()
                invariant
                    1 <= i <= v@.len(),
                    forall|j: int| 0 <= j < i as int ==> mn <= #[trigger] v@[j] <= mx,
                    exists|j: int| 0 <= j < i as int && #[trigger] v@[j] == mn,
                    exists|j: int| 0 <= j < i as int && #[trigger] v@[j] == mx,
                decreases v@.len() - i,
            {
                let x = v[i];
                if x < mn {
                    mn = x;
                }
                if x > mx {
                    mx = x;
                }
                i = i + 1;
            }
            DecimalDomain::Decimal128(SimpleDomain { min: mn, max: mx }, *size)
        }
        DecimalColumn::Decimal256(v, size) => {
            let mut mn = v[0];
            let mut mx = v[0];
            let mut i: usize = 1;
            while i < v.len()
                invariant
                    1 <= i <= v@.len(),
                    forall|j: int|
                        0 <= j < i as int ==> mn.le(#[trigger] v@[j]) && v@[j].le(mx),
                    exists|j: int| 0 <= j < i as int && #[trigger] v@[j] == mn,
                    exists|j: int| 0 <= j < i as int && #[trigger] v@[j] == mx,
                decreases v@.len() - i,
            {
                let x = v[i];
                if x.hi < mn.hi || (x.hi == mn.hi && x.lo < mn.lo) {
                    mn = x;
                }
                if x.hi > mx.hi || (x.hi == mx.hi && x.lo > mx.lo) {
                    mx = x;
                }
                i = i + 1;
            }
            DecimalDomain::Decimal256(SimpleDomain { min: mn, max: mx }, *size)
        }
    }
}

/// The summaries of each column in a vector of siblings.
fn domains_of(cs: &Vec<Column>, g: Ghost<Seq<Column>>) -> (r: Vec<Domain>)
    requires
        g@ == cs@,
        forall|i: int| 0 <= i < g@.len() ==> #[trigger] g@[i].wf(),
        forall|i: int| 0 <= i < g@.len() ==> #[trigger] domain_defined(&g@[i]),
    ensures
        r@.len() == g@.len(),
        forall|i: int| 0 <= i < g@.len() ==> #[trigger] domain_ok(&r@[i], &g@[i]),
    decreases g@, 1int,
{
    let mut out: Vec<Domain> = Vec::new();
    let mut i: usize = 0;
    while i < cs.len()
        invariant
            g@ == cs@,
            i <= cs@.len(),
            out@.len() == i as int,
            forall|j: int| 0 <= j < cs@.len() ==> #[trigger] cs@[j].wf(),
            forall|j: int| 0 <= j < cs@.len() ==> #[trigger] domain_defined(&cs@[j]),
            forall|j: int| 0 <= j < i as int ==> #[trigger] domain_ok(&out@[j], &cs@[j]),
        decreases cs@.len() - i,
    {
        proof {
            assert(decreases_to!(g@ => g@[i as int]));
        }
        out.push(cs[i].domain());
        i = i + 1;
    }
    out
}

/// A scalar's domain computation is defined when its nested columns, where
/// non-empty, have defined domains.
pub open spec fn scalar_domain_defined(s: &ScalarRef) -> bool
    decreases s,
{
    match s {
        ScalarRef::Array(col) => col.vals().len() == 0 || domain_defined(col),
        ScalarRef::KvMap(col) => col.vals().len() == 0 || domain_defined(col),
        ScalarRef::Tuple(fields) => refs_domain_defined(fields@),
        _ => true,
    }
}

/// `scalar_domain_defined` over sibling scalar views.
pub open spec fn refs_domain_defined(ss: Seq<ScalarRef>) -> bool
    decreases ss,
{
    ss.len() == 0 || (refs_domain_defined(ss.drop_last()) && scalar_domain_defined(&ss.last()))
}

/// `refs_domain_defined` holds elementwise.
pub proof fn lemma_refs_domain_defined(ss: Seq<ScalarRef>)
    requires
        refs_domain_defined(ss),
    ensures
        forall|i: int| 0 <= i < ss.len() ==> #[trigger] scalar_domain_defined(&ss[i]),
    decreases ss.len(),
{
    if ss.len() > 0 {
        lemma_refs_domain_defined(ss.drop_last());
        assert forall|i: int| 0 <= i < ss.len() implies #[trigger] scalar_domain_defined(
            &ss[i],
        ) by {
            if i < ss.len() - 1 {
                assert(scalar_domain_defined(&ss.drop_last()[i]));
                assert(ss.drop_last()[i] == ss[i]);
            } else {
                assert(ss[i] == ss.last());
            }
        }
    }
}

/// The exact characterization of a scalar's domain against its declared
/// type: a non-null scalar under a nullable type wraps its base domain in a
/// non-null nullable summary; otherwise the summary is the point range of
/// the value, or the recursive summary of a nested payload.
pub open spec fn scalar_domain_ok(d: &Domain, s: &ScalarRef, t: TypeV) -> bool
    decreases t, s, 1int,
{
    if !(s.sval() is Null) && t is Nullable {
        d matches Domain::Nullable(nd) && !nd.has_null && (nd.value matches Some(inner)
            && scalar_domain_ok(&inner, s, *t->Nullable_0))
    } else {
        scalar_domain_base_ok(d, s)
    }
}

/// The base (unwrapped) characterization of a scalar's domain.
pub open spec fn scalar_domain_base_ok(d: &Domain, s: &ScalarRef) -> bool
    decreases s, 0int,
{
    match s {
        ScalarRef::Null => d matches Domain::Nullable(nd) && nd.has_null && nd.value is None,
        ScalarRef::EmptyArray => d matches Domain::Array(o) && o is None,
        ScalarRef::EmptyMap => d matches Domain::KvMap(o) && o is None,
        ScalarRef::Number(n) => d matches Domain::Number(nd) && nd_kind(&nd) == n.kind() && nd_min(
            &nd,
        ) == n.ival() && nd_max(&nd) == n.ival(),
        ScalarRef::Decimal(v) => d matches Domain::Decimal(dd) && match (v, dd) {
            (DecimalScalar::Decimal128(x, size), DecimalDomain::Decimal128(sd, dsize)) => dsize
                == size && sd.min == x && sd.max == x,
            (DecimalScalar::Decimal256(x, size), DecimalDomain::Decimal256(sd, dsize)) => dsize
                == size && sd.min == x && sd.max == x,
            _ => false,
        },
        ScalarRef::Boolean(b) => d matches Domain::Boolean(bd) && bd.has_true == *b && bd.has_false
            == !*b,
        ScalarRef::String(bytes) => d matches Domain::String(sd) && sd.min@ == bytes@ && (
        sd.max matches Some(mx) && mx@ == bytes@),
        ScalarRef::Timestamp(v) => d matches Domain::Timestamp(sd) && sd.min == *v && sd.max == *v,
        ScalarRef::Date(v) => d matches Domain::Date(sd) && sd.min == *v && sd.max == *v,
        ScalarRef::Array(col) => if col.vals().len() == 0 {
            d matches Domain::Array(o) && o is None
        } else {
            d matches Domain::Array(o) && (o matches Some(inner) && domain_ok(&inner, col))
        },
        ScalarRef::KvMap(col) => if col.vals().len() == 0 {
            d matches Domain::KvMap(o) && o is None
        } else {
            d matches Domain::KvMap(o) && (o matches Some(pair)
                && col matches Column::Tuple { fields, .. } && fields@.len() == 2 && domain_ok(
                &pair.0,
                &fields@[0],
            ) && domain_ok(&pair.1, &fields@[1]))
        },
        ScalarRef::Tuple(fields) => d matches Domain::Tuple(ds) && ds@.len() == fields@.len()
            && refs_domains_ok(ds@, fields@),
        ScalarRef::Variant(_) => d == Domain::Undefined,
    }
}

/// Pairwise base characterization over sibling scalars; tuple fields are
/// summarized without a declared type, as their inferred types are not
/// nullable.
pub open spec fn refs_domains_ok(ds: Seq<Domain>, ss: Seq<ScalarRef>) -> bool
    decreases ss, 1int,
{
    ss.len() == 0 || (refs_domains_ok(ds.drop_last(), ss.drop_last()) && scalar_domain_base_ok(
        &ds[ss.len() - 1],
        &ss.last(),
    ))
}

/// `refs_domains_ok` from elementwise facts.
pub proof fn lemma_refs_domains_ok_intro(ds: Seq<Domain>, ss: Seq<ScalarRef>)
    requires
        ds.len() == ss.len(),
        forall|i: int| 0 <= i < ss.len() ==> #[trigger] scalar_domain_base_ok(&ds[i], &ss[i]),
    ensures
        refs_domains_ok(ds, ss),
    decreases ss.len(),
{
    if ss.len() > 0 {
        assert forall|i: int| 0 <= i < ss.drop_last().len() implies
            #[trigger] scalar_domain_base_ok(&ds.drop_last()[i], &ss.drop_last()[i]) by {
            assert(ds.drop_last()[i] == ds[i]);
            assert(ss.drop_last()[i] == ss[i]);
            assert(scalar_domain_base_ok(&ds[i], &ss[i]));
        }
        lemma_refs_domains_ok_intro(ds.drop_last(), ss.drop_last());
        assert(ss.last() == ss[ss.len() - 1]);
        assert(scalar_domain_base_ok(&ds[ss.len() - 1], &ss[ss.len() - 1]));
    }
}

impl ScalarRef {
    /// The domain of one scalar against its declared (possibly nullable)
    /// type: a point range for plain values, a wrapped non-null summary
    /// under a nullable type, and recursive summaries for nested payloads.
    pub fn domain(&self, data_type: &DataType) -> (r: Domain)
        requires
            self.wf(),
            scalar_domain_defined(self),
        ensures
            scalar_domain_ok(&r, self, data_type@),
        decreases data_type, self,
    {
        let nul = self.is_null();
        if !nul {
            if let DataType::Nullable(ty) = data_type {
                let inner = self.domain(ty);
                return Domain::Nullable(
                    NullableDomain { has_null: false, value: Some(Box::new(inner)) },
                );
            }
        }
        let r = self.domain_base();
        proof {
            if !(self.sval() is Null) && data_type@ is Nullable {
                assert(false);
            }
        }
        r
    }

    /// The base (unwrapped) domain of one scalar.
    fn domain_base(&self) -> (r: Domain)
        requires
            self.wf(),
            scalar_domain_defined(self),
        ensures
            scalar_domain_base_ok(&r, self),
        decreases self, 1int,
    {
        match self {
            ScalarRef::Null => Domain::Nullable(NullableDomain { has_null: true, value: None }),
            ScalarRef::EmptyArray => Domain::Array(None),
            ScalarRef::EmptyMap => Domain::KvMap(None),
            ScalarRef::Number(n) => {
                let sd = match n {
                    NumberScalar::UInt8(x) => NumberDomain::UInt8(SimpleDomain { min: *x, max: *x }),
                    NumberScalar::UInt16(x) => NumberDomain::UInt16(
                        SimpleDomain { min: *x, max: *x },
                    ),
                    NumberScalar::UInt32(x) => NumberDomain::UInt32(
                        SimpleDomain { min: *x, max: *x },
                    ),
                    NumberScalar::UInt64(x) => NumberDomain::UInt64(
                        SimpleDomain { min: *x, max: *x },
                    ),
                    NumberScalar::Int8(x) => NumberDomain::Int8(SimpleDomain { min: *x, max: *x }),
                    NumberScalar::Int16(x) => NumberDomain::Int16(SimpleDomain { min: *x, max: *x }),
                    NumberScalar::Int32(x) => NumberDomain::Int32(SimpleDomain { min: *x, max: *x }),
                    NumberScalar::Int64(x) => NumberDomain::Int64(SimpleDomain { min: *x, max: *x }),
                };
                Domain::Number(sd)
            }
            ScalarRef::Decimal(v) => Domain::Decimal(
                match v {
                    DecimalScalar::Decimal128(x, size) => DecimalDomain::Decimal128(
                        SimpleDomain { min: *x, max: *x },
                        *size,
                    ),
                    DecimalScalar::Decimal256(x, size) => DecimalDomain::Decimal256(
                        SimpleDomain { min: *x, max: *x },
                        *size,
                    ),
                },
            ),
            ScalarRef::Boolean(b) => Domain::Boolean(
                BooleanDomain { has_false: !*b, has_true: *b },
            ),
            ScalarRef::String(bytes) => {
                let mn = crate::column::copy_bytes_range(bytes, 0, bytes.len());
                let mx = crate::column::copy_bytes_range(bytes, 0, bytes.len());
                proof {
                    assert(mn@ =~= bytes@);
                    assert(mx@ =~= bytes@);
                }
                Domain::String(StringDomain { min: mn, max: Some(mx) })
            }
            ScalarRef::Timestamp(v) => Domain::Timestamp(SimpleDomain { min: *v, max: *v }),
            ScalarRef::Date(v) => Domain::Date(SimpleDomain { min: *v, max: *v }),
            ScalarRef::Array(col) => {
                let n = col.len();
                if n == 0 {
                    Domain::Array(None)
                } else {
                    Domain::Array(Some(Box::new(col.domain())))
                }
            }
            ScalarRef::KvMap(col) => {
                let n = col.len();
                if n == 0 {
                    Domain::KvMap(None)
                } else {
                    match col {
                        Column::Tuple { fields, len } => {
                            proof {
                                assert(col.wf());
                                assert(crate::column::cols_wf_len(fields@, *len as nat));
                                crate::column::lemma_cols_wf_len(fields@, *len as nat);
                                assert(cols_domain_defined(fields@));
                                lemma_cols_domain_defined(fields@);
                                crate::column::lemma_cols_typs(fields@);
                                assert(fields@.len() == 2);
                            }
                            let mut ds = domains_of(fields, Ghost(fields@));
                            let ghost ds0 = ds@;
                            let d1 = ds.remove(1);
                            let d0 = ds.remove(0);
                            proof {
                                assert(d1 == ds0[1]);
                                assert(d0 == ds0[0]);
                                assert(domain_ok(&ds0[0], &fields@[0]));
                                assert(domain_ok(&ds0[1], &fields@[1]));
                            }
                            let r = Domain::KvMap(Some(Box::new((d0, d1))));
                            proof {
                                assert(r->KvMap_0->Some_0.0 == ds0[0]);
                                assert(r->KvMap_0->Some_0.1 == ds0[1]);
                            }
                            r
                        }
                        _ => vstd::pervasive::unreached(),
                    }
                }
            }
            ScalarRef::Tuple(fields) => {
                proof {
                    crate::scalar::lemma_refs_wf(fields@);
                    lemma_refs_domain_defined(fields@);
                }
                let ds = ref_domains_of(fields, Ghost(fields@));
                let r = Domain::Tuple(ds);
                proof {
                    lemma_refs_domains_ok_intro(r->Tuple_0@, fields@);
                }
                r
            }
            ScalarRef::Variant(_) => Domain::Undefined,
        }
    }
}

/// The base summaries of each scalar view in a vector of siblings.
fn ref_domains_of(ss: &Vec<ScalarRef>, g: Ghost<Seq<ScalarRef>>) -> (r: Vec<Domain>)
    requires
        g@ == ss@,
        forall|i: int| 0 <= i < g@.len() ==> #[trigger] g@[i].wf(),
        forall|i: int| 0 <= i < g@.len() ==> #[trigger] scalar_domain_defined(&g@[i]),
    ensures
        r@.len() == g@.len(),
        forall|i: int| 0 <= i < g@.len() ==> #[trigger] scalar_domain_base_ok(&r@[i], &g@[i]),
    decreases g@,
{
    let mut out: Vec<Domain> = Vec::new();
    let mut i: usize = 0;
    while i < ss.len()
        invariant
            g@ == ss@,
            i <= ss@.len(),
            out@.len() == i as int,
            forall|j: int| 0 <= j < ss@.len() ==> #[trigger] ss@[j].wf(),
            forall|j: int| 0 <= j < ss@.len() ==> #[trigger] scalar_domain_defined(&ss@[j]),
            forall|j: int| 0 <= j < i as int ==> #[trigger] scalar_domain_base_ok(
                &out@[j],
                &ss@[j],
            ),
        decreases ss@.len() - i,
    {
        proof {
            assert(decreases_to!(g@ => g@[i as int]));
        }
        out.push(ss[i].domain_base());
        i = i + 1;
    }
    out
}

/// The characterization of a nullable column's inner summary: for flat
/// inner encodings the bounds and flags are exact over the rows whose
/// validity bit is set (masked rows' stored defaults do not leak into the
/// summary); for nested inner encodings the summary keeps the stored-row
/// semantics and is characterized by its shape.
pub open spec fn nullable_inner_ok(d: &Domain, c: &Column, valid: Seq<bool>) -> bool
    decreases c, 1int,
{
    match c {
        Column::Number(nc) => d matches Domain::Number(nd) && nd_kind(&nd) == nc.kind() && (forall|
            i: int,
        |
            0 <= i < nc.vals().len() && valid[i] ==> nd_min(&nd)
                <= (#[trigger] nc.vals()[i])->Number_0.ival() <= nd_max(&nd)) && (exists|i: int|
            0 <= i < nc.vals().len() && valid[i] && (#[trigger] nc.vals()[i])->Number_0.ival()
                == nd_min(&nd)) && (exists|i: int|
            0 <= i < nc.vals().len() && valid[i] && (#[trigger] nc.vals()[i])->Number_0.ival()
                == nd_max(&nd)),
        Column::Decimal(dc) => d matches Domain::Decimal(dd) && match (dc, dd) {
            (DecimalColumn::Decimal128(v, size), DecimalDomain::Decimal128(sd, dsize)) => dsize
                == size && (forall|i: int|
                0 <= i < v@.len() && valid[i] ==> sd.min <= #[trigger] v@[i] <= sd.max) && (exists|
                i: int,
            | 0 <= i < v@.len() && valid[i] && #[trigger] v@[i] == sd.min) && (exists|i: int|
                0 <= i < v@.len() && valid[i] && #[trigger] v@[i] == sd.max),
            (DecimalColumn::Decimal256(v, size), DecimalDomain::Decimal256(sd, dsize)) => dsize
                == size && (forall|i: int|
                0 <= i < v@.len() && valid[i] ==> sd.min.le(#[trigger] v@[i]) && v@[i].le(sd.max))
                && (exists|i: int| 0 <= i < v@.len() && valid[i] && #[trigger] v@[i] == sd.min)
                && (exists|i: int| 0 <= i < v@.len() && valid[i] && #[trigger] v@[i] == sd.max),
            _ => false,
        },
        Column::Boolean(v) => d matches Domain::Boolean(bd) && (bd.has_true <==> exists|i: int|
            0 <= i < v@.len() && valid[i] && #[trigger] v@[i]) && (bd.has_false <==> exists|i: int|
            0 <= i < v@.len() && valid[i] && !(#[trigger] v@[i])),
        Column::String(_) => d matches Domain::String(sd) && sd.max matches Some(mx) && (forall|
            i: int,
        |
            0 <= i < c.vals().len() && valid[i] ==> bytes_cmp(
                sd.min@,
                (#[trigger] c.vals()[i])->String_0,
            ) != Ordering::Greater) && (forall|i: int|
            0 <= i < c.vals().len() && valid[i] ==> bytes_cmp(
                mx@,
                (#[trigger] c.vals()[i])->String_0,
            ) != Ordering::Less) && (exists|i: int|
            0 <= i < c.vals().len() && valid[i] && #[trigger] c.vals()[i] == Val::String(sd.min@))
            && (exists|i: int|
            0 <= i < c.vals().len() && valid[i] && #[trigger] c.vals()[i] == Val::String(mx@)),
        Column::Timestamp(v) => d matches Domain::Timestamp(sd) && (forall|i: int|
            0 <= i < v@.len() && valid[i] ==> sd.min <= #[trigger] v@[i] <= sd.max) && (exists|
            i: int,
        | 0 <= i < v@.len() && valid[i] && #[trigger] v@[i] == sd.min) && (exists|i: int|
            0 <= i < v@.len() && valid[i] && #[trigger] v@[i] == sd.max),
        Column::Date(v) => d matches Domain::Date(sd) && (forall|i: int|
            0 <= i < v@.len() && valid[i] ==> sd.min <= #[trigger] v@[i] <= sd.max) && (exists|
            i: int,
        | 0 <= i < v@.len() && valid[i] && #[trigger] v@[i] == sd.min) && (exists|i: int|
            0 <= i < v@.len() && valid[i] && #[trigger] v@[i] == sd.max),
        Column::EmptyArray { .. } => d matches Domain::Array(o) && o is None,
        Column::EmptyMap { .. } => d matches Domain::KvMap(o) && o is None,
        Column::Variant(_) => d == Domain::Undefined,
        Column::Array(_) => domain_ok(d, c),
        Column::KvMap(_) => domain_ok(d, c),
        Column::Tuple { .. } => domain_ok(d, c),
        _ => false,
    }
}

/// The first index whose validity bit is set.
#[verifier::loop_isolation(false)]
fn first_valid(valid: &Vec<bool>) -> (r: usize)
    requires
        exists|i: int| 0 <= i < valid@.len() && valid@[i],
    ensures
        r < valid@.len(),
        valid@[r as int],
        forall|j: int| 0 <= j < r as int ==> !valid@[j],
{
    let nv = valid.len();
    let mut i: usize = 0;
    loop
        invariant
            nv == valid@.len(),
            i <= nv,
            forall|j: int| 0 <= j < i as int ==> !valid@[j],
        decreases valid@.len() - i,
    {
        proof {
            if i as int >= valid@.len() {
                assert(false);
            }
        }
        if valid[i] {
            return i;
        }
        i = i + 1;
    }
}

/// Minimum or maximum of the valid rows of a number buffer.
#[verifier::loop_isolation(false)]
fn number_min_max_masked(nc: &NumberColumn, valid: &Vec<bool>, want_min: bool) -> (r: NumberScalar)
    requires
        valid@.len() == nc.vals().len(),
        exists|i: int| 0 <= i < valid@.len() && valid@[i],
    ensures
        r.kind() == nc.kind(),
        exists|j: int|
            0 <= j < nc.vals().len() && valid@[j] && nc.vals()[j]->Number_0 == r,
        want_min ==> forall|j: int|
            0 <= j < nc.vals().len() && valid@[j] ==> r.ival()
                <= (#[trigger] nc.vals()[j])->Number_0.ival(),
        !want_min ==> forall|j: int|
            0 <= j < nc.vals().len() && valid@[j] ==> r.ival()
                >= (#[trigger] nc.vals()[j])->Number_0.ival(),
{
    let n = nc.len();
    let start = first_valid(valid);
    let nv = valid.len();
    proof {
        assert(start < nv);
    }
    let mut best = match nc.index(start) {
        Some(s) => s,
        None => vstd::pervasive::unreached(),
    };
    proof {
        crate::aggregate::lemma_number_vals(nc, start as int);
        assert(nc.vals()[start as int] == Val::Number(best));
    }
    let mut i: usize = start + 1;
    while i < n
        invariant
            start < i <= n,
            best.kind() == nc.kind(),
            exists|j: int| 0 <= j < i as int && valid@[j] && nc.vals()[j]->Number_0 == best,
            want_min ==> forall|j: int|
                0 <= j < i as int && valid@[j] ==> best.ival()
                    <= (#[trigger] nc.vals()[j])->Number_0.ival(),
            !want_min ==> forall|j: int|
                0 <= j < i as int && valid@[j] ==> best.ival()
                    >= (#[trigger] nc.vals()[j])->Number_0.ival(),
        decreases n - i,
    {
        if valid[i] {
            let cur = match nc.index(i) {
                Some(s) => s,
                None => vstd::pervasive::unreached(),
            };
            proof {
                crate::aggregate::lemma_number_vals(nc, i as int);
                assert(nc.vals()[i as int] == Val::Number(cur));
            }
            let take = match crate::ord::num_cmp(cur, best) {
                Some(Ordering::Less) => want_min,
                Some(Ordering::Greater) => !want_min,
                _ => false,
            };
            if take {
                best = cur;
            }
        }
        i = i + 1;
    }
    best
}

/// Lexicographic minimum or maximum of the valid rows of a string column.
#[verifier::loop_isolation(false)]
fn string_min_max_masked(c: &Column, valid: &Vec<bool>, want_min: bool) -> (r: Vec<u8>)
    requires
        c.wf(),
        c is String,
        valid@.len() == c.vals().len(),
        exists|i: int| 0 <= i < valid@.len() && valid@[i],
    ensures
        exists|j: int|
            0 <= j < c.vals().len() && valid@[j] && c.vals()[j] == Val::String(r@),
        want_min ==> forall|j: int|
            0 <= j < c.vals().len() && valid@[j] ==> bytes_cmp(
                r@,
                (#[trigger] c.vals()[j])->String_0,
            ) != Ordering::Greater,
        !want_min ==> forall|j: int|
            0 <= j < c.vals().len() && valid@[j] ==> bytes_cmp(
                r@,
                (#[trigger] c.vals()[j])->String_0,
            ) != Ordering::Less,
{
    let n = c.len();
    let start = first_valid(valid);
    let nv = valid.len();
    proof {
        assert(start < nv);
    }
    let firsts = c.index_unchecked(start);
    let mut best: Vec<u8> = match firsts {
        ScalarRef::String(b) => b,
        _ => {
            proof {
                crate::ord::lemma_sval_variant(&firsts);
                crate::column::lemma_string_val(c, start as int);
            }
            vstd::pervasive::unreached()
        }
    };
    proof {
        crate::ord::lemma_sval_variant(&firsts);
        assert(c.vals()[start as int] == Val::String(best@));
        crate::ord::lemma_bytes_cmp_refl(best@);
    }
    let mut i: usize = start + 1;
    while i < n
        invariant
            start < i <= n,
            n == c.vals().len(),
            exists|j: int| 0 <= j < i as int && valid@[j] && c.vals()[j] == Val::String(best@),
            want_min ==> forall|j: int|
                0 <= j < i as int && valid@[j] ==> bytes_cmp(
                    best@,
                    (#[trigger] c.vals()[j])->String_0,
                ) != Ordering::Greater,
            !want_min ==> forall|j: int|
                0 <= j < i as int && valid@[j] ==> bytes_cmp(
                    best@,
                    (#[trigger] c.vals()[j])->String_0,
                ) != Ordering::Less,
        decreases n - i,
    {
        if valid[i] {
            let curs = c.index_unchecked(i);
            let cur: Vec<u8> = match curs {
                ScalarRef::String(b) => b,
                _ => {
                    proof {
                        crate::ord::lemma_sval_variant(&curs);
                        crate::column::lemma_string_val(c, i as int);
                    }
                    vstd::pervasive::unreached()
                }
            };
            proof {
                crate::ord::lemma_sval_variant(&curs);
                assert(c.vals()[i as int] == Val::String(cur@));
            }
            let ord = crate::ord::cmp_bytes(&cur, &best);
            let take = match ord {
                Ordering::Less => want_min,
                Ordering::Greater => !want_min,
                Ordering::Equal => false,
            };
            if take {
                proof {
                    crate::ord::lemma_bytes_cmp_refl(cur@);
                    crate::ord::lemma_bytes_cmp_flip(cur@, best@);
                    assert forall|j: int| 0 <= j < i as int && valid@[j] implies (want_min
                        ==> bytes_cmp(cur@, (#[trigger] c.vals()[j])->String_0)
                        != Ordering::Greater) && (!want_min ==> bytes_cmp(
                        cur@,
                        c.vals()[j]->String_0,
                    ) != Ordering::Less) by {
                        crate::ord::lemma_bytes_cmp_trans(cur@, best@, c.vals()[j]->String_0);
                    }
                }
                best = cur;
            } else {
                proof {
                    crate::ord::lemma_bytes_cmp_flip(cur@, best@);
                    crate::ord::lemma_bytes_cmp_flip(best@, cur@);
                }
            }
        }
        i = i + 1;
    }
    best
}

/// Minimum and maximum of the valid rows of a vector of 64-bit integers.
#[verifier::loop_isolation(false)]
fn minmax_i64_masked(v: &Vec<i64>, valid: &Vec<bool>) -> (r: (i64, i64))
    requires
        valid@.len() == v@.len(),
        exists|i: int| 0 <= i < valid@.len() && valid@[i],
    ensures
        forall|i: int| 0 <= i < v@.len() && valid@[i] ==> r.0 <= #[trigger] v@[i] <= r.1,
        exists|i: int| 0 <= i < v@.len() && valid@[i] && #[trigger] v@[i] == r.0,
        exists|i: int| 0 <= i < v@.len() && valid@[i] && #[trigger] v@[i] == r.1,
{
    let start = first_valid(valid);
    let nv = valid.len();
    proof {
        assert(start < nv);
    }
    let mut mn = v[start];
    let mut mx = v[start];
    let mut i: usize = start + 1;
    while i < v.len()
        invariant
            start < i <= v@.len(),
            forall|j: int| 0 <= j < i as int && valid@[j] ==> mn <= #[trigger] v@[j] <= mx,
            exists|j: int| 0 <= j < i as int && valid@[j] && #[trigger] v@[j] == mn,
            exists|j: int| 0 <= j < i as int && valid@[j] && #[trigger] v@[j] == mx,
        decreases v@.len() - i,
    {
        if valid[i] {
            let x = v[i];
            if x < mn {
                mn = x;
            }
            if x > mx {
                mx = x;
            }
        }
        i = i + 1;
    }
    (mn, mx)
}

/// Minimum and maximum of the valid rows of a vector of 32-bit integers.
#[verifier::loop_isolation(false)]
fn minmax_i32_masked(v: &Vec<i32>, valid: &Vec<bool>) -> (r: (i32, i32))
    requires
        valid@.len() == v@.len(),
        exists|i: int| 0 <= i < valid@.len() && valid@[i],
    ensures
        forall|i: int| 0 <= i < v@.len() && valid@[i] ==> r.0 <= #[trigger] v@[i] <= r.1,
        exists|i: int| 0 <= i < v@.len() && valid@[i] && #[trigger] v@[i] == r.0,
        exists|i: int| 0 <= i < v@.len() && valid@[i] && #[trigger] v@[i] == r.1,
{
    let start = first_valid(valid);
    let nv = valid.len();
    proof {
        assert(start < nv);
    }
    let mut mn = v[start];
    let mut mx = v[start];
    let mut i: usize = start + 1;
    while i < v.len()
        invariant
            start < i <= v@.len(),
            forall|j: int| 0 <= j < i as int && valid@[j] ==> mn <= #[trigger] v@[j] <= mx,
            exists|j: int| 0 <= j < i as int && valid@[j] && #[trigger] v@[j] == mn,
            exists|j: int| 0 <= j < i as int && valid@[j] && #[trigger] v@[j] == mx,
        decreases v@.len() - i,
    {
        if valid[i] {
            let x = v[i];
            if x < mn {
                mn = x;
            }
            if x > mx {
                mx = x;
            }
        }
        i = i + 1;
    }
    (mn, mx)
}

/// The valid-row summary of a nullable column's inner encoding.
#[verifier::loop_isolation(false)]
#[verifier::rlimit(60)]
fn nullable_inner_domain(c: &Column, valid: &Vec<bool>) -> (r: Domain)
    requires
        c.wf(),
        !(c is Null),
        !(c is Nullable),
        domain_defined(c),
        valid@.len() == c.vals().len(),
        exists|i: int| 0 <= i < valid@.len() && valid@[i],
    ensures
        nullable_inner_ok(&r, c, valid@),
    decreases c, 1int,
{
    match c {
        Column::Number(nc) => {
            let mn = number_min_max_masked(nc, valid, true);
            let mx = number_min_max_masked(nc, valid, false);
            proof {
                crate::builder::lemma_number_scalar_kind(mn);
                crate::builder::lemma_number_scalar_kind(mx);
                crate::builder::lemma_number_column_kind(nc);
            }
            let nd = match (mn, mx) {
                (NumberScalar::UInt8(a), NumberScalar::UInt8(b)) => NumberDomain::UInt8(
                    SimpleDomain { min: a, max: b },
                ),
                (NumberScalar::UInt16(a), NumberScalar::UInt16(b)) => NumberDomain::UInt16(
                    SimpleDomain { min: a, max: b },
                ),
                (NumberScalar::UInt32(a), NumberScalar::UInt32(b)) => NumberDomain::UInt32(
                    SimpleDomain { min: a, max: b },
                ),
                (NumberScalar::UInt64(a), NumberScalar::UInt64(b)) => NumberDomain::UInt64(
                    SimpleDomain { min: a, max: b },
                ),
                (NumberScalar::Int8(a), NumberScalar::Int8(b)) => NumberDomain::Int8(
                    SimpleDomain { min: a, max: b },
                ),
                (NumberScalar::Int16(a), NumberScalar::Int16(b)) => NumberDomain::Int16(
                    SimpleDomain { min: a, max: b },
                ),
                (NumberScalar::Int32(a), NumberScalar::Int32(b)) => NumberDomain::Int32(
                    SimpleDomain { min: a, max: b },
                ),
                (NumberScalar::Int64(a), NumberScalar::Int64(b)) => NumberDomain::Int64(
                    SimpleDomain { min: a, max: b },
                ),
                _ => vstd::pervasive::unreached(),
            };
            Domain::Number(nd)
        }
        Column::Decimal(dc) => match dc {
            DecimalColumn::Decimal128(v, size) => {
                let start = first_valid(valid);
                let nv = valid.len();
                proof {
                    assert(start < nv);
                }
                let mut mn = v[start];
                let mut mx = v[start];
                let mut i: usize = start + 1;
                while i < v.len()
                    invariant
                        start < i <= v@.len(),
                        forall|j: int|
                            0 <= j < i as int && valid@[j] ==> mn <= #[trigger] v@[j] <= mx,
                        exists|j: int| 0 <= j < i as int && valid@[j] && #[trigger] v@[j] == mn,
                        exists|j: int| 0 <= j < i as int && valid@[j] && #[trigger] v@[j] == mx,
                    decreases v@.len() - i,
                {
                    if valid[i] {
                        let x = v[i];
                        if x < mn {
                            mn = x;
                        }
                        if x > mx {
                            mx = x;
                        }
                    }
                    i = i + 1;
                }
                Domain::Decimal(
                    DecimalDomain::Decimal128(SimpleDomain { min: mn, max: mx }, *size),
                )
            }
            DecimalColumn::Decimal256(v, size) => {
                let start = first_valid(valid);
                let nv = valid.len();
                proof {
                    assert(start < nv);
                }
                let mut mn = v[start];
                let mut mx = v[start];
                let mut i: usize = start + 1;
                while i < v.len()
                    invariant
                        start < i <= v@.len(),
                        forall|j: int|
                            0 <= j < i as int && valid@[j] ==> mn.le(#[trigger] v@[j]) && v@[j].le(
                                mx,
                            ),
                        exists|j: int| 0 <= j < i as int && valid@[j] && #[trigger] v@[j] == mn,
                        exists|j: int| 0 <= j < i as int && valid@[j] && #[trigger] v@[j] == mx,
                    decreases v@.len() - i,
                {
                    if valid[i] {
                        let x = v[i];
                        if x.hi < mn.hi || (x.hi == mn.hi && x.lo < mn.lo) {
                            mn = x;
                        }
                        if x.hi > mx.hi || (x.hi == mx.hi && x.lo > mx.lo) {
                            mx = x;
                        }
                    }
                    i = i + 1;
                }
                Domain::Decimal(
                    DecimalDomain::Decimal256(SimpleDomain { min: mn, max: mx }, *size),
                )
            }
        },
        Column::Boolean(v) => {
            let mut has_true = false;
            let mut has_false = false;
            let mut i: usize = 0;
            while i < v.len()
                invariant
                    i <= v@.len(),
                    has_true <==> exists|j: int|
                        0 <= j < i as int && valid@[j] && #[trigger] v@[j],
                    has_false <==> exists|j: int|
                        0 <= j < i as int && valid@[j] && !(#[trigger] v@[j]),
                decreases v@.len() - i,
            {
                if valid[i] {
                    if v[i] {
                        has_true = true;
                    } else {
                        has_false = true;
                    }
                }
                i = i + 1;
            }
            Domain::Boolean(BooleanDomain { has_false, has_true })
        }
        Column::String(_) => {
            let mn = string_min_max_masked(c, valid, true);
            let mx = string_min_max_masked(c, valid, false);
            Domain::String(StringDomain { min: mn, max: Some(mx) })
        }
        Column::Timestamp(v) => {
            let (mn, mx) = minmax_i64_masked(v, valid);
            Domain::Timestamp(SimpleDomain { min: mn, max: mx })
        }
        Column::Date(v) => {
            let (mn, mx) = minmax_i32_masked(v, valid);
            Domain::Date(SimpleDomain { min: mn, max: mx })
        }
        Column::EmptyArray { .. } => Domain::Array(None),
        Column::EmptyMap { .. } => Domain::KvMap(None),
        Column::Variant(_) => Domain::Undefined,
        Column::Array(_) => c.domain(),
        Column::KvMap(_) => c.domain(),
        Column::Tuple { .. } => c.domain(),
        _ => vstd::pervasive::unreached(),
    }
}

} // verus!
