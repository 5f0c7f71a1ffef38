//! The bridge to the standard external columnar array layout used for
//! transport and storage: physical arrays with validity bitmaps, wide
//! offsets, extension markers for variants the format has no native notion
//! of, and a declared-type-driven decoder back into columns.

use vstd::prelude::*;

use crate::column::cols_vals;
use crate::column::Column;
use crate::scalar::DecimalScalar;
use crate::scalar::NumberScalar;
use crate::scalar::Val;
use crate::scalar::I256;
use crate::types::DataType;
use crate::types::TypeV;

verus! {

/// The granularity of an external timestamp.
#[derive(Clone, Copy, Debug, PartialEq, Eq, Structural)]
pub enum TimeUnit {
    Second,
    Millisecond,
    Microsecond,
    Nanosecond,
}

/// The extension marker carried in the external metadata for logical types
/// the format has no native concept of.
#[derive(Clone, Copy, Debug, PartialEq, Eq, Structural)]
pub enum ExtMarker {
    Plain,
    EmptyArray,
    EmptyMap,
    Variant,
}

/// One external physical array. Validity bitmaps sit on the array itself;
/// a nullable column exports as its unwrapped inner array with the bitmap
/// attached.
#[derive(Debug)]
pub enum ExtArray {
    Null { len: usize, marker: ExtMarker },
    UInt8 { values: Vec<u8>, validity: Option<Vec<bool>> },
    UInt16 { values: Vec<u16>, validity: Option<Vec<bool>> },
    UInt32 { values: Vec<u32>, validity: Option<Vec<bool>> },
    UInt64 { values: Vec<u64>, validity: Option<Vec<bool>> },
    Int8 { values: Vec<i8>, validity: Option<Vec<bool>> },
    Int16 { values: Vec<i16>, validity: Option<Vec<bool>> },
    Int32 { values: Vec<i32>, validity: Option<Vec<bool>> },
    Int64 { values: Vec<i64>, validity: Option<Vec<bool>> },
    Decimal128 { values: Vec<i128>, precision: u8, scale: u8, validity: Option<Vec<bool>> },
    Decimal256 { values: Vec<I256>, precision: u8, scale: u8, validity: Option<Vec<bool>> },
    Boolean { values: Vec<bool>, validity: Option<Vec<bool>> },
    LargeBinary {
        data: Vec<u8>,
        offsets: Vec<i64>,
        marker: ExtMarker,
        validity: Option<Vec<bool>>,
    },
    Timestamp { values: Vec<i64>, unit: TimeUnit, validity: Option<Vec<bool>> },
    Date32 { values: Vec<i32>, validity: Option<Vec<bool>> },
    LargeList { offsets: Vec<i64>, values: Box<ExtArray>, validity: Option<Vec<bool>> },
    MapArr { offsets: Vec<i32>, entries: Box<ExtArray>, validity: Option<Vec<bool>> },
    Struct { fields: Vec<ExtArray>, len: usize, validity: Option<Vec<bool>> },
}

/// The factor a timestamp value is multiplied by to land on the internal
/// microsecond unit, and the divisor applied after.
pub open spec fn unit_mul(u: TimeUnit) -> int {
    match u {
        TimeUnit::Second => 1000000,
        TimeUnit::Millisecond => 1000,
        TimeUnit::Microsecond => 1,
        TimeUnit::Nanosecond => 1,
    }
}

/// An external timestamp normalized to the internal microsecond unit:
/// coarser units scale up exactly, nanoseconds divide with truncation
/// toward zero.
pub open spec fn scale_ts(x: int, u: TimeUnit) -> int {
    match u {
        TimeUnit::Second => x * 1000000,
        TimeUnit::Millisecond => x * 1000,
        TimeUnit::Microsecond => x,
        TimeUnit::Nanosecond => if x >= 0 {
            x / 1000
        } else {
            -((-x) / 1000)
        },
    }
}

/// The validity bitmap of an external array, if one is attached.
pub open spec fn ext_validity(e: &ExtArray) -> Option<Seq<bool>> {
    match e {
        ExtArray::Null { .. } => None,
        ExtArray::UInt8 { validity, .. } => validity_view(validity),
        ExtArray::UInt16 { validity, .. } => validity_view(validity),
        ExtArray::UInt32 { validity, .. } => validity_view(validity),
        ExtArray::UInt64 { validity, .. } => validity_view(validity),
        ExtArray::Int8 { validity, .. } => validity_view(validity),
        ExtArray::Int16 { validity, .. } => validity_view(validity),
        ExtArray::Int32 { validity, .. } => validity_view(validity),
        ExtArray::Int64 { validity, .. } => validity_view(validity),
        ExtArray::Decimal128 { validity, .. } => validity_view(validity),
        ExtArray::Decimal256 { validity, .. } => validity_view(validity),
        ExtArray::Boolean { validity, .. } => validity_view(validity),
        ExtArray::LargeBinary { validity, .. } => validity_view(validity),
        ExtArray::Timestamp { validity, .. } => validity_view(validity),
        ExtArray::Date32 { validity, .. } => validity_view(validity),
        ExtArray::LargeList { validity, .. } => validity_view(validity),
        ExtArray::MapArr { validity, .. } => validity_view(validity),
        ExtArray::Struct { validity, .. } => validity_view(validity),
    }
}

/// The view of an optional bitmap.
pub open spec fn validity_view(v: &Option<Vec<bool>>) -> Option<Seq<bool>> {
    match v {
        Some(bits) => Some(bits@),
        None => None,
    }
}

/// The number of rows of an external array.
pub open spec fn ext_len(e: &ExtArray) -> nat {
    match e {
        ExtArray::Null { len, .. } => *len as nat,
        ExtArray::UInt8 { values, .. } => values@.len(),
        ExtArray::UInt16 { values, .. } => values@.len(),
        ExtArray::UInt32 { values, .. } => values@.len(),
        ExtArray::UInt64 { values, .. } => values@.len(),
        ExtArray::Int8 { values, .. } => values@.len(),
        ExtArray::Int16 { values, .. } => values@.len(),
        ExtArray::Int32 { values, .. } => values@.len(),
        ExtArray::Int64 { values, .. } => values@.len(),
        ExtArray::Decimal128 { values, .. } => values@.len(),
        ExtArray::Decimal256 { values, .. } => values@.len(),
        ExtArray::Boolean { values, .. } => values@.len(),
        ExtArray::LargeBinary { offsets, .. } => (offsets@.len() - 1) as nat,
        ExtArray::Timestamp { values, .. } => values@.len(),
        ExtArray::Date32 { values, .. } => values@.len(),
        ExtArray::LargeList { offsets, .. } => (offsets@.len() - 1) as nat,
        ExtArray::MapArr { offsets, .. } => (offsets@.len() - 1) as nat,
        ExtArray::Struct { len, .. } => *len as nat,
    }
}

/// The base (unmasked) logical rows an external array decodes to under a
/// declared non-nullable type.
pub open spec fn ext_vals_base(e: &ExtArray, t: TypeV) -> Seq<Val>
    decreases e,
{
    match e {
        ExtArray::Null { len, marker } => Seq::new(
            *len as nat,
            |i: int| match marker {
                ExtMarker::EmptyArray => Val::EmptyArray,
                ExtMarker::EmptyMap => Val::EmptyMap,
                _ => Val::Null,
            },
        ),
        ExtArray::UInt8 { values, .. } => Seq::new(
            values@.len(),
            |i: int| Val::Number(NumberScalar::UInt8(values@[i])),
        ),
        ExtArray::UInt16 { values, .. } => Seq::new(
            values@.len(),
            |i: int| Val::Number(NumberScalar::UInt16(values@[i])),
        ),
        ExtArray::UInt32 { values, .. } => Seq::new(
            values@.len(),
            |i: int| Val::Number(NumberScalar::UInt32(values@[i])),
        ),
        ExtArray::UInt64 { values, .. } => Seq::new(
            values@.len(),
            |i: int| Val::Number(NumberScalar::UInt64(values@[i])),
        ),
        ExtArray::Int8 { values, .. } => Seq::new(
            values@.len(),
            |i: int| Val::Number(NumberScalar::Int8(values@[i])),
        ),
        ExtArray::Int16 { values, .. } => Seq::new(
            values@.len(),
            |i: int| Val::Number(NumberScalar::Int16(values@[i])),
        ),
        ExtArray::Int32 { values, .. } => Seq::new(
            values@.len(),
            |i: int| Val::Number(NumberScalar::Int32(values@[i])),
        ),
        ExtArray::Int64 { values, .. } => Seq::new(
            values@.len(),
            |i: int| Val::Number(NumberScalar::Int64(values@[i])),
        ),
        ExtArray::Decimal128 { values, precision, scale, .. } => Seq::new(
            values@.len(),
            |i: int| Val::Decimal(
                DecimalScalar::Decimal128(
                    values@[i],
                    crate::types::DecimalSize { precision: *precision, scale: *scale },
                ),
            ),
        ),
        ExtArray::Decimal256 { values, precision, scale, .. } => Seq::new(
            values@.len(),
            |i: int| Val::Decimal(
                DecimalScalar::Decimal256(
                    values@[i],
                    crate::types::DecimalSize { precision: *precision, scale: *scale },
                ),
            ),
        ),
        ExtArray::Boolean { values, .. } => Seq::new(
            values@.len(),
            |i: int| Val::Boolean(values@[i]),
        ),
        ExtArray::LargeBinary { data, offsets, marker, .. } => Seq::new(
            (offsets@.len() - 1) as nat,
            |i: int| if marker is Variant {
                Val::Variant(data@.subrange(offsets@[i] as int, offsets@[i + 1] as int))
            } else {
                Val::String(data@.subrange(offsets@[i] as int, offsets@[i + 1] as int))
            },
        ),
        ExtArray::Timestamp { values, unit, .. } => Seq::new(
            values@.len(),
            |i: int| Val::Timestamp(scale_ts(values@[i] as int, *unit) as i64),
        ),
        ExtArray::Date32 { values, .. } => Seq::new(
            values@.len(),
            |i: int| Val::Date(values@[i]),
        ),
        ExtArray::LargeList { offsets, values, .. } => {
            let inner = ext_vals_base(values, list_elem(t));
            let inner_masked = mask_vals(inner, ext_validity(values), list_inner_nullable(t));
            Seq::new(
                (offsets@.len() - 1) as nat,
                |i: int| Val::Array(
                    inner_masked.subrange(offsets@[i] as int, offsets@[i + 1] as int),
                ),
            )
        }
        ExtArray::MapArr { offsets, entries, .. } => {
            let inner = ext_vals_base(entries, list_elem(t));
            let inner_masked = mask_vals(inner, ext_validity(entries), list_inner_nullable(t));
            Seq::new(
                (offsets@.len() - 1) as nat,
                |i: int| Val::KvMap(
                    inner_masked.subrange(offsets@[i] as int, offsets@[i + 1] as int),
                ),
            )
        }
        ExtArray::Struct { fields, len, .. } => {
            let cols = ext_fields_vals(fields@, tuple_elems(t));
            Seq::new(
                *len as nat,
                |i: int| Val::Tuple(Seq::new(cols.len(), |j: int| cols[j][i])),
            )
        }
    }
}

/// The masked rows: where a validity bit is unset the row is null, and an
/// absent bitmap leaves every row intact. Masking applies only under a
/// nullable declared type.
pub open spec fn mask_vals(base: Seq<Val>, v: Option<Seq<bool>>, nullable: bool) -> Seq<Val> {
    if nullable {
        match v {
            Some(bits) => Seq::new(
                base.len(),
                |i: int| if 0 <= i < bits.len() && !bits[i] {
                    Val::Null
                } else {
                    base[i]
                },
            ),
            None => base,
        }
    } else {
        base
    }
}

/// The element type a declared list-like type carries, unwrapped of its
/// nullability.
pub open spec fn list_elem(t: TypeV) -> TypeV {
    match t {
        TypeV::Array(inner) => inner.unwrap_nullable(),
        TypeV::KvMap(inner) => inner.unwrap_nullable(),
        _ => TypeV::Null,
    }
}

/// Whether a declared list-like type's element type is nullable.
pub open spec fn list_inner_nullable(t: TypeV) -> bool {
    match t {
        TypeV::Array(inner) => *inner is Nullable,
        TypeV::KvMap(inner) => *inner is Nullable,
        _ => false,
    }
}

/// The declared field types of a tuple type.
pub open spec fn tuple_elems(t: TypeV) -> Seq<TypeV> {
    match t {
        TypeV::Tuple(ts) => ts,
        _ => Seq::empty(),
    }
}

/// The decoded-and-masked rows of each field array against its declared
/// field type.
pub open spec fn ext_fields_vals(es: Seq<ExtArray>, ts: Seq<TypeV>) -> Seq<Seq<Val>>
    decreases es,
{
    if es.len() == 0 {
        Seq::empty()
    } else {
        ext_fields_vals(es.drop_last(), ts.drop_last()).push(
            mask_vals(
                ext_vals_base(&es.last(), ts[es.len() - 1].unwrap_nullable()),
                ext_validity(&es.last()),
                ts[es.len() - 1] is Nullable,
            ),
        )
    }
}

/// `ext_fields_vals` maps the sequences pairwise.
pub proof fn lemma_ext_fields_vals(es: Seq<ExtArray>, ts: Seq<TypeV>)
    requires
        es.len() == ts.len(),
    ensures
        ext_fields_vals(es, ts).len() == es.len(),
        forall|i: int|
            0 <= i < es.len() ==> #[trigger] ext_fields_vals(es, ts)[i] == mask_vals(
                ext_vals_base(&es[i], ts[i].unwrap_nullable()),
                ext_validity(&es[i]),
                ts[i] is Nullable,
            ),
    decreases es.len(),
{
    if es.len() > 0 {
        lemma_ext_fields_vals(es.drop_last(), ts.drop_last());
        assert forall|i: int| 0 <= i < es.len() implies #[trigger] ext_fields_vals(es, ts)[i]
            == mask_vals(
            ext_vals_base(&es[i], ts[i].unwrap_nullable()),
            ext_validity(&es[i]),
            ts[i] is Nullable,
        ) by {
            if i < es.len() - 1 {
                assert(es.drop_last()[i] == es[i]);
                assert(ts.drop_last()[i] == ts[i]);
            } else {
                assert(es[i] == es.last());
            }
        }
    }
}

/// The logical rows an external array decodes to under a declared type:
/// the base rows, with the validity mask applied when the type is nullable.
pub open spec fn ext_vals(e: &ExtArray, t: TypeV) -> Seq<Val> {
    mask_vals(ext_vals_base(e, t.unwrap_nullable()), ext_validity(e), t is Nullable)
}

/// An offsets buffer of wide integers is usable: present, non-negative,
/// non-decreasing, addressable on this machine, and bounded by `limit`.
pub open spec fn i64_offsets_wf(offs: Seq<i64>, limit: int) -> bool {
    &&& offs.len() >= 1
    &&& forall|i: int, j: int| 0 <= i <= j < offs.len() ==> offs[i] <= offs[j]
    &&& forall|i: int| 0 <= i < offs.len() ==> 0 <= #[trigger] offs[i]
    &&& forall|i: int| 0 <= i < offs.len() ==> #[trigger] offs[i] as int <= usize::MAX as int
    &&& offs.last() <= limit
}

/// The map variant's narrower offsets buffer is usable in the same way.
pub open spec fn i32_offsets_wf(offs: Seq<i32>, limit: int) -> bool {
    &&& offs.len() >= 1
    &&& forall|i: int, j: int| 0 <= i <= j < offs.len() ==> offs[i] <= offs[j]
    &&& forall|i: int| 0 <= i < offs.len() ==> 0 <= #[trigger] offs[i]
    &&& forall|i: int| 0 <= i < offs.len() ==> #[trigger] offs[i] as int <= usize::MAX as int
    &&& offs.last() <= limit
}

/// A validity bitmap, if attached, covers exactly the rows.
pub open spec fn ext_validity_wf(e: &ExtArray) -> bool {
    match ext_validity(e) {
        Some(bits) => bits.len() == ext_len(e),
        None => true,
    }
}

/// Whether an external array matches a declared logical type and is sound
/// to decode: the physical kind fits the type, offsets and bitmaps are well
/// formed, and timestamp normalization cannot overflow.
pub open spec fn ext_wf(e: &ExtArray, t: TypeV) -> bool
    decreases e,
{
    ext_validity_wf(e) && {
        let tb = t.unwrap_nullable();
        match e {
            ExtArray::Null { marker, .. } => match marker {
                ExtMarker::Plain => tb is Null && !(t is Nullable),
                ExtMarker::EmptyArray => tb is EmptyArray && !(t is Nullable),
                ExtMarker::EmptyMap => tb is EmptyMap && !(t is Nullable),
                ExtMarker::Variant => false,
            },
            ExtArray::UInt8 { .. } => tb == TypeV::Number(crate::types::NumberDataType::UInt8),
            ExtArray::UInt16 { .. } => tb == TypeV::Number(crate::types::NumberDataType::UInt16),
            ExtArray::UInt32 { .. } => tb == TypeV::Number(crate::types::NumberDataType::UInt32),
            ExtArray::UInt64 { .. } => tb == TypeV::Number(crate::types::NumberDataType::UInt64),
            ExtArray::Int8 { .. } => tb == TypeV::Number(crate::types::NumberDataType::Int8),
            ExtArray::Int16 { .. } => tb == TypeV::Number(crate::types::NumberDataType::Int16),
            ExtArray::Int32 { .. } => tb == TypeV::Number(crate::types::NumberDataType::Int32),
            ExtArray::Int64 { .. } => tb == TypeV::Number(crate::types::NumberDataType::Int64),
            ExtArray::Decimal128 { precision, scale, .. } => tb == TypeV::Decimal(
                crate::types::DecimalDataType::Decimal128(
                    crate::types::DecimalSize { precision: *precision, scale: *scale },
                ),
            ),
            ExtArray::Decimal256 { precision, scale, .. } => tb == TypeV::Decimal(
                crate::types::DecimalDataType::Decimal256(
                    crate::types::DecimalSize { precision: *precision, scale: *scale },
                ),
            ),
            ExtArray::Boolean { .. } => tb is Boolean,
            ExtArray::LargeBinary { data, offsets, marker, .. } => i64_offsets_wf(
                offsets@,
                data@.len() as int,
            ) && match marker {
                ExtMarker::Plain => tb is String,
                ExtMarker::Variant => tb is Variant && (forall|i: int|
                    0 <= i < offsets@.len() - 1 ==> crate::ord::jsonb_wf(
                        #[trigger] data@.subrange(offsets@[i] as int, offsets@[i + 1] as int),
                    )),
                _ => false,
            },
            ExtArray::Timestamp { values, unit, .. } => tb is Timestamp && (forall|i: int|
                0 <= i < values@.len() ==> i64::MIN as int <= (#[trigger] values@[i]) * unit_mul(
                    *unit,
                ) <= i64::MAX as int),
            ExtArray::Date32 { .. } => tb is Date,
            ExtArray::LargeList { offsets, values, .. } => tb matches TypeV::Array(inner)
                && i64_offsets_wf(offsets@, ext_len(values) as int) && ext_wf(values, *inner),
            ExtArray::MapArr { offsets, entries, .. } => tb matches TypeV::KvMap(inner)
                && i32_offsets_wf(offsets@, ext_len(entries) as int) && ext_wf(entries, *inner),
            ExtArray::Struct { fields, len, .. } => tb matches TypeV::Tuple(ts) && fields@.len()
                == ts.len() && ext_fields_wf(fields@, ts) && (forall|i: int|
                0 <= i < fields@.len() ==> ext_len(&fields@[i]) == *len as nat),
        }
    }
}

/// Pairwise `ext_wf` over sibling field arrays and their declared types.
pub open spec fn ext_fields_wf(es: Seq<ExtArray>, ts: Seq<TypeV>) -> bool
    decreases es,
{
    es.len() == 0 || (ext_fields_wf(es.drop_last(), ts.drop_last()) && ext_wf(
        &es.last(),
        ts[es.len() - 1],
    ))
}

/// `ext_fields_wf` holds pairwise.
pub proof fn lemma_ext_fields_wf(es: Seq<ExtArray>, ts: Seq<TypeV>)
    requires
        es.len() == ts.len(),
        ext_fields_wf(es, ts),
    ensures
        forall|i: int| 0 <= i < es.len() ==> #[trigger] ext_wf(&es[i], ts[i]),
    decreases es.len(),
{
    if es.len() > 0 {
        lemma_ext_fields_wf(es.drop_last(), ts.drop_last());
        assert forall|i: int| 0 <= i < es.len() implies #[trigger] ext_wf(&es[i], ts[i]) by {
            if i < es.len() - 1 {
                assert(ext_wf(&es.drop_last()[i], ts.drop_last()[i]));
                assert(es.drop_last()[i] == es[i]);
                assert(ts.drop_last()[i] == ts[i]);
            } else {
                assert(es[i] == es.last());
            }
        }
    }
}

/// `ext_fields_wf` from pairwise facts.
pub proof fn lemma_ext_fields_wf_intro(es: Seq<ExtArray>, ts: Seq<TypeV>)
    requires
        es.len() == ts.len(),
        forall|i: int| 0 <= i < es.len() ==> #[trigger] ext_wf(&es[i], ts[i]),
    ensures
        ext_fields_wf(es, ts),
    decreases es.len(),
{
    if es.len() > 0 {
        assert forall|i: int| 0 <= i < es.drop_last().len() implies #[trigger] ext_wf(
            &es.drop_last()[i],
            ts.drop_last()[i],
        ) by {
            assert(es.drop_last()[i] == es[i]);
            assert(ts.drop_last()[i] == ts[i]);
            assert(ext_wf(&es[i], ts[i]));
        }
        lemma_ext_fields_wf_intro(es.drop_last(), ts.drop_last());
        assert(es.last() == es[es.len() - 1]);
        assert(ext_wf(&es[es.len() - 1], ts[es.len() - 1]));
    }
}

/// Whether a column can be exported: its offsets fit the external offset
/// widths, and no nullable wrapper sits over a virtual empty-collection
/// column, whose external form cannot carry a validity bitmap.
pub open spec fn exportable(c: &Column) -> bool
    decreases c,
{
    match c {
        Column::String(sc) => forall|i: int|
            0 <= i < sc.offsets@.len() ==> #[trigger] sc.offsets@[i] as int <= i64::MAX as int,
        Column::Variant(sc) => forall|i: int|
            0 <= i < sc.offsets@.len() ==> #[trigger] sc.offsets@[i] as int <= i64::MAX as int,
        Column::Array(ac) => (forall|i: int|
            0 <= i < ac.offsets@.len() ==> #[trigger] ac.offsets@[i] as int <= i64::MAX as int)
            && exportable(&ac.values),
        Column::KvMap(ac) => (forall|i: int|
            0 <= i < ac.offsets@.len() ==> #[trigger] ac.offsets@[i] as int <= i32::MAX as int)
            && exportable(&ac.values),
        Column::Nullable(nc) => !(nc.column is EmptyArray) && !(nc.column is EmptyMap)
            && exportable(&nc.column),
        Column::Tuple { fields, .. } => cols_exportable(fields@),
        _ => true,
    }
}

/// `exportable` over sibling columns.
pub open spec fn cols_exportable(cs: Seq<Column>) -> bool
    decreases cs,
{
    cs.len() == 0 || (cols_exportable(cs.drop_last()) && exportable(&cs.last()))
}

/// `cols_exportable` holds elementwise.
pub proof fn lemma_cols_exportable(cs: Seq<Column>)
    requires
        cols_exportable(cs),
    ensures
        forall|i: int| 0 <= i < cs.len() ==> #[trigger] exportable(&cs[i]),
    decreases cs.len(),
{
    if cs.len() > 0 {
        lemma_cols_exportable(cs.drop_last());
        assert forall|i: int| 0 <= i < cs.len() implies #[trigger] exportable(&cs[i]) by {
            if i < cs.len() - 1 {
                assert(exportable(&cs.drop_last()[i]));
                assert(cs.drop_last()[i] == cs[i]);
            } else {
                assert(cs[i] == cs.last());
            }
        }
    }
}

/// The decoded base rows are exactly one per external row.
pub proof fn lemma_ext_base_len(e: &ExtArray, t: TypeV)
    ensures
        ext_vals_base(e, t).len() == ext_len(e),
    decreases e,
{
    match e {
        ExtArray::Struct { fields, len, .. } => {
        }
        _ => {},
    }
}

/// Masking keeps the number of rows.
pub proof fn lemma_mask_len(base: Seq<Val>, v: Option<Seq<bool>>, nullable: bool)
    ensures
        mask_vals(base, v, nullable).len() == base.len(),
{
}

/// Widened copies of a machine-width offsets buffer.
fn widen_offsets(offs: &Vec<usize>) -> (r: Vec<i64>)
    requires
        forall|i: int| 0 <= i < offs@.len() ==> #[trigger] offs@[i] as int <= i64::MAX as int,
    ensures
        r@.len() == offs@.len(),
        forall|i: int| 0 <= i < offs@.len() ==> #[trigger] r@[i] as int == offs@[i] as int,
    decreases offs@,
{
    let mut out: Vec<i64> = Vec::new();
    let mut i: usize = 0;
    while i < offs.len()
        invariant
            i <= offs@.len(),
            out@.len() == i as int,
            forall|j: int| 0 <= j < offs@.len() ==> #[trigger] offs@[j] as int <= i64::MAX as int,
            forall|j: int| 0 <= j < i as int ==> #[trigger] out@[j] as int == offs@[j] as int,
        decreases offs@.len() - i,
    {
        out.push(offs[i] as i64);
        i = i + 1;
    }
    out
}

/// Narrowed copies of a machine-width offsets buffer for the map layout.
fn narrow_offsets(offs: &Vec<usize>) -> (r: Vec<i32>)
    requires
        forall|i: int| 0 <= i < offs@.len() ==> #[trigger] offs@[i] as int <= i32::MAX as int,
    ensures
        r@.len() == offs@.len(),
        forall|i: int| 0 <= i < offs@.len() ==> #[trigger] r@[i] as int == offs@[i] as int,
    decreases offs@,
{
    let mut out: Vec<i32> = Vec::new();
    let mut i: usize = 0;
    while i < offs.len()
        invariant
            i <= offs@.len(),
            out@.len() == i as int,
            forall|j: int| 0 <= j < offs@.len() ==> #[trigger] offs@[j] as int <= i32::MAX as int,
            forall|j: int| 0 <= j < i as int ==> #[trigger] out@[j] as int == offs@[j] as int,
        decreases offs@.len() - i,
    {
        out.push(offs[i] as i32);
        i = i + 1;
    }
    out
}

/// Export one column as an external array. A nullable column hands its
/// bitmap down and exports as its unwrapped inner array; the `validity`
/// argument is that handed-down bitmap.
#[verifier::loop_isolation(false)]
#[verifier::rlimit(90)]
fn to_ext(c: &Column, validity: Option<Vec<bool>>) -> (r: ExtArray)
    requires
        c.wf(),
        exportable(c),
        c is Nullable ==> validity is None,
        match validity {
            Some(v) => v@.len() == c.vals().len() && !(c is Null) && !(c is EmptyArray) && !(
            c is EmptyMap),
            None => true,
        },
    ensures
        ext_len(&r) == c.vals().len(),
        c is Nullable ==> ext_wf(&r, c.typ()) && ext_vals(&r, c.typ()) == c.vals(),
        !(c is Nullable) && validity is None ==> ext_validity(&r) is None && ext_vals_base(
            &r,
            c.typ(),
        ) == c.vals() && ext_wf(&r, c.typ()),
        !(c is Nullable) ==> match validity {
            Some(v) => ext_validity(&r) == Some(v@) && ext_vals_base(&r, c.typ()) == c.vals()
                && ext_wf(&r, TypeV::Nullable(Box::new(c.typ()))),
            None => true,
        },
    decreases c,
{
    let ghost gv = validity;
    match c {
        Column::Null { len } => {
            let r = ExtArray::Null { len: *len, marker: ExtMarker::Plain };
            proof {
                assert(ext_vals_base(&r, c.typ()) =~= c.vals());
            }
            r
        }
        Column::EmptyArray { len } => {
            let r = ExtArray::Null { len: *len, marker: ExtMarker::EmptyArray };
            proof {
                assert(ext_vals_base(&r, c.typ()) =~= c.vals());
            }
            r
        }
        Column::EmptyMap { len } => {
            let r = ExtArray::Null { len: *len, marker: ExtMarker::EmptyMap };
            proof {
                assert(ext_vals_base(&r, c.typ()) =~= c.vals());
            }
            r
        }
        Column::Number(nc) => {
            let r = match nc {
                crate::column::NumberColumn::UInt8(v) => ExtArray::UInt8 {
                    values: crate::column::copy_range(v, 0, v.len()),
                    validity,
                },
                crate::column::NumberColumn::UInt16(v) => ExtArray::UInt16 {
                    values: crate::column::copy_range(v, 0, v.len()),
                    validity,
                },
                crate::column::NumberColumn::UInt32(v) => ExtArray::UInt32 {
                    values: crate::column::copy_range(v, 0, v.len()),
                    validity,
                },
                crate::column::NumberColumn::UInt64(v) => ExtArray::UInt64 {
                    values: crate::column::copy_range(v, 0, v.len()),
                    validity,
                },
                crate::column::NumberColumn::Int8(v) => ExtArray::Int8 {
                    values: crate::column::copy_range(v, 0, v.len()),
                    validity,
                },
                crate::column::NumberColumn::Int16(v) => ExtArray::Int16 {
                    values: crate::column::copy_range(v, 0, v.len()),
                    validity,
                },
                crate::column::NumberColumn::Int32(v) => ExtArray::Int32 {
                    values: crate::column::copy_range(v, 0, v.len()),
                    validity,
                },
                crate::column::NumberColumn::Int64(v) => ExtArray::Int64 {
                    values: crate::column::copy_range(v, 0, v.len()),
                    validity,
                },
            };
            proof {
                assert(ext_vals_base(&r, c.typ()) =~= c.vals());
            }
            r
        }
        Column::Decimal(dc) => {
            let r = match dc {
                crate::column::DecimalColumn::Decimal128(v, size) => ExtArray::Decimal128 {
                    values: crate::column::copy_range(v, 0, v.len()),
                    precision: size.precision,
                    scale: size.scale,
                    validity,
                },
                crate::column::DecimalColumn::Decimal256(v, size) => ExtArray::Decimal256 {
                    values: crate::column::copy_range(v, 0, v.len()),
                    precision: size.precision,
                    scale: size.scale,
                    validity,
                },
            };
            proof {
                assert(ext_vals_base(&r, c.typ()) =~= c.vals());
            }
            r
        }
        Column::Boolean(v) => {
            let r = ExtArray::Boolean { values: crate::column::copy_range(v, 0, v.len()), validity };
            proof {
                assert(ext_vals_base(&r, c.typ()) =~= c.vals());
            }
            r
        }
        Column::String(sc) => {
            let r = ExtArray::LargeBinary {
                data: crate::column::copy_range(&sc.data, 0, sc.data.len()),
                offsets: widen_offsets(&sc.offsets),
                marker: ExtMarker::Plain,
                validity,
            };
            proof {
                assert forall|i: int| 0 <= i < c.vals().len() implies ext_vals_base(&r, c.typ())[i]
                    == c.vals()[i] by {
                    assert(r->LargeBinary_offsets@[i] as int == sc.offsets@[i] as int);
                    assert(r->LargeBinary_offsets@[i + 1] as int == sc.offsets@[i + 1] as int);
                    assert(r->LargeBinary_data@ == sc.data@);
                }
                lemma_ext_base_len(&r, c.typ());
                assert(ext_vals_base(&r, c.typ()) =~= c.vals());
            }
            r
        }
        Column::Variant(sc) => {
            let r = ExtArray::LargeBinary {
                data: crate::column::copy_range(&sc.data, 0, sc.data.len()),
                offsets: widen_offsets(&sc.offsets),
                marker: ExtMarker::Variant,
                validity,
            };
            proof {
                assert forall|i: int| 0 <= i < c.vals().len() implies ext_vals_base(&r, c.typ())[i]
                    == c.vals()[i] by {
                    assert(r->LargeBinary_offsets@[i] as int == sc.offsets@[i] as int);
                    assert(r->LargeBinary_offsets@[i + 1] as int == sc.offsets@[i + 1] as int);
                    assert(r->LargeBinary_data@ == sc.data@);
                }
                lemma_ext_base_len(&r, c.typ());
                assert(ext_vals_base(&r, c.typ()) =~= c.vals());
                let offs = r->LargeBinary_offsets@;
                let dat = r->LargeBinary_data@;
                assert forall|i: int| 0 <= i < offs.len() - 1 implies crate::ord::jsonb_wf(
                    #[trigger] dat.subrange(offs[i] as int, offs[i + 1] as int),
                ) by {
                    assert(offs[i] as int == sc.offsets@[i] as int);
                    assert(offs[i + 1] as int == sc.offsets@[i + 1] as int);
                    assert(dat.subrange(offs[i] as int, offs[i + 1] as int) =~= sc.row(i));
                    assert(crate::ord::jsonb_wf(sc.row(i)));
                }
            }
            r
        }
        Column::Timestamp(v) => {
            let r = ExtArray::Timestamp {
                values: crate::column::copy_range(v, 0, v.len()),
                unit: TimeUnit::Microsecond,
                validity,
            };
            proof {
                assert(ext_vals_base(&r, c.typ()) =~= c.vals());
            }
            r
        }
        Column::Date(v) => {
            let r = ExtArray::Date32 { values: crate::column::copy_range(v, 0, v.len()), validity };
            proof {
                assert(ext_vals_base(&r, c.typ()) =~= c.vals());
            }
            r
        }
        Column::Array(ac) => {
            let inner = to_ext(&ac.values, None);
            let r = ExtArray::LargeList {
                offsets: widen_offsets(&ac.offsets),
                values: Box::new(inner),
                validity,
            };
            proof {
                assert(ext_vals(&r->LargeList_values, ac.values.typ()) == ac.values.vals());
                assert(mask_vals(
                    ext_vals_base(&r->LargeList_values, list_elem(c.typ())),
                    ext_validity(&r->LargeList_values),
                    list_inner_nullable(c.typ()),
                ) == ac.values.vals());
                assert forall|i: int| 0 <= i < c.vals().len() implies ext_vals_base(&r, c.typ())[i]
                    == c.vals()[i] by {
                    assert(r->LargeList_offsets@[i] as int == ac.offsets@[i] as int);
                    assert(r->LargeList_offsets@[i + 1] as int == ac.offsets@[i + 1] as int);
                }
                lemma_ext_base_len(&r, c.typ());
                assert(ext_vals_base(&r, c.typ()) =~= c.vals());
            }
            r
        }
        Column::KvMap(ac) => {
            let inner = to_ext(&ac.values, None);
            let r = ExtArray::MapArr {
                offsets: narrow_offsets(&ac.offsets),
                entries: Box::new(inner),
                validity,
            };
            proof {
                assert(ext_vals(&r->MapArr_entries, ac.values.typ()) == ac.values.vals());
                assert(mask_vals(
                    ext_vals_base(&r->MapArr_entries, list_elem(c.typ())),
                    ext_validity(&r->MapArr_entries),
                    list_inner_nullable(c.typ()),
                ) == ac.values.vals());
                assert forall|i: int| 0 <= i < c.vals().len() implies ext_vals_base(&r, c.typ())[i]
                    == c.vals()[i] by {
                    assert(r->MapArr_offsets@[i] as int == ac.offsets@[i] as int);
                    assert(r->MapArr_offsets@[i + 1] as int == ac.offsets@[i + 1] as int);
                }
                lemma_ext_base_len(&r, c.typ());
                assert(ext_vals_base(&r, c.typ()) =~= c.vals());
            }
            r
        }
        Column::Nullable(nc) => {
            let bitmap = crate::column::copy_range(&nc.validity, 0, nc.validity.len());
            let r = to_ext(&nc.column, Some(bitmap));
            proof {
                assert(c.typ() == TypeV::Nullable(Box::new(nc.column.typ())));
                assert(ext_vals(&r, c.typ()) =~= c.vals());
            }
            r
        }
        Column::Tuple { fields, len } => {
            proof {
                crate::column::lemma_cols_wf_len(fields@, *len as nat);
                lemma_cols_exportable(fields@);
            }
            let exts = exts_of(fields, Ghost(fields@));
            let r = ExtArray::Struct { fields: exts, len: *len, validity };
            proof {
                crate::column::lemma_cols_typs(fields@);
                crate::column::lemma_cols_vals(fields@);
                lemma_ext_fields_vals(r->Struct_fields@, tuple_elems(c.typ()));
                assert(tuple_elems(c.typ()) == crate::column::cols_typs(fields@));
                assert forall|j: int| 0 <= j < fields@.len() implies #[trigger] ext_fields_vals(
                    r->Struct_fields@,
                    tuple_elems(c.typ()),
                )[j] == crate::column::cols_vals(fields@)[j] by {
                    assert(tuple_elems(c.typ())[j] == fields@[j].typ());
                    if fields@[j].typ() is Nullable {
                        assert(fields@[j] is Nullable) by {
                            fields@[j].lemma_typ_variant();
                        }
                        assert(ext_vals(&exts@[j], fields@[j].typ()) == fields@[j].vals());
                    } else {
                        assert(!(fields@[j] is Nullable)) by {
                            fields@[j].lemma_typ_variant();
                        }
                    }
                }
                assert(ext_fields_vals(r->Struct_fields@, tuple_elems(c.typ()))
                    =~= crate::column::cols_vals(fields@));
                assert forall|i: int| 0 <= i < c.vals().len() implies ext_vals_base(&r, c.typ())[i]
                    == c.vals()[i] by {
                    assert(Seq::new(
                        ext_fields_vals(r->Struct_fields@, tuple_elems(c.typ())).len(),
                        |j: int| ext_fields_vals(r->Struct_fields@, tuple_elems(c.typ()))[j][i],
                    ) =~= Seq::new(
                        crate::column::cols_vals(fields@).len(),
                        |j: int| crate::column::cols_vals(fields@)[j][i],
                    ));
                }
                lemma_ext_base_len(&r, c.typ());
                assert(ext_vals_base(&r, c.typ()) =~= c.vals());
                lemma_ext_fields_wf_intro(r->Struct_fields@, tuple_elems(c.typ()));
            }
            r
        }
    }
}

/// Export each sibling column as an external field array.
fn exts_of(cs: &Vec<Column>, g: Ghost<Seq<Column>>) -> (r: Vec<ExtArray>)
    requires
        g@ == cs@,
        forall|i: int| 0 <= i < g@.len() ==> #[trigger] g@[i].wf(),
        forall|i: int| 0 <= i < g@.len() ==> #[trigger] exportable(&g@[i]),
    ensures
        r@.len() == g@.len(),
        forall|i: int| 0 <= i < g@.len() ==> #[trigger] ext_len(&r@[i]) == g@[i].vals().len(),
        forall|i: int| 0 <= i < g@.len() ==> #[trigger] ext_wf(&r@[i], g@[i].typ()),
        forall|i: int|
            0 <= i < g@.len() ==> #[trigger] mask_vals(
                ext_vals_base(&r@[i], g@[i].typ().unwrap_nullable()),
                ext_validity(&r@[i]),
                g@[i].typ() is Nullable,
            ) == g@[i].vals(),
    decreases g@,
{
    let mut out: Vec<ExtArray> = Vec::new();
    let mut i: usize = 0;
    while i < cs.len()
        invariant
            g@ == cs@,
            i <= cs@.len(),
            out@.len() == i as int,
            forall|j: int| 0 <= j < cs@.len() ==> #[trigger] cs@[j].wf(),
            forall|j: int| 0 <= j < cs@.len() ==> #[trigger] exportable(&cs@[j]),
            forall|j: int| 0 <= j < i as int ==> #[trigger] ext_len(&out@[j]) == cs@[j].vals().len(),
            forall|j: int| 0 <= j < i as int ==> #[trigger] ext_wf(&out@[j], cs@[j].typ()),
            forall|j: int|
                0 <= j < i as int ==> #[trigger] mask_vals(
                    ext_vals_base(&out@[j], cs@[j].typ().unwrap_nullable()),
                    ext_validity(&out@[j]),
                    cs@[j].typ() is Nullable,
                ) == cs@[j].vals(),
        decreases cs@.len() - i,
    {
        proof {
            assert(decreases_to!(g@ => g@[i as int]));
            cs@[i as int].lemma_typ_variant();
        }
        let e = to_ext(&cs[i], None);
        proof {
            let gc = &cs@[i as int];
            if gc.typ() is Nullable {
                assert(ext_vals(&e, gc.typ()) == gc.vals());
            } else {
                assert(gc.typ().unwrap_nullable() == gc.typ());
            }
        }
        out.push(e);
        i = i + 1;
    }
    out
}

impl Column {
    /// Export this column as one external array per the physical mapping:
    /// numbers and decimals to fixed-width arrays, booleans to a bitmap,
    /// strings and variants to wide binary with an extension marker for
    /// variants, nesting to list, map and struct arrays, empties to
    /// extension-tagged null arrays, and a nullable wrapper to its inner
    /// array with the validity bitmap attached.
    pub fn to_external(&self) -> (r: ExtArray)
        requires
            self.wf(),
            exportable(self),
        ensures
            ext_len(&r) == self.vals().len(),
            ext_wf(&r, self.typ()),
            ext_vals(&r, self.typ()) == self.vals(),
    {
        proof {
            self.lemma_typ_variant();
        }
        let r = to_ext(self, None);
        proof {
            if !(self is Nullable) {
                assert(self.typ().unwrap_nullable() == self.typ());
                assert(ext_vals(&r, self.typ()) == ext_vals_base(&r, self.typ()));
            }
        }
        r
    }
}

/// Machine-width copies of a wide offsets buffer.
fn unwiden_offsets(offs: &Vec<i64>) -> (r: Vec<usize>)
    requires
        forall|i: int| 0 <= i < offs@.len() ==> 0 <= #[trigger] offs@[i],
        forall|i: int| 0 <= i < offs@.len() ==> #[trigger] offs@[i] as int <= usize::MAX as int,
    ensures
        r@.len() == offs@.len(),
        forall|i: int| 0 <= i < offs@.len() ==> #[trigger] r@[i] as int == offs@[i] as int,
{
    let mut out: Vec<usize> = Vec::new();
    let mut i: usize = 0;
    while i < offs.len()
        invariant
            i <= offs@.len(),
            out@.len() == i as int,
            forall|j: int| 0 <= j < offs@.len() ==> 0 <= #[trigger] offs@[j],
            forall|j: int|
                0 <= j < offs@.len() ==> #[trigger] offs@[j] as int <= usize::MAX as int,
            forall|j: int| 0 <= j < i as int ==> #[trigger] out@[j] as int == offs@[j] as int,
        decreases offs@.len() - i,
    {
        out.push(offs[i] as usize);
        i = i + 1;
    }
    out
}

/// Machine-width copies of a narrow offsets buffer.
fn unwiden_offsets32(offs: &Vec<i32>) -> (r: Vec<usize>)
    requires
        forall|i: int| 0 <= i < offs@.len() ==> 0 <= #[trigger] offs@[i],
        forall|i: int| 0 <= i < offs@.len() ==> #[trigger] offs@[i] as int <= usize::MAX as int,
    ensures
        r@.len() == offs@.len(),
        forall|i: int| 0 <= i < offs@.len() ==> #[trigger] r@[i] as int == offs@[i] as int,
{
    let mut out: Vec<usize> = Vec::new();
    let mut i: usize = 0;
    while i < offs.len()
        invariant
            i <= offs@.len(),
            out@.len() == i as int,
            forall|j: int| 0 <= j < offs@.len() ==> 0 <= #[trigger] offs@[j],
            forall|j: int|
                0 <= j < offs@.len() ==> #[trigger] offs@[j] as int <= usize::MAX as int,
            forall|j: int| 0 <= j < i as int ==> #[trigger] out@[j] as int == offs@[j] as int,
        decreases offs@.len() - i,
    {
        out.push(offs[i] as usize);
        i = i + 1;
    }
    out
}

/// External timestamps normalized to the internal microsecond unit.
fn normalize_ts(values: &Vec<i64>, unit: TimeUnit) -> (r: Vec<i64>)
    requires
        forall|i: int|
            0 <= i < values@.len() ==> i64::MIN as int <= (#[trigger] values@[i]) * unit_mul(unit)
                <= i64::MAX as int,
    ensures
        r@.len() == values@.len(),
        forall|i: int|
            0 <= i < values@.len() ==> #[trigger] r@[i] as int == scale_ts(values@[i] as int, unit),
{
    let mut out: Vec<i64> = Vec::new();
    let mut i: usize = 0;
    while i < values.len()
        invariant
            i <= values@.len(),
            out@.len() == i as int,
            forall|j: int|
                0 <= j < values@.len() ==> i64::MIN as int <= (#[trigger] values@[j]) * unit_mul(
                    unit,
                ) <= i64::MAX as int,
            forall|j: int|
                0 <= j < i as int ==> #[trigger] out@[j] as int == scale_ts(
                    values@[j] as int,
                    unit,
                ),
        decreases values@.len() - i,
    {
        let x = values[i];
        let y: i64 = match unit {
            TimeUnit::Second => x * 1000000,
            TimeUnit::Millisecond => x * 1000,
            TimeUnit::Microsecond => x,
            TimeUnit::Nanosecond => {
                if x >= 0 {
                    ((x as u64) / 1000) as i64
                } else {
                    let neg = -(x as i128);
                    let q = (neg as u128) / 1000;
                    proof {
                        assert(q <= neg as u128);
                    }
                    -(q as i128) as i64
                }
            }
        };
        proof {
            assert(y as int == scale_ts(values@[i as int] as int, unit));
        }
        out.push(y);
        i = i + 1;
    }
    out
}

/// The validity bitmap attached to an external array, if any.
fn validity_of(e: &ExtArray) -> (r: Option<&Vec<bool>>)
    ensures
        match r {
            Some(v) => ext_validity(e) == Some(v@),
            None => ext_validity(e) is None,
        },
{
    match e {
        ExtArray::Null { .. } => None,
        ExtArray::UInt8 { validity, .. } => match validity {
            Some(v) => Some(v),
            None => None,
        },
        ExtArray::UInt16 { validity, .. } => match validity {
            Some(v) => Some(v),
            None => None,
        },
        ExtArray::UInt32 { validity, .. } => match validity {
            Some(v) => Some(v),
            None => None,
        },
        ExtArray::UInt64 { validity, .. } => match validity {
            Some(v) => Some(v),
            None => None,
        },
        ExtArray::Int8 { validity, .. } => match validity {
            Some(v) => Some(v),
            None => None,
        },
        ExtArray::Int16 { validity, .. } => match validity {
            Some(v) => Some(v),
            None => None,
        },
        ExtArray::Int32 { validity, .. } => match validity {
            Some(v) => Some(v),
            None => None,
        },
        ExtArray::Int64 { validity, .. } => match validity {
            Some(v) => Some(v),
            None => None,
        },
        ExtArray::Decimal128 { validity, .. } => match validity {
            Some(v) => Some(v),
            None => None,
        },
        ExtArray::Decimal256 { validity, .. } => match validity {
            Some(v) => Some(v),
            None => None,
        },
        ExtArray::Boolean { validity, .. } => match validity {
            Some(v) => Some(v),
            None => None,
        },
        ExtArray::LargeBinary { validity, .. } => match validity {
            Some(v) => Some(v),
            None => None,
        },
        ExtArray::Timestamp { validity, .. } => match validity {
            Some(v) => Some(v),
            None => None,
        },
        ExtArray::Date32 { validity, .. } => match validity {
            Some(v) => Some(v),
            None => None,
        },
        ExtArray::LargeList { validity, .. } => match validity {
            Some(v) => Some(v),
            None => None,
        },
        ExtArray::MapArr { validity, .. } => match validity {
            Some(v) => Some(v),
            None => None,
        },
        ExtArray::Struct { validity, .. } => match validity {
            Some(v) => Some(v),
            None => None,
        },
    }
}

/// An all-true bitmap of `n` rows.
fn all_true(n: usize) -> (r: Vec<bool>)
    ensures
        r@.len() == n,
        forall|i: int| 0 <= i < n ==> #[trigger] r@[i],
{
    let mut out: Vec<bool> = Vec::new();
    let mut i: usize = 0;
    while i < n
        invariant
            i <= n,
            out@.len() == i as int,
            forall|j: int| 0 <= j < i as int ==> #[trigger] out@[j],
        decreases n - i,
    {
        out.push(true);
        i = i + 1;
    }
    out
}

impl Column {
    /// Decode one external array back into a column of the declared logical
    /// type, which disambiguates extension markers and nested element
    /// types. External timestamps normalize to the internal unit; a
    /// declared nullable type reattaches the validity bitmap, taking every
    /// row valid when none is present.
    pub fn from_external(e: &ExtArray, data_type: &DataType) -> (r: Column)
        requires
            data_type@.concrete(),
            data_type@.wf_type(),
            ext_wf(e, data_type@),
        ensures
            r.wf(),
            r.typ() == data_type@,
            r.vals() == ext_vals(e, data_type@),
        decreases e, 1int,
    {
        match data_type {
            DataType::Nullable(inner_ty) => {
                let base = from_base(e, inner_ty);
                proof {
                    base.lemma_typ_variant();
                    lemma_ext_base_len(e, inner_ty@);
                }
                let n = base.len();
                let bitmap: Vec<bool> = match validity_of(e) {
                    Some(v) => crate::column::copy_range(v, 0, v.len()),
                    None => all_true(n),
                };
                let nc = crate::column::NullableColumn { column: base, validity: bitmap };
                let r = Column::Nullable(Box::new(nc));
                proof {
                    assert(r.vals() =~= ext_vals(e, data_type@));
                }
                r
            }
            _ => {
                let r = from_base(e, data_type);
                proof {
                    assert(data_type@.unwrap_nullable() == data_type@);
                }
                r
            }
        }
    }
}

/// Decode one external array against a declared non-nullable type.
#[verifier::loop_isolation(false)]
#[verifier::rlimit(90)]
fn from_base(e: &ExtArray, ty: &DataType) -> (r: Column)
    requires
        ty@.concrete(),
        ty@.wf_type(),
        !(ty@ is Nullable),
        ext_wf(e, ty@),
    ensures
        r.wf(),
        r.typ() == ty@,
        r.vals() == ext_vals_base(e, ty@),
    decreases e, 0int,
{
    match e {
        ExtArray::Null { len, marker } => {
            let r = match marker {
                ExtMarker::Plain => Column::Null { len: *len },
                ExtMarker::EmptyArray => Column::EmptyArray { len: *len },
                ExtMarker::EmptyMap => Column::EmptyMap { len: *len },
                ExtMarker::Variant => vstd::pervasive::unreached(),
            };
            proof {
                assert(r.vals() =~= ext_vals_base(e, ty@));
            }
            r
        }
        ExtArray::UInt8 { values, .. } => {
            let r = Column::Number(
                crate::column::NumberColumn::UInt8(crate::column::copy_range(values, 0, values.len())),
            );
            proof {
                assert(r.vals() =~= ext_vals_base(e, ty@));
            }
            r
        }
        ExtArray::UInt16 { values, .. } => {
            let r = Column::Number(
                crate::column::NumberColumn::UInt16(
                    crate::column::copy_range(values, 0, values.len()),
                ),
            );
            proof {
                assert(r.vals() =~= ext_vals_base(e, ty@));
            }
            r
        }
        ExtArray::UInt32 { values, .. } => {
            let r = Column::Number(
                crate::column::NumberColumn::UInt32(
                    crate::column::copy_range(values, 0, values.len()),
                ),
            );
            proof {
                assert(r.vals() =~= ext_vals_base(e, ty@));
            }
            r
        }
        ExtArray::UInt64 { values, .. } => {
            let r = Column::Number(
                crate::column::NumberColumn::UInt64(
                    crate::column::copy_range(values, 0, values.len()),
                ),
            );
            proof {
                assert(r.vals() =~= ext_vals_base(e, ty@));
            }
            r
        }
        ExtArray::Int8 { values, .. } => {
            let r = Column::Number(
                crate::column::NumberColumn::Int8(crate::column::copy_range(values, 0, values.len())),
            );
            proof {
                assert(r.vals() =~= ext_vals_base(e, ty@));
            }
            r
        }
        ExtArray::Int16 { values, .. } => {
            let r = Column::Number(
                crate::column::NumberColumn::Int16(crate::column::copy_range(values, 0, values.len())),
            );
            proof {
                assert(r.vals() =~= ext_vals_base(e, ty@));
            }
            r
        }
        ExtArray::Int32 { values, .. } => {
            let r = Column::Number(
                crate::column::NumberColumn::Int32(crate::column::copy_range(values, 0, values.len())),
            );
            proof {
                assert(r.vals() =~= ext_vals_base(e, ty@));
            }
            r
        }
        ExtArray::Int64 { values, .. } => {
            let r = Column::Number(
                crate::column::NumberColumn::Int64(crate::column::copy_range(values, 0, values.len())),
            );
            proof {
                assert(r.vals() =~= ext_vals_base(e, ty@));
            }
            r
        }
        ExtArray::Decimal128 { values, precision, scale, .. } => {
            let r = Column::Decimal(
                crate::column::DecimalColumn::Decimal128(
                    crate::column::copy_range(values, 0, values.len()),
                    crate::types::DecimalSize { precision: *precision, scale: *scale },
                ),
            );
            proof {
                assert(r.vals() =~= ext_vals_base(e, ty@));
            }
            r
        }
        ExtArray::Decimal256 { values, precision, scale, .. } => {
            let r = Column::Decimal(
                crate::column::DecimalColumn::Decimal256(
                    crate::column::copy_range(values, 0, values.len()),
                    crate::types::DecimalSize { precision: *precision, scale: *scale },
                ),
            );
            proof {
                assert(r.vals() =~= ext_vals_base(e, ty@));
            }
            r
        }
        ExtArray::Boolean { values, .. } => {
            let r = Column::Boolean(crate::column::copy_range(values, 0, values.len()));
            proof {
                assert(r.vals() =~= ext_vals_base(e, ty@));
            }
            r
        }
        ExtArray::LargeBinary { data, offsets, marker, .. } => {
            let sc = crate::column::StringColumn {
                data: crate::column::copy_range(data, 0, data.len()),
                offsets: unwiden_offsets(offsets),
            };
            let r = match marker {
                ExtMarker::Plain => Column::String(sc),
                ExtMarker::Variant => {
                    proof {
                        assert forall|i: int| 0 <= i < sc.row_count() implies crate::ord::jsonb_wf(
                            #[trigger] sc.row(i),
                        ) by {
                            assert(sc.offsets@[i] as int == offsets@[i] as int);
                            assert(sc.offsets@[i + 1] as int == offsets@[i + 1] as int);
                            assert(sc.row(i) =~= data@.subrange(
                                offsets@[i] as int,
                                offsets@[i + 1] as int,
                            ));
                            assert(crate::ord::jsonb_wf(
                                data@.subrange(offsets@[i] as int, offsets@[i + 1] as int),
                            ));
                        }
                    }
                    Column::Variant(sc)
                }
                _ => vstd::pervasive::unreached(),
            };
            proof {
                assert forall|i: int| 0 <= i < r.vals().len() implies r.vals()[i]
                    == ext_vals_base(e, ty@)[i] by {
                    assert(r.vals()[i] == (if marker is Variant {
                        Val::Variant(
                            sc.data@.subrange(sc.offsets@[i] as int, sc.offsets@[i + 1] as int),
                        )
                    } else {
                        Val::String(
                            sc.data@.subrange(sc.offsets@[i] as int, sc.offsets@[i + 1] as int),
                        )
                    }));
                    assert(sc.offsets@[i] as int == offsets@[i] as int);
                    assert(sc.offsets@[i + 1] as int == offsets@[i + 1] as int);
                }
                lemma_ext_base_len(e, ty@);
                assert(r.vals() =~= ext_vals_base(e, ty@));
            }
            r
        }
        ExtArray::Timestamp { values, unit, .. } => {
            let r = Column::Timestamp(normalize_ts(values, *unit));
            proof {
                assert(r.vals() =~= ext_vals_base(e, ty@));
            }
            r
        }
        ExtArray::Date32 { values, .. } => {
            let r = Column::Date(crate::column::copy_range(values, 0, values.len()));
            proof {
                assert(r.vals() =~= ext_vals_base(e, ty@));
            }
            r
        }
        ExtArray::LargeList { offsets, values, .. } => match ty {
            DataType::Array(inner_ty) => {
                let inner = Column::from_external(values, inner_ty);
                proof {
                    lemma_ext_base_len(&**values, inner_ty@.unwrap_nullable());
                    lemma_mask_len(
                        ext_vals_base(&**values, inner_ty@.unwrap_nullable()),
                        ext_validity(&**values),
                        inner_ty@ is Nullable,
                    );
                }
                let ac = crate::column::ArrayColumn {
                    values: inner,
                    offsets: unwiden_offsets(offsets),
                };
                let r = Column::Array(Box::new(ac));
                proof {
                    assert(list_elem(ty@) == inner_ty@.unwrap_nullable());
                    assert(list_inner_nullable(ty@) == (inner_ty@ is Nullable));
                    assert forall|i: int| 0 <= i < r.vals().len() implies r.vals()[i]
                        == ext_vals_base(e, ty@)[i] by {
                        assert(ac.offsets@[i] as int == offsets@[i] as int);
                        assert(ac.offsets@[i + 1] as int == offsets@[i + 1] as int);
                        assert(ac.values.vals() == ext_vals(&**values, inner_ty@));
                    }
                    lemma_ext_base_len(e, ty@);
                    assert(r.vals() =~= ext_vals_base(e, ty@));
                }
                r
            }
            _ => vstd::pervasive::unreached(),
        },
        ExtArray::MapArr { offsets, entries, .. } => match ty {
            DataType::KvMap(inner_ty) => {
                let inner = Column::from_external(entries, inner_ty);
                proof {
                    lemma_ext_base_len(&**entries, inner_ty@.unwrap_nullable());
                    lemma_mask_len(
                        ext_vals_base(&**entries, inner_ty@.unwrap_nullable()),
                        ext_validity(&**entries),
                        inner_ty@ is Nullable,
                    );
                    inner.lemma_typ_variant();
                    crate::types::lemma_tys_wf(Seq::<TypeV>::empty());
                }
                let ac = crate::column::ArrayColumn {
                    values: inner,
                    offsets: unwiden_offsets32(offsets),
                };
                let r = Column::KvMap(Box::new(ac));
                proof {
                    assert(list_elem(ty@) == inner_ty@.unwrap_nullable());
                    assert(list_inner_nullable(ty@) == (inner_ty@ is Nullable));
                    assert forall|i: int| 0 <= i < r.vals().len() implies r.vals()[i]
                        == ext_vals_base(e, ty@)[i] by {
                        assert(ac.offsets@[i] as int == offsets@[i] as int);
                        assert(ac.offsets@[i + 1] as int == offsets@[i + 1] as int);
                        assert(ac.values.vals() == ext_vals(&**entries, inner_ty@));
                    }
                    lemma_ext_base_len(e, ty@);
                    assert(r.vals() =~= ext_vals_base(e, ty@));
                }
                r
            }
            _ => vstd::pervasive::unreached(),
        },
        ExtArray::Struct { fields, len, .. } => match ty {
            DataType::Tuple(ts) => {
                proof {
                    crate::types::lemma_tyv_seq(ts@);
                    crate::types::lemma_tys_concrete(ty@->Tuple_0);
                    crate::types::lemma_tys_wf(ty@->Tuple_0);
                    lemma_ext_fields_wf(fields@, tuple_elems(ty@));
                    assert forall|j: int| 0 <= j < ts@.len() implies
                        (#[trigger] ts@[j].tyv()).concrete() && ts@[j].tyv().wf_type() && ext_wf(
                        &fields@[j],
                        ts@[j].tyv(),
                    ) by {
                        assert(crate::types::tyv_seq(ts@)[j] == ts@[j].tyv());
                        assert(crate::types::tyv_seq(ts@)[j].concrete());
                        assert(crate::types::tyv_seq(ts@)[j].wf_type());
                        assert(ext_wf(&fields@[j], tuple_elems(ty@)[j]));
                    }
                }
                let cols = froms_of(fields, ts, Ghost(fields@));
                let r = Column::Tuple { fields: cols, len: *len };
                proof {
                    crate::column::lemma_cols_typs(r->Tuple_fields@);
                    crate::column::lemma_cols_vals(r->Tuple_fields@);
                    assert(crate::column::cols_typs(r->Tuple_fields@)
                        =~= crate::types::tyv_seq(ts@));
                    lemma_ext_fields_vals(fields@, tuple_elems(ty@));
                    assert forall|j: int| 0 <= j < cols@.len() implies
                        #[trigger] cols@[j].vals().len() == *len as nat by {
                        assert(cols@[j].vals() == ext_vals(&fields@[j], ts@[j].tyv()));
                        lemma_ext_base_len(&fields@[j], ts@[j].tyv().unwrap_nullable());
                        lemma_mask_len(
                            ext_vals_base(&fields@[j], ts@[j].tyv().unwrap_nullable()),
                            ext_validity(&fields@[j]),
                            ts@[j].tyv() is Nullable,
                        );
                        assert(ext_len(&fields@[j]) == *len as nat);
                    }
                    crate::column::lemma_cols_wf_len_intro(r->Tuple_fields@, *len as nat);
                    assert forall|i: int| 0 <= i < r.vals().len() implies r.vals()[i]
                        == ext_vals_base(e, ty@)[i] by {
                        assert(Seq::new(
                            crate::column::cols_vals(r->Tuple_fields@).len(),
                            |j: int| crate::column::cols_vals(r->Tuple_fields@)[j][i],
                        ) =~= Seq::new(
                            ext_fields_vals(fields@, tuple_elems(ty@)).len(),
                            |j: int| ext_fields_vals(fields@, tuple_elems(ty@))[j][i],
                        ));
                    }
                    lemma_ext_base_len(e, ty@);
                    assert(r.vals() =~= ext_vals_base(e, ty@));
                }
                r
            }
            _ => vstd::pervasive::unreached(),
        },
    }
}

/// Decode each sibling field array against its declared field type.
fn froms_of(es: &Vec<ExtArray>, ts: &Vec<DataType>, g: Ghost<Seq<ExtArray>>) -> (r: Vec<Column>)
    requires
        g@ == es@,
        g@.len() == ts@.len(),
        forall|i: int| 0 <= i < ts@.len() ==> (#[trigger] ts@[i].tyv()).concrete(),
        forall|i: int| 0 <= i < ts@.len() ==> (#[trigger] ts@[i].tyv()).wf_type(),
        forall|i: int| 0 <= i < g@.len() ==> #[trigger] ext_wf(&g@[i], ts@[i].tyv()),
    ensures
        r@.len() == g@.len(),
        forall|i: int| 0 <= i < g@.len() ==> #[trigger] r@[i].wf(),
        forall|i: int| 0 <= i < g@.len() ==> #[trigger] r@[i].typ() == ts@[i].tyv(),
        forall|i: int| 0 <= i < g@.len() ==> #[trigger] r@[i].vals() == ext_vals(
            &g@[i],
            ts@[i].tyv(),
        ),
    decreases g@,
{
    let mut out: Vec<Column> = Vec::new();
    let mut i: usize = 0;
    while i < es.len()
        invariant
            g@ == es@,
            i <= es@.len(),
            es@.len() == ts@.len(),
            out@.len() == i as int,
            forall|j: int| 0 <= j < ts@.len() ==> (#[trigger] ts@[j].tyv()).concrete(),
            forall|j: int| 0 <= j < ts@.len() ==> (#[trigger] ts@[j].tyv()).wf_type(),
            forall|j: int| 0 <= j < es@.len() ==> #[trigger] ext_wf(&es@[j], ts@[j].tyv()),
            forall|j: int| 0 <= j < i as int ==> #[trigger] out@[j].wf(),
            forall|j: int| 0 <= j < i as int ==> #[trigger] out@[j].typ() == ts@[j].tyv(),
            forall|j: int| 0 <= j < i as int ==> #[trigger] out@[j].vals() == ext_vals(
                &es@[j],
                ts@[j].tyv(),
            ),
        decreases es@.len() - i,
    {
        proof {
            assert(decreases_to!(g@ => g@[i as int]));
        }
        out.push(Column::from_external(&es[i], &ts[i]));
        i = i + 1;
    }
    out
}

/// Round-trip law: a column exported to the external layout and decoded
/// back under its own logical type reads back the same rows, row for row.
pub proof fn lemma_external_round_trip(c: &Column, e: &ExtArray, r: &Column)
    requires
        ext_vals(e, c.typ()) == c.vals(),
        r.vals() == ext_vals(e, c.typ()),
    ensures
        r.vals() == c.vals(),
        r.vals().len() == c.vals().len(),
        forall|i: int| 0 <= i < c.vals().len() ==> r.vals()[i] == c.vals()[i],
{
}

} // verus!
