//! The mutable, single-owner counterpart of `Column`: accumulates values one
//! at a time or by bulk append, then is consumed into a finished column or
//! scalar.

use vstd::prelude::*;

use crate::column::copy_range;
use crate::column::cols_typs;
use crate::column::cols_vals;
use crate::column::lemma_cols_typs;
use crate::column::lemma_cols_vals;
use crate::column::lemma_cols_wf_len;
use crate::column::lemma_cols_wf_len_intro;
use crate::column::ArrayColumn;
use crate::column::Column;
use crate::column::DecimalColumn;
use crate::column::NullableColumn;
use crate::column::NumberColumn;
use crate::column::StringColumn;
use crate::scalar::DecimalScalar;
use crate::scalar::NumberScalar;
use crate::scalar::Scalar;
use crate::scalar::ScalarRef;
use crate::scalar::Val;
use crate::types::DataType;
use crate::types::DecimalDataType;
use crate::types::NumberDataType;
use crate::types::TypeV;

verus! {

/// Growable counterpart of `ArrayColumn`.
#[derive(Debug)]
pub struct ArrayColumnBuilder {
    pub builder: ColumnBuilder,
    pub offsets: Vec<usize>,
}

/// Growable counterpart of `NullableColumn`.
#[derive(Debug)]
pub struct NullableColumnBuilder {
    pub builder: ColumnBuilder,
    pub validity: Vec<bool>,
}

/// Mutable accumulator mirroring `Column`'s variants in a growth-friendly
/// form.
#[derive(Debug)]
pub enum ColumnBuilder {
    Null { rows: Vec<bool> },
    EmptyArray { rows: Vec<bool> },
    EmptyMap { rows: Vec<bool> },
    Number(NumberColumn),
    Decimal(DecimalColumn),
    Boolean(Vec<bool>),
    String(StringColumn),
    Timestamp(Vec<i64>),
    Date(Vec<i32>),
    Array(Box<ArrayColumnBuilder>),
    KvMap(Box<ArrayColumnBuilder>),
    Nullable(Box<NullableColumnBuilder>),
    Tuple { fields: Vec<ColumnBuilder>, rows: Vec<bool> },
    Variant(StringColumn),
}

/// The accumulated rows of each builder in a sequence of sibling builders.
pub open spec fn bcols_vals(cs: Seq<ColumnBuilder>) -> Seq<Seq<Val>>
    decreases cs,
{
    if cs.len() == 0 {
        Seq::empty()
    } else {
        bcols_vals(cs.drop_last()).push(cs.last().bvals())
    }
}

/// `bcols_vals` maps the sequence elementwise.
pub proof fn lemma_bcols_vals(cs: Seq<ColumnBuilder>)
    ensures
        bcols_vals(cs).len() == cs.len(),
        forall|i: int| 0 <= i < cs.len() ==> #[trigger] bcols_vals(cs)[i] == cs[i].bvals(),
    decreases cs.len(),
{
    if cs.len() > 0 {
        lemma_bcols_vals(cs.drop_last());
    }
}

/// The ghost types of a sequence of sibling builders.
pub open spec fn bcols_typs(cs: Seq<ColumnBuilder>) -> Seq<TypeV>
    decreases cs,
{
    if cs.len() == 0 {
        Seq::empty()
    } else {
        bcols_typs(cs.drop_last()).push(cs.last().btyp())
    }
}

/// `bcols_typs` maps the sequence elementwise.
pub proof fn lemma_bcols_typs(cs: Seq<ColumnBuilder>)
    ensures
        bcols_typs(cs).len() == cs.len(),
        forall|i: int| 0 <= i < cs.len() ==> #[trigger] bcols_typs(cs)[i] == cs[i].btyp(),
    decreases cs.len(),
{
    if cs.len() > 0 {
        lemma_bcols_typs(cs.drop_last());
    }
}

/// All builders in the sequence are well formed and hold exactly `n` rows.
pub open spec fn bcols_wf_len(cs: Seq<ColumnBuilder>, n: nat) -> bool
    decreases cs,
{
    cs.len() == 0 || (bcols_wf_len(cs.drop_last(), n) && cs.last().bwf() && cs.last().bvals().len()
        == n)
}

/// `bcols_wf_len` holds elementwise.
pub proof fn lemma_bcols_wf_len(cs: Seq<ColumnBuilder>, n: nat)
    requires
        bcols_wf_len(cs, n),
    ensures
        forall|i: int| 0 <= i < cs.len() ==> #[trigger] cs[i].bwf(),
        forall|i: int| 0 <= i < cs.len() ==> #[trigger] cs[i].bvals().len() == n,
    decreases cs.len(),
{
    if cs.len() > 0 {
        lemma_bcols_wf_len(cs.drop_last(), n);
        assert forall|i: int| 0 <= i < cs.len() implies #[trigger] cs[i].bwf() by {
            if i < cs.len() - 1 {
                assert(cs.drop_last()[i].bwf());
                assert(cs.drop_last()[i] == cs[i]);
            } else {
                assert(cs[i] == cs.last());
            }
        }
        assert forall|i: int| 0 <= i < cs.len() implies #[trigger] cs[i].bvals().len() == n by {
            if i < cs.len() - 1 {
                assert(cs.drop_last()[i].bvals().len() == n);
                assert(cs.drop_last()[i] == cs[i]);
            } else {
                assert(cs[i] == cs.last());
            }
        }
    }
}

/// `bcols_wf_len` from elementwise facts.
pub proof fn lemma_bcols_wf_len_intro(cs: Seq<ColumnBuilder>, n: nat)
    requires
        forall|i: int| 0 <= i < cs.len() ==> #[trigger] cs[i].bwf(),
        forall|i: int| 0 <= i < cs.len() ==> #[trigger] cs[i].bvals().len() == n,
    ensures
        bcols_wf_len(cs, n),
    decreases cs.len(),
{
    if cs.len() > 0 {
        assert forall|i: int| 0 <= i < cs.drop_last().len() implies
            #[trigger] cs.drop_last()[i].bwf() by {
            assert(cs.drop_last()[i] == cs[i]);
            assert(cs[i].bwf());
        }
        assert forall|i: int| 0 <= i < cs.drop_last().len() implies
            #[trigger] cs.drop_last()[i].bvals().len() == n by {
            assert(cs.drop_last()[i] == cs[i]);
            assert(cs[i].bvals().len() == n);
        }
        lemma_bcols_wf_len_intro(cs.drop_last(), n);
        assert(cs.last() == cs[cs.len() - 1]);
        assert(cs.last().bwf() && cs.last().bvals().len() == n);
    }
}

impl ColumnBuilder {
    /// The accumulated rows of this builder, as ghost values.
    pub open spec fn bvals(&self) -> Seq<Val>
        decreases self,
    {
        match self {
            ColumnBuilder::Null { rows } => Seq::new(rows@.len(), |i: int| Val::Null),
            ColumnBuilder::EmptyArray { rows } => Seq::new(rows@.len(), |i: int| Val::EmptyArray),
            ColumnBuilder::EmptyMap { rows } => Seq::new(rows@.len(), |i: int| Val::EmptyMap),
            ColumnBuilder::Number(col) => col.vals(),
            ColumnBuilder::Decimal(col) => col.vals(),
            ColumnBuilder::Boolean(v) => Seq::new(v@.len(), |i: int| Val::Boolean(v@[i])),
            ColumnBuilder::String(col) => Seq::new(
                col.row_count(),
                |i: int| Val::String(col.row(i)),
            ),
            ColumnBuilder::Timestamp(v) => Seq::new(v@.len(), |i: int| Val::Timestamp(v@[i])),
            ColumnBuilder::Date(v) => Seq::new(v@.len(), |i: int| Val::Date(v@[i])),
            ColumnBuilder::Array(col) => {
                let inner = col.builder.bvals();
                Seq::new(
                    (col.offsets@.len() - 1) as nat,
                    |i: int| Val::Array(
                        inner.subrange(col.offsets@[i] as int, col.offsets@[i + 1] as int),
                    ),
                )
            }
            ColumnBuilder::KvMap(col) => {
                let inner = col.builder.bvals();
                Seq::new(
                    (col.offsets@.len() - 1) as nat,
                    |i: int| Val::KvMap(
                        inner.subrange(col.offsets@[i] as int, col.offsets@[i + 1] as int),
                    ),
                )
            }
            ColumnBuilder::Nullable(col) => {
                let inner = col.builder.bvals();
                Seq::new(
                    col.validity@.len(),
                    |i: int| if col.validity@[i] { inner[i] } else { Val::Null },
                )
            }
            ColumnBuilder::Tuple { fields, rows } => {
                let cols = bcols_vals(fields@);
                Seq::new(
                    rows@.len(),
                    |i: int| Val::Tuple(Seq::new(cols.len(), |j: int| cols[j][i])),
                )
            }
            ColumnBuilder::Variant(col) => Seq::new(
                col.row_count(),
                |i: int| Val::Variant(col.row(i)),
            ),
        }
    }

    /// The ghost logical type this builder accumulates.
    pub open spec fn btyp(&self) -> TypeV
        decreases self,
    {
        match self {
            ColumnBuilder::Null { .. } => TypeV::Null,
            ColumnBuilder::EmptyArray { .. } => TypeV::EmptyArray,
            ColumnBuilder::EmptyMap { .. } => TypeV::EmptyMap,
            ColumnBuilder::Number(col) => TypeV::Number(col.kind()),
            ColumnBuilder::Decimal(col) => TypeV::Decimal(col.kind()),
            ColumnBuilder::Boolean(_) => TypeV::Boolean,
            ColumnBuilder::String(_) => TypeV::String,
            ColumnBuilder::Timestamp(_) => TypeV::Timestamp,
            ColumnBuilder::Date(_) => TypeV::Date,
            ColumnBuilder::Array(col) => TypeV::Array(Box::new(col.builder.btyp())),
            ColumnBuilder::KvMap(col) => TypeV::KvMap(Box::new(col.builder.btyp())),
            ColumnBuilder::Nullable(col) => TypeV::Nullable(Box::new(col.builder.btyp())),
            ColumnBuilder::Tuple { fields, .. } => TypeV::Tuple(bcols_typs(fields@)),
            ColumnBuilder::Variant(_) => TypeV::Variant,
        }
    }

    /// Structural invariant of a builder. On top of the column invariants,
    /// growable offsets start at zero and end exactly at the current end of
    /// the shared buffer, so a committed row always lands at the end.
    pub open spec fn bwf(&self) -> bool
        decreases self,
    {
        match self {
            ColumnBuilder::String(col) => col.wf() && col.offsets@[0] == 0 && col.offsets@.last()
                == col.data@.len(),
            ColumnBuilder::Variant(col) => col.wf() && col.offsets@[0] == 0 && col.offsets@.last()
                == col.data@.len() && (forall|i: int|
                0 <= i < col.row_count() ==> crate::ord::jsonb_wf(#[trigger] col.row(i))),
            ColumnBuilder::Array(col) => {
                &&& col.builder.bwf()
                &&& col.offsets@.len() >= 1
                &&& col.offsets@[0] == 0
                &&& forall|i: int, j: int|
                    0 <= i <= j < col.offsets@.len() ==> col.offsets@[i] <= col.offsets@[j]
                &&& col.offsets@.last() == col.builder.bvals().len()
            }
            ColumnBuilder::KvMap(col) => {
                &&& col.builder.bwf()
                &&& col.offsets@.len() >= 1
                &&& col.offsets@[0] == 0
                &&& forall|i: int, j: int|
                    0 <= i <= j < col.offsets@.len() ==> col.offsets@[i] <= col.offsets@[j]
                &&& col.offsets@.last() == col.builder.bvals().len()
                &&& col.builder.btyp() matches TypeV::Tuple(ts) && ts.len() == 2
            }
            ColumnBuilder::Nullable(col) => {
                &&& col.builder.bwf()
                &&& col.validity@.len() == col.builder.bvals().len()
                &&& !(col.builder is Nullable)
                &&& !(col.builder is Null)
            }
            ColumnBuilder::Tuple { fields, rows } => bcols_wf_len(fields@, rows@.len()),
            _ => true,
        }
    }

    /// Number of accumulated rows.
    pub fn len(&self) -> (r: usize)
        requires
            self.bwf(),
        ensures
            r == self.bvals().len(),
    {
        match self {
            ColumnBuilder::Null { rows } => rows.len(),
            ColumnBuilder::EmptyArray { rows } => rows.len(),
            ColumnBuilder::EmptyMap { rows } => rows.len(),
            ColumnBuilder::Number(col) => col.len(),
            ColumnBuilder::Decimal(col) => col.len(),
            ColumnBuilder::Boolean(v) => v.len(),
            ColumnBuilder::String(col) => col.offsets.len() - 1,
            ColumnBuilder::Timestamp(v) => v.len(),
            ColumnBuilder::Date(v) => v.len(),
            ColumnBuilder::Array(col) => col.offsets.len() - 1,
            ColumnBuilder::KvMap(col) => col.offsets.len() - 1,
            ColumnBuilder::Nullable(col) => col.validity.len(),
            ColumnBuilder::Tuple { rows, .. } => rows.len(),
            ColumnBuilder::Variant(col) => col.offsets.len() - 1,
        }
    }

    /// Finalize into an immutable column holding exactly the accumulated
    /// rows, of the builder's logical type.
    pub fn build(self) -> (r: Column)
        requires
            self.bwf(),
        ensures
            r.wf(),
            r.typ() == self.btyp(),
            r.vals() == self.bvals(),
            self is String ==> (r matches Column::String(sc) && sc.data@
                == self->String_0.data@ && sc.offsets@ == self->String_0.offsets@),
            self is Variant ==> (r matches Column::Variant(sc) && sc.data@
                == self->Variant_0.data@ && sc.offsets@ == self->Variant_0.offsets@),
            self is Array ==> (r matches Column::Array(ac) && ac.offsets@
                == self->Array_0.offsets@),
            self is KvMap ==> (r matches Column::KvMap(ac) && ac.offsets@
                == self->KvMap_0.offsets@),
        decreases self,
    {
        match self {
            ColumnBuilder::Null { rows } => Column::Null { len: rows.len() },
            ColumnBuilder::EmptyArray { rows } => Column::EmptyArray { len: rows.len() },
            ColumnBuilder::EmptyMap { rows } => Column::EmptyMap { len: rows.len() },
            ColumnBuilder::Number(col) => Column::Number(col),
            ColumnBuilder::Decimal(col) => Column::Decimal(col),
            ColumnBuilder::Boolean(v) => Column::Boolean(v),
            ColumnBuilder::String(col) => Column::String(col),
            ColumnBuilder::Timestamp(v) => Column::Timestamp(v),
            ColumnBuilder::Date(v) => Column::Date(v),
            ColumnBuilder::Array(col) => {
                let ghost gself = self;
                let built = col.builder.build();
                let ac = ArrayColumn { values: built, offsets: col.offsets };
                let r = Column::Array(Box::new(ac));
                proof {
                    assert(r.vals() =~= gself.bvals());
                }
                r
            }
            ColumnBuilder::KvMap(col) => {
                let ghost gself = self;
                let built = col.builder.build();
                let ac = ArrayColumn { values: built, offsets: col.offsets };
                let r = Column::KvMap(Box::new(ac));
                proof {
                    assert(r.vals() =~= gself.bvals());
                }
                r
            }
            ColumnBuilder::Nullable(col) => {
                let ghost gself = self;
                let built = col.builder.build();
                proof {
                    built.lemma_typ_variant();
                    gself->Nullable_0.builder.lemma_btyp_variant();
                }
                let nc = NullableColumn { column: built, validity: col.validity };
                let r = Column::Nullable(Box::new(nc));
                proof {
                    assert(r.vals() =~= gself.bvals());
                }
                r
            }
            ColumnBuilder::Tuple { fields, rows } => {
                let ghost gself = self;
                let len = rows.len();
                proof {
                    lemma_bcols_wf_len(fields@, len as nat);
                }
                let built = build_cols(fields, Ghost(fields@));
                let r = Column::Tuple { fields: built, len };
                proof {
                    lemma_cols_vals(built@);
                    lemma_bcols_vals(gself->Tuple_fields@);
                    lemma_cols_typs(built@);
                    lemma_bcols_typs(gself->Tuple_fields@);
                    assert(cols_vals(built@) =~= bcols_vals(gself->Tuple_fields@));
                    assert(cols_typs(built@) =~= bcols_typs(gself->Tuple_fields@));
                    assert(r.vals() =~= gself.bvals());
                    assert forall|j: int| 0 <= j < built@.len() implies #[trigger] built@[j].wf()
                        && built@[j].vals().len() == len as nat by {
                        assert(gself->Tuple_fields@[j].bwf());
                        assert(gself->Tuple_fields@[j].bvals().len() == len as nat);
                    }
                    assert forall|j: int| 0 <= j < built@.len() implies
                        #[trigger] built@[j].wf() by {}
                    assert forall|j: int| 0 <= j < built@.len() implies
                        #[trigger] built@[j].vals().len() == len as nat by {
                        assert(built@[j].vals() == gself->Tuple_fields@[j].bvals());
                    }
                    lemma_cols_wf_len_intro(built@, len as nat);
                }
                r
            }
            ColumnBuilder::Variant(col) => Column::Variant(col),
        }
    }

    /// A builder's type constructor follows its variant.
    pub proof fn lemma_btyp_shape(&self)
        ensures
            (self.btyp() is Nullable) == (self is Nullable),
            (self.btyp() is Tuple) == (self is Tuple),
    {
        match self {
            ColumnBuilder::Null { .. } => {},
            ColumnBuilder::EmptyArray { .. } => {},
            ColumnBuilder::EmptyMap { .. } => {},
            ColumnBuilder::Number(_) => {},
            ColumnBuilder::Decimal(_) => {},
            ColumnBuilder::Boolean(_) => {},
            ColumnBuilder::String(_) => {},
            ColumnBuilder::Timestamp(_) => {},
            ColumnBuilder::Date(_) => {},
            ColumnBuilder::Array(_) => {},
            ColumnBuilder::KvMap(_) => {},
            ColumnBuilder::Nullable(_) => {},
            ColumnBuilder::Tuple { .. } => {},
            ColumnBuilder::Variant(_) => {},
        }
    }
}

/// Finalize a vector of sibling builders into columns, elementwise. The
/// ghost copy of the input is the termination measure: it stays whole while
/// the vector is drained.
fn build_cols(mut cs: Vec<ColumnBuilder>, g: Ghost<Seq<ColumnBuilder>>) -> (r: Vec<Column>)
    requires
        g@ == cs@,
        forall|i: int| 0 <= i < g@.len() ==> #[trigger] g@[i].bwf(),
    ensures
        r@.len() == g@.len(),
        forall|i: int| 0 <= i < g@.len() ==> #[trigger] r@[i].wf(),
        forall|i: int| 0 <= i < g@.len() ==> #[trigger] r@[i].typ() == g@[i].btyp(),
        forall|i: int| 0 <= i < g@.len() ==> #[trigger] r@[i].vals() == g@[i].bvals(),
    decreases g@,
{
    let ghost orig = g@;
    let mut out: Vec<Column> = Vec::new();
    let mut i: usize = 0;
    let n = cs.len();
    while i < n
        invariant
            g@ == orig,
            i <= n,
            n == orig.len(),
            out@.len() == i as int,
            cs@ == orig.subrange(i as int, n as int),
            forall|j: int| 0 <= j < orig.len() ==> #[trigger] orig[j].bwf(),
            forall|j: int| 0 <= j < i as int ==> #[trigger] out@[j].wf(),
            forall|j: int| 0 <= j < i as int ==> #[trigger] out@[j].typ() == orig[j].btyp(),
            forall|j: int| 0 <= j < i as int ==> #[trigger] out@[j].vals() == orig[j].bvals(),
        decreases n - i,
    {
        let b = cs.remove(0);
        proof {
            assert(b == orig[i as int]);
            assert(decreases_to!(orig => orig[i as int]));
            assert(cs@ =~= orig.subrange(i + 1, n as int));
        }
        out.push(b.build());
        i = i + 1;
    }
    out
}

/// The value a `push_default` appends for each logical type.
pub open spec fn default_val(t: TypeV) -> Val
    decreases t,
{
    match t {
        TypeV::Null => Val::Null,
        TypeV::EmptyArray => Val::EmptyArray,
        TypeV::EmptyMap => Val::EmptyMap,
        TypeV::Boolean => Val::Boolean(false),
        TypeV::String => Val::String(Seq::empty()),
        TypeV::Number(k) => Val::Number(zero_number(k)),
        TypeV::Decimal(DecimalDataType::Decimal128(size)) => Val::Decimal(
            DecimalScalar::Decimal128(0, size),
        ),
        TypeV::Decimal(DecimalDataType::Decimal256(size)) => Val::Decimal(
            DecimalScalar::Decimal256(crate::scalar::I256 { hi: 0, lo: 0 }, size),
        ),
        TypeV::Timestamp => Val::Timestamp(0),
        TypeV::Date => Val::Date(0),
        TypeV::Nullable(_) => Val::Null,
        TypeV::Array(_) => Val::Array(Seq::empty()),
        TypeV::KvMap(_) => Val::KvMap(Seq::empty()),
        TypeV::Tuple(ts) => Val::Tuple(defaults_seq(ts)),
        TypeV::Variant => Val::Variant(jsonb_null_bytes()),
        TypeV::Generic(_) => Val::Null,
    }
}

/// The default value of each type in a sequence.
pub open spec fn defaults_seq(ts: Seq<TypeV>) -> Seq<Val>
    decreases ts,
{
    if ts.len() == 0 {
        Seq::empty()
    } else {
        defaults_seq(ts.drop_last()).push(default_val(ts.last()))
    }
}

/// `defaults_seq` maps the sequence elementwise.
pub proof fn lemma_defaults_seq(ts: Seq<TypeV>)
    ensures
        defaults_seq(ts).len() == ts.len(),
        forall|i: int| 0 <= i < ts.len() ==> #[trigger] defaults_seq(ts)[i] == default_val(ts[i]),
    decreases ts.len(),
{
    if ts.len() > 0 {
        lemma_defaults_seq(ts.drop_last());
    }
}

/// The zero value of a number kind.
pub open spec fn zero_number(k: NumberDataType) -> NumberScalar {
    match k {
        NumberDataType::UInt8 => NumberScalar::UInt8(0),
        NumberDataType::UInt16 => NumberScalar::UInt16(0),
        NumberDataType::UInt32 => NumberScalar::UInt32(0),
        NumberDataType::UInt64 => NumberScalar::UInt64(0),
        NumberDataType::Int8 => NumberScalar::Int8(0),
        NumberDataType::Int16 => NumberScalar::Int16(0),
        NumberDataType::Int32 => NumberScalar::Int32(0),
        NumberDataType::Int64 => NumberScalar::Int64(0),
    }
}

/// The binary encoding of the JSON `null` value: a scalar container header
/// followed by a null entry header.
pub open spec fn jsonb_null_bytes() -> Seq<u8> {
    seq![0x20u8, 0u8, 0u8, 0u8, 0u8, 0u8, 0u8, 0u8]
}

/// Whether a scalar view may be pushed into a builder of the given type:
/// its variant matches, or it is null and the type is nullable.
pub open spec fn val_fits(s: ScalarRef, t: TypeV) -> bool
    decreases s, 1int,
{
    if t is Nullable {
        s is Null || val_fits_base(s, *t->Nullable_0)
    } else {
        val_fits_base(s, t)
    }
}

/// Variant-for-variant type agreement between a scalar view and a type.
pub open spec fn val_fits_base(s: ScalarRef, t: TypeV) -> bool
    decreases s, 0int,
{
    match s {
        ScalarRef::Null => t is Null,
        ScalarRef::EmptyArray => t is EmptyArray,
        ScalarRef::EmptyMap => t is EmptyMap,
        ScalarRef::Number(ns) => t == TypeV::Number(ns.kind()),
        ScalarRef::Decimal(ds) => t == TypeV::Decimal(ds.kind()),
        ScalarRef::Boolean(_) => t is Boolean,
        ScalarRef::String(_) => t is String,
        ScalarRef::Timestamp(_) => t is Timestamp,
        ScalarRef::Date(_) => t is Date,
        ScalarRef::Array(col) => t == TypeV::Array(Box::new(col.typ())),
        ScalarRef::KvMap(col) => t == TypeV::KvMap(Box::new(col.typ())),
        ScalarRef::Tuple(ss) => t matches TypeV::Tuple(ts) && ss@.len() == ts.len() && fits_seq(
            ss@,
            ts,
        ),
        ScalarRef::Variant(_) => t is Variant,
    }
}

/// Elementwise `val_fits` between sibling scalar views and field types.
pub open spec fn fits_seq(ss: Seq<ScalarRef>, ts: Seq<TypeV>) -> bool
    decreases ss, 1int,
{
    ss.len() == 0 || (fits_seq(ss.drop_last(), ts.drop_last()) && val_fits(
        ss.last(),
        ts[ss.len() - 1],
    ))
}

/// `fits_seq` holds elementwise.
pub proof fn lemma_fits_seq(ss: Seq<ScalarRef>, ts: Seq<TypeV>)
    requires
        ss.len() == ts.len(),
        fits_seq(ss, ts),
    ensures
        forall|i: int| 0 <= i < ss.len() ==> #[trigger] val_fits(ss[i], ts[i]),
    decreases ss.len(),
{
    if ss.len() > 0 {
        lemma_fits_seq(ss.drop_last(), ts.drop_last());
        assert forall|i: int| 0 <= i < ss.len() implies #[trigger] val_fits(ss[i], ts[i]) by {
            if i < ss.len() - 1 {
                assert(val_fits(ss.drop_last()[i], ts.drop_last()[i]));
                assert(ss.drop_last()[i] == ss[i]);
                assert(ts.drop_last()[i] == ts[i]);
            } else {
                assert(ss[i] == ss.last());
            }
        }
    }
}

/// `fits_seq` from elementwise facts.
pub proof fn lemma_fits_seq_intro(ss: Seq<ScalarRef>, ts: Seq<TypeV>)
    requires
        ss.len() == ts.len(),
        forall|i: int| 0 <= i < ss.len() ==> #[trigger] val_fits(ss[i], ts[i]),
    ensures
        fits_seq(ss, ts),
    decreases ss.len(),
{
    if ss.len() > 0 {
        assert forall|i: int| 0 <= i < ss.drop_last().len() implies #[trigger] val_fits(
            ss.drop_last()[i],
            ts.drop_last()[i],
        ) by {
            assert(ss.drop_last()[i] == ss[i]);
            assert(ts.drop_last()[i] == ts[i]);
            assert(val_fits(ss[i], ts[i]));
        }
        lemma_fits_seq_intro(ss.drop_last(), ts.drop_last());
        assert(ss.last() == ss[ss.len() - 1]);
        assert(val_fits(ss[ss.len() - 1], ts[ss.len() - 1]));
    }
}

/// A scalar view that fits a type has the variant the type names.
pub proof fn lemma_fits_base_shape(s: &ScalarRef, t: TypeV)
    requires
        val_fits_base(*s, t),
    ensures
        (t is Null) ==> (s is Null),
        (t is EmptyArray) ==> (s is EmptyArray),
        (t is EmptyMap) ==> (s is EmptyMap),
        (t is Number) ==> (s is Number),
        (t is Decimal) ==> (s is Decimal),
        (t is Boolean) ==> (s is Boolean),
        (t is String) ==> (s is String),
        (t is Timestamp) ==> (s is Timestamp),
        (t is Date) ==> (s is Date),
        (t is Array) ==> (s is Array),
        (t is KvMap) ==> (s is KvMap),
        (t is Tuple) ==> (s is Tuple),
        (t is Variant) ==> (s is Variant),
{
    match s {
        ScalarRef::Null => {},
        ScalarRef::EmptyArray => {},
        ScalarRef::EmptyMap => {},
        ScalarRef::Number(_) => {},
        ScalarRef::Decimal(_) => {},
        ScalarRef::Boolean(_) => {},
        ScalarRef::String(_) => {},
        ScalarRef::Timestamp(_) => {},
        ScalarRef::Date(_) => {},
        ScalarRef::Array(_) => {},
        ScalarRef::KvMap(_) => {},
        ScalarRef::Tuple(_) => {},
        ScalarRef::Variant(_) => {},
    }
}

/// A number value's kind names its variant.
pub proof fn lemma_number_scalar_kind(v: NumberScalar)
    ensures
        (v.kind() is UInt8) == (v is UInt8),
        (v.kind() is UInt16) == (v is UInt16),
        (v.kind() is UInt32) == (v is UInt32),
        (v.kind() is UInt64) == (v is UInt64),
        (v.kind() is Int8) == (v is Int8),
        (v.kind() is Int16) == (v is Int16),
        (v.kind() is Int32) == (v is Int32),
        (v.kind() is Int64) == (v is Int64),
{
    match v {
        NumberScalar::UInt8(_) => {},
        NumberScalar::UInt16(_) => {},
        NumberScalar::UInt32(_) => {},
        NumberScalar::UInt64(_) => {},
        NumberScalar::Int8(_) => {},
        NumberScalar::Int16(_) => {},
        NumberScalar::Int32(_) => {},
        NumberScalar::Int64(_) => {},
    }
}

/// A number buffer's kind names its variant.
pub proof fn lemma_number_column_kind(c: &NumberColumn)
    ensures
        (c.kind() is UInt8) == (c is UInt8),
        (c.kind() is UInt16) == (c is UInt16),
        (c.kind() is UInt32) == (c is UInt32),
        (c.kind() is UInt64) == (c is UInt64),
        (c.kind() is Int8) == (c is Int8),
        (c.kind() is Int16) == (c is Int16),
        (c.kind() is Int32) == (c is Int32),
        (c.kind() is Int64) == (c is Int64),
{
    match c {
        NumberColumn::UInt8(_) => {},
        NumberColumn::UInt16(_) => {},
        NumberColumn::UInt32(_) => {},
        NumberColumn::UInt64(_) => {},
        NumberColumn::Int8(_) => {},
        NumberColumn::Int16(_) => {},
        NumberColumn::Int32(_) => {},
        NumberColumn::Int64(_) => {},
    }
}

/// A decimal buffer's kind names its variant.
pub proof fn lemma_decimal_column_kind(c: &DecimalColumn)
    ensures
        (c.kind() is Decimal128) == (c is Decimal128),
        (c.kind() is Decimal256) == (c is Decimal256),
{
    match c {
        DecimalColumn::Decimal128(_, _) => {},
        DecimalColumn::Decimal256(_, _) => {},
    }
}

impl Column {
    /// A column's type constructor names its variant, for every variant.
    pub proof fn lemma_typ_variant(&self)
        ensures
            (self.typ() is Null) == (self is Null),
            (self.typ() is EmptyArray) == (self is EmptyArray),
            (self.typ() is EmptyMap) == (self is EmptyMap),
            (self.typ() is Number) == (self is Number),
            (self.typ() is Decimal) == (self is Decimal),
            (self.typ() is Boolean) == (self is Boolean),
            (self.typ() is String) == (self is String),
            (self.typ() is Timestamp) == (self is Timestamp),
            (self.typ() is Date) == (self is Date),
            (self.typ() is Array) == (self is Array),
            (self.typ() is KvMap) == (self is KvMap),
            (self.typ() is Nullable) == (self is Nullable),
            (self.typ() is Tuple) == (self is Tuple),
            (self.typ() is Variant) == (self is Variant),
    {
        match self {
            Column::Null { .. } => {},
            Column::EmptyArray { .. } => {},
            Column::EmptyMap { .. } => {},
            Column::Number(_) => {},
            Column::Decimal(_) => {},
            Column::Boolean(_) => {},
            Column::String(_) => {},
            Column::Timestamp(_) => {},
            Column::Date(_) => {},
            Column::Array(_) => {},
            Column::KvMap(_) => {},
            Column::Nullable(_) => {},
            Column::Tuple { .. } => {},
            Column::Variant(_) => {},
        }
    }
}

/// Append of one vector of `Copy` elements onto another.
pub(crate) fn extend_vec<T: Copy>(dst: Vec<T>, src: &Vec<T>) -> (r: Vec<T>)
    ensures
        r@ == dst@ + src@,
{
    let mut out = dst;
    let mut i: usize = 0;
    let ghost base = out@;
    while i < src.len()
        invariant
            i <= src@.len(),
            out@ == base + src@.subrange(0, i as int),
        decreases src@.len() - i,
    {
        out.push(src[i]);
        proof {
            assert(out@ =~= base + src@.subrange(0, i + 1));
        }
        i = i + 1;
    }
    proof {
        assert(base + src@.subrange(0, src@.len() as int) =~= base + src@);
    }
    out
}

/// Append one committed row of bytes to a growable string buffer.
fn commit_bytes(sc: StringColumn, bytes: &Vec<u8>) -> (r: StringColumn)
    requires
        sc.wf(),
        sc.offsets@[0] == 0,
        sc.offsets@.last() == sc.data@.len(),
    ensures
        r.wf(),
        r.offsets@[0] == 0,
        r.offsets@.last() == r.data@.len(),
        r.row_count() == sc.row_count() + 1,
        forall|i: int| 0 <= i < sc.row_count() ==> #[trigger] r.row(i) == sc.row(i),
        r.row(sc.row_count() as int) == bytes@,
{
    let StringColumn { data, mut offsets } = sc;
    let ghost old_sc = StringColumn { data: data, offsets: offsets };
    let new_data = extend_vec(data, bytes);
    let end = new_data.len();
    offsets.push(end);
    let r = StringColumn { data: new_data, offsets };
    proof {
        assert forall|i: int| 0 <= i < old_sc.row_count() implies #[trigger] r.row(i)
            == old_sc.row(i) by {
            assert(r.offsets@[i] == old_sc.offsets@[i]);
            assert(r.offsets@[i + 1] == old_sc.offsets@[i + 1]);
            assert(r.data@.subrange(old_sc.offsets@[i] as int, old_sc.offsets@[i + 1] as int)
                =~= old_sc.data@.subrange(
                old_sc.offsets@[i] as int,
                old_sc.offsets@[i + 1] as int,
            ));
        }
        assert(r.row(old_sc.row_count() as int) =~= bytes@);
    }
    r
}

/// Append the type's zero-equivalent row to a builder, by value.
fn push_default_owned(b: ColumnBuilder) -> (r: ColumnBuilder)
    requires
        b.bwf(),
    ensures
        r.bwf(),
        r.btyp() == b.btyp(),
        r.bvals() == b.bvals().push(default_val(b.btyp())),
    decreases b,
{
    let ghost gb = b;
    match b {
        ColumnBuilder::Null { mut rows } => {
            rows.push(true);
            let r = ColumnBuilder::Null { rows };
            proof {
                assert(r.bvals() =~= gb.bvals().push(default_val(gb.btyp())));
            }
            r
        }
        ColumnBuilder::EmptyArray { mut rows } => {
            rows.push(true);
            let r = ColumnBuilder::EmptyArray { rows };
            proof {
                assert(r.bvals() =~= gb.bvals().push(default_val(gb.btyp())));
            }
            r
        }
        ColumnBuilder::EmptyMap { mut rows } => {
            rows.push(true);
            let r = ColumnBuilder::EmptyMap { rows };
            proof {
                assert(r.bvals() =~= gb.bvals().push(default_val(gb.btyp())));
            }
            r
        }
        ColumnBuilder::Number(nc) => {
            let nc2 = match nc {
                NumberColumn::UInt8(mut v) => {
                    v.push(0);
                    NumberColumn::UInt8(v)
                }
                NumberColumn::UInt16(mut v) => {
                    v.push(0);
                    NumberColumn::UInt16(v)
                }
                NumberColumn::UInt32(mut v) => {
                    v.push(0);
                    NumberColumn::UInt32(v)
                }
                NumberColumn::UInt64(mut v) => {
                    v.push(0);
                    NumberColumn::UInt64(v)
                }
                NumberColumn::Int8(mut v) => {
                    v.push(0);
                    NumberColumn::Int8(v)
                }
                NumberColumn::Int16(mut v) => {
                    v.push(0);
                    NumberColumn::Int16(v)
                }
                NumberColumn::Int32(mut v) => {
                    v.push(0);
                    NumberColumn::Int32(v)
                }
                NumberColumn::Int64(mut v) => {
                    v.push(0);
                    NumberColumn::Int64(v)
                }
            };
            let r = ColumnBuilder::Number(nc2);
            proof {
                assert(r.bvals() =~= gb.bvals().push(default_val(gb.btyp())));
            }
            r
        }
        ColumnBuilder::Decimal(dc) => {
            let dc2 = match dc {
                DecimalColumn::Decimal128(mut v, size) => {
                    v.push(0);
                    DecimalColumn::Decimal128(v, size)
                }
                DecimalColumn::Decimal256(mut v, size) => {
                    v.push(crate::scalar::I256 { hi: 0, lo: 0 });
                    DecimalColumn::Decimal256(v, size)
                }
            };
            let r = ColumnBuilder::Decimal(dc2);
            proof {
                assert(r.bvals() =~= gb.bvals().push(default_val(gb.btyp())));
            }
            r
        }
        ColumnBuilder::Boolean(mut v) => {
            v.push(false);
            let r = ColumnBuilder::Boolean(v);
            proof {
                assert(r.bvals() =~= gb.bvals().push(default_val(gb.btyp())));
            }
            r
        }
        ColumnBuilder::String(sc) => {
            let empty: Vec<u8> = Vec::new();
            let sc2 = commit_bytes(sc, &empty);
            let r = ColumnBuilder::String(sc2);
            proof {
                assert(r.bvals() =~= gb.bvals().push(default_val(gb.btyp())));
            }
            r
        }
        ColumnBuilder::Timestamp(mut v) => {
            v.push(0);
            let r = ColumnBuilder::Timestamp(v);
            proof {
                assert(r.bvals() =~= gb.bvals().push(default_val(gb.btyp())));
            }
            r
        }
        ColumnBuilder::Date(mut v) => {
            v.push(0);
            let r = ColumnBuilder::Date(v);
            proof {
                assert(r.bvals() =~= gb.bvals().push(default_val(gb.btyp())));
            }
            r
        }
        ColumnBuilder::Array(acb) => {
            let ArrayColumnBuilder { builder, mut offsets } = *acb;
            let end = builder.len();
            offsets.push(end);
            let r = ColumnBuilder::Array(Box::new(ArrayColumnBuilder { builder, offsets }));
            proof {
                assert forall|i: int| 0 <= i < r.bvals().len() implies r.bvals()[i]
                    == gb.bvals().push(default_val(gb.btyp()))[i] by {
                    if i < gb.bvals().len() {
                        assert(r.bvals()[i] == gb.bvals()[i]);
                    } else {
                        let inner = gb->Array_0.builder.bvals();
                        assert(inner.subrange(inner.len() as int, inner.len() as int)
                            =~= Seq::empty());
                        assert(r.bvals()[i] == Val::Array(Seq::empty()));
                    }
                }
                assert(r.bvals() =~= gb.bvals().push(default_val(gb.btyp())));
            }
            r
        }
        ColumnBuilder::KvMap(acb) => {
            let ArrayColumnBuilder { builder, mut offsets } = *acb;
            let end = builder.len();
            offsets.push(end);
            let r = ColumnBuilder::KvMap(Box::new(ArrayColumnBuilder { builder, offsets }));
            proof {
                assert forall|i: int| 0 <= i < r.bvals().len() implies r.bvals()[i]
                    == gb.bvals().push(default_val(gb.btyp()))[i] by {
                    if i < gb.bvals().len() {
                        assert(r.bvals()[i] == gb.bvals()[i]);
                    } else {
                        let inner = gb->KvMap_0.builder.bvals();
                        assert(inner.subrange(inner.len() as int, inner.len() as int)
                            =~= Seq::empty());
                        assert(r.bvals()[i] == Val::KvMap(Seq::empty()));
                    }
                }
                assert(r.bvals() =~= gb.bvals().push(default_val(gb.btyp())));
            }
            r
        }
        ColumnBuilder::Nullable(ncb) => {
            let NullableColumnBuilder { builder, mut validity } = *ncb;
            let builder2 = push_default_owned(builder);
            validity.push(false);
            proof {
                builder2.lemma_btyp_variant();
                gb->Nullable_0.builder.lemma_btyp_variant();
            }
            let r = ColumnBuilder::Nullable(
                Box::new(NullableColumnBuilder { builder: builder2, validity }),
            );
            proof {
                assert(r.bvals() =~= gb.bvals().push(default_val(gb.btyp())));
            }
            r
        }
        ColumnBuilder::Tuple { fields, mut rows } => {
            let ghost len = rows@.len();
            proof {
                lemma_bcols_wf_len(fields@, len);
            }
            let fields2 = push_default_fields(fields, Ghost(gb->Tuple_fields@));
            rows.push(true);
            let r = ColumnBuilder::Tuple { fields: fields2, rows };
            proof {
                let gf = gb->Tuple_fields@;
                lemma_bcols_vals(fields2@);
                lemma_bcols_vals(gf);
                lemma_bcols_typs(fields2@);
                lemma_bcols_typs(gf);
                lemma_defaults_seq(bcols_typs(gf));
                assert(bcols_typs(fields2@) =~= bcols_typs(gf));
                assert forall|j: int| 0 <= j < fields2@.len() implies
                    #[trigger] fields2@[j].bvals().len() == (len + 1) as nat by {
                    assert(fields2@[j].bvals() == gf[j].bvals().push(default_val(gf[j].btyp())));
                }
                lemma_bcols_wf_len_intro(fields2@, (len + 1) as nat);
                assert forall|i: int| 0 <= i < r.bvals().len() implies r.bvals()[i]
                    == gb.bvals().push(default_val(gb.btyp()))[i] by {
                    if i < len as int {
                        assert(Seq::new(
                            bcols_vals(fields2@).len(),
                            |j: int| bcols_vals(fields2@)[j][i],
                        ) =~= Seq::new(bcols_vals(gf).len(), |j: int| bcols_vals(gf)[j][i]));
                    } else {
                        assert(Seq::new(
                            bcols_vals(fields2@).len(),
                            |j: int| bcols_vals(fields2@)[j][i],
                        ) =~= defaults_seq(bcols_typs(gf)));
                    }
                }
                assert(r.bvals() =~= gb.bvals().push(default_val(gb.btyp())));
            }
            r
        }
        ColumnBuilder::Variant(sc) => {
            let nul = crate::ord::jsonb_null();
            let sc2 = commit_bytes(sc, &nul);
            let r = ColumnBuilder::Variant(sc2);
            proof {
                assert(r.bvals() =~= gb.bvals().push(default_val(gb.btyp())));
                let old_sc = gb->Variant_0;
                assert forall|i: int| 0 <= i < sc2.row_count() implies crate::ord::jsonb_wf(
                    #[trigger] sc2.row(i),
                ) by {
                    if i < old_sc.row_count() {
                        assert(sc2.row(i) == old_sc.row(i));
                        assert(crate::ord::jsonb_wf(old_sc.row(i)));
                    } else {
                        assert(sc2.row(i) == nul@);
                    }
                }
            }
            r
        }
    }
}

/// Append a default row to each builder in a drained vector of siblings.
fn push_default_fields(mut cs: Vec<ColumnBuilder>, g: Ghost<Seq<ColumnBuilder>>) -> (r: Vec<
    ColumnBuilder,
>)
    requires
        g@ == cs@,
        forall|i: int| 0 <= i < g@.len() ==> #[trigger] g@[i].bwf(),
    ensures
        r@.len() == g@.len(),
        forall|i: int| 0 <= i < g@.len() ==> #[trigger] r@[i].bwf(),
        forall|i: int| 0 <= i < g@.len() ==> #[trigger] r@[i].btyp() == g@[i].btyp(),
        forall|i: int|
            0 <= i < g@.len() ==> #[trigger] r@[i].bvals() == g@[i].bvals().push(
                default_val(g@[i].btyp()),
            ),
    decreases g@,
{
    let ghost orig = g@;
    let mut out: Vec<ColumnBuilder> = Vec::new();
    let mut i: usize = 0;
    let n = cs.len();
    while i < n
        invariant
            g@ == orig,
            i <= n,
            n == orig.len(),
            out@.len() == i as int,
            cs@ == orig.subrange(i as int, n as int),
            forall|j: int| 0 <= j < orig.len() ==> #[trigger] orig[j].bwf(),
            forall|j: int| 0 <= j < i as int ==> #[trigger] out@[j].bwf(),
            forall|j: int| 0 <= j < i as int ==> #[trigger] out@[j].btyp() == orig[j].btyp(),
            forall|j: int|
                0 <= j < i as int ==> #[trigger] out@[j].bvals() == orig[j].bvals().push(
                    default_val(orig[j].btyp()),
                ),
        decreases n - i,
    {
        let b = cs.remove(0);
        proof {
            assert(b == orig[i as int]);
            assert(decreases_to!(orig => orig[i as int]));
            assert(cs@ =~= orig.subrange(i + 1, n as int));
        }
        out.push(push_default_owned(b));
        i = i + 1;
    }
    out
}

/// Append one number of the matching kind to a number buffer.
fn push_number(nc: NumberColumn, v: NumberScalar) -> (r: NumberColumn)
    requires
        v.kind() == nc.kind(),
    ensures
        r.kind() == nc.kind(),
        r.vals() == nc.vals().push(Val::Number(v)),
{
    let ghost gn = nc;
    proof {
        lemma_number_scalar_kind(v);
    }
    let r = match nc {
        NumberColumn::UInt8(mut vec) => match v {
            NumberScalar::UInt8(x) => {
                vec.push(x);
                NumberColumn::UInt8(vec)
            }
            _ => vstd::pervasive::unreached(),
        },
        NumberColumn::UInt16(mut vec) => match v {
            NumberScalar::UInt16(x) => {
                vec.push(x);
                NumberColumn::UInt16(vec)
            }
            _ => vstd::pervasive::unreached(),
        },
        NumberColumn::UInt32(mut vec) => match v {
            NumberScalar::UInt32(x) => {
                vec.push(x);
                NumberColumn::UInt32(vec)
            }
            _ => vstd::pervasive::unreached(),
        },
        NumberColumn::UInt64(mut vec) => match v {
            NumberScalar::UInt64(x) => {
                vec.push(x);
                NumberColumn::UInt64(vec)
            }
            _ => vstd::pervasive::unreached(),
        },
        NumberColumn::Int8(mut vec) => match v {
            NumberScalar::Int8(x) => {
                vec.push(x);
                NumberColumn::Int8(vec)
            }
            _ => vstd::pervasive::unreached(),
        },
        NumberColumn::Int16(mut vec) => match v {
            NumberScalar::Int16(x) => {
                vec.push(x);
                NumberColumn::Int16(vec)
            }
            _ => vstd::pervasive::unreached(),
        },
        NumberColumn::Int32(mut vec) => match v {
            NumberScalar::Int32(x) => {
                vec.push(x);
                NumberColumn::Int32(vec)
            }
            _ => vstd::pervasive::unreached(),
        },
        NumberColumn::Int64(mut vec) => match v {
            NumberScalar::Int64(x) => {
                vec.push(x);
                NumberColumn::Int64(vec)
            }
            _ => vstd::pervasive::unreached(),
        },
    };
    proof {
        assert(r.vals() =~= gn.vals().push(Val::Number(v)));
    }
    r
}

/// Append one decimal of the matching kind to a decimal buffer.
fn push_decimal(dc: DecimalColumn, v: DecimalScalar) -> (r: DecimalColumn)
    requires
        v.kind() == dc.kind(),
    ensures
        r.kind() == dc.kind(),
        r.vals() == dc.vals().push(Val::Decimal(v)),
{
    let ghost gd = dc;
    let r = match dc {
        DecimalColumn::Decimal128(mut vec, size) => match v {
            DecimalScalar::Decimal128(x, _) => {
                vec.push(x);
                DecimalColumn::Decimal128(vec, size)
            }
            _ => vstd::pervasive::unreached(),
        },
        DecimalColumn::Decimal256(mut vec, size) => match v {
            DecimalScalar::Decimal256(x, _) => {
                vec.push(x);
                DecimalColumn::Decimal256(vec, size)
            }
            _ => vstd::pervasive::unreached(),
        },
    };
    proof {
        assert(r.vals() =~= gd.vals().push(Val::Decimal(v)));
    }
    r
}

/// Append of a range of one vector of `Copy` elements onto another.
fn extend_range<T: Copy>(dst: Vec<T>, src: &Vec<T>, a: usize, e: usize) -> (r: Vec<T>)
    requires
        a <= e <= src@.len(),
    ensures
        r@ == dst@ + src@.subrange(a as int, e as int),
{
    let mut out = dst;
    let mut i: usize = a;
    let ghost base = out@;
    while i < e
        invariant
            a <= i <= e <= src@.len(),
            out@ == base + src@.subrange(a as int, i as int),
        decreases e - i,
    {
        out.push(src[i]);
        proof {
            assert(out@ =~= base + src@.subrange(a as int, i + 1));
        }
        i = i + 1;
    }
    out
}

/// Append rows `[a, e)` of a string column onto a growable string buffer.
fn append_string_range(sc: StringColumn, other: &StringColumn, a: usize, e: usize) -> (r:
    StringColumn)
    requires
        sc.wf(),
        sc.offsets@[0] == 0,
        sc.offsets@.last() == sc.data@.len(),
        other.wf(),
        a <= e <= other.row_count(),
    ensures
        r.wf(),
        r.offsets@[0] == 0,
        r.offsets@.last() == r.data@.len(),
        r.row_count() == sc.row_count() + (e - a),
        forall|i: int| 0 <= i < sc.row_count() ==> #[trigger] r.row(i) == sc.row(i),
        forall|k: int|
            0 <= k < (e - a) ==> #[trigger] r.row(sc.row_count() + k) == other.row(a + k),
{
    let mut out = sc;
    let ghost orig = out;
    let mut i: usize = a;
    while i < e
        invariant
            a <= i <= e <= other.row_count(),
            other.wf(),
            out.wf(),
            out.offsets@[0] == 0,
            out.offsets@.last() == out.data@.len(),
            out.row_count() == orig.row_count() + (i - a),
            orig.wf(),
            orig.offsets@[0] == 0,
            orig.offsets@.last() == orig.data@.len(),
            forall|j: int| 0 <= j < orig.row_count() ==> #[trigger] out.row(j) == orig.row(j),
            forall|k: int|
                0 <= k < (i - a) ==> #[trigger] out.row(orig.row_count() + k) == other.row(a + k),
        decreases e - i,
    {
        let o1 = other.offsets[i];
        let o2 = other.offsets[i + 1];
        proof {
            assert(other.offsets@[i as int] <= other.offsets@[i + 1]);
            assert(other.offsets@[i + 1] <= other.offsets@[other.offsets@.len() - 1]);
        }
        let bytes = copy_range(&other.data, o1, o2);
        out = commit_bytes(out, &bytes);
        i = i + 1;
    }
    out
}

/// Append rows `[a, e)` of a column into a builder of the same type, by
/// value.
#[verifier::loop_isolation(false)]
#[verifier::rlimit(60)]
fn append_range_owned(b: ColumnBuilder, c: &Column, a: usize, e: usize) -> (r: ColumnBuilder)
    requires
        b.bwf(),
        c.wf(),
        b.btyp() == c.typ(),
        a <= e <= c.vals().len(),
    ensures
        r.bwf(),
        r.btyp() == b.btyp(),
        r.bvals() == b.bvals() + c.vals().subrange(a as int, e as int),
    decreases b,
{
    let ghost gb = b;
    proof {
        c.lemma_typ_variant();
        gb.lemma_btyp_variant();
    }
    match b {
        ColumnBuilder::Null { mut rows } => match c {
            Column::Null { .. } => {
                let mut k: usize = a;
                while k < e
                    invariant
                        a <= k <= e,
                        rows@.len() == gb.bvals().len() + (k - a),
                    decreases e - k,
                {
                    rows.push(true);
                    k = k + 1;
                }
                let r = ColumnBuilder::Null { rows };
                proof {
                    assert(r.bvals() =~= gb.bvals() + c.vals().subrange(a as int, e as int));
                }
                r
            }
            _ => vstd::pervasive::unreached(),
        },
        ColumnBuilder::EmptyArray { mut rows } => match c {
            Column::EmptyArray { .. } => {
                let mut k: usize = a;
                while k < e
                    invariant
                        a <= k <= e,
                        rows@.len() == gb.bvals().len() + (k - a),
                    decreases e - k,
                {
                    rows.push(true);
                    k = k + 1;
                }
                let r = ColumnBuilder::EmptyArray { rows };
                proof {
                    assert(r.bvals() =~= gb.bvals() + c.vals().subrange(a as int, e as int));
                }
                r
            }
            _ => vstd::pervasive::unreached(),
        },
        ColumnBuilder::EmptyMap { mut rows } => match c {
            Column::EmptyMap { .. } => {
                let mut k: usize = a;
                while k < e
                    invariant
                        a <= k <= e,
                        rows@.len() == gb.bvals().len() + (k - a),
                    decreases e - k,
                {
                    rows.push(true);
                    k = k + 1;
                }
                let r = ColumnBuilder::EmptyMap { rows };
                proof {
                    assert(r.bvals() =~= gb.bvals() + c.vals().subrange(a as int, e as int));
                }
                r
            }
            _ => vstd::pervasive::unreached(),
        },
        ColumnBuilder::Number(nc) => match c {
            Column::Number(onc) => {
                proof {
                    lemma_number_column_kind(&nc);
                    lemma_number_column_kind(onc);
                }
                let nc2 = match nc {
                    NumberColumn::UInt8(vec) => match onc {
                        NumberColumn::UInt8(ovec) => NumberColumn::UInt8(
                            extend_range(vec, ovec, a, e),
                        ),
                        _ => vstd::pervasive::unreached(),
                    },
                    NumberColumn::UInt16(vec) => match onc {
                        NumberColumn::UInt16(ovec) => NumberColumn::UInt16(
                            extend_range(vec, ovec, a, e),
                        ),
                        _ => vstd::pervasive::unreached(),
                    },
                    NumberColumn::UInt32(vec) => match onc {
                        NumberColumn::UInt32(ovec) => NumberColumn::UInt32(
                            extend_range(vec, ovec, a, e),
                        ),
                        _ => vstd::pervasive::unreached(),
                    },
                    NumberColumn::UInt64(vec) => match onc {
                        NumberColumn::UInt64(ovec) => NumberColumn::UInt64(
                            extend_range(vec, ovec, a, e),
                        ),
                        _ => vstd::pervasive::unreached(),
                    },
                    NumberColumn::Int8(vec) => match onc {
                        NumberColumn::Int8(ovec) => NumberColumn::Int8(
                            extend_range(vec, ovec, a, e),
                        ),
                        _ => vstd::pervasive::unreached(),
                    },
                    NumberColumn::Int16(vec) => match onc {
                        NumberColumn::Int16(ovec) => NumberColumn::Int16(
                            extend_range(vec, ovec, a, e),
                        ),
                        _ => vstd::pervasive::unreached(),
                    },
                    NumberColumn::Int32(vec) => match onc {
                        NumberColumn::Int32(ovec) => NumberColumn::Int32(
                            extend_range(vec, ovec, a, e),
                        ),
                        _ => vstd::pervasive::unreached(),
                    },
                    NumberColumn::Int64(vec) => match onc {
                        NumberColumn::Int64(ovec) => NumberColumn::Int64(
                            extend_range(vec, ovec, a, e),
                        ),
                        _ => vstd::pervasive::unreached(),
                    },
                };
                let r = ColumnBuilder::Number(nc2);
                proof {
                    assert(r.bvals() =~= gb.bvals() + c.vals().subrange(a as int, e as int));
                }
                r
            }
            _ => vstd::pervasive::unreached(),
        },
        ColumnBuilder::Decimal(dc) => match c {
            Column::Decimal(odc) => {
                proof {
                    lemma_decimal_column_kind(&dc);
                    lemma_decimal_column_kind(odc);
                }
                let dc2 = match dc {
                    DecimalColumn::Decimal128(vec, size) => match odc {
                        DecimalColumn::Decimal128(ovec, _) => DecimalColumn::Decimal128(
                            extend_range(vec, ovec, a, e),
                            size,
                        ),
                        _ => vstd::pervasive::unreached(),
                    },
                    DecimalColumn::Decimal256(vec, size) => match odc {
                        DecimalColumn::Decimal256(ovec, _) => DecimalColumn::Decimal256(
                            extend_range(vec, ovec, a, e),
                            size,
                        ),
                        _ => vstd::pervasive::unreached(),
                    },
                };
                let r = ColumnBuilder::Decimal(dc2);
                proof {
                    assert(r.bvals() =~= gb.bvals() + c.vals().subrange(a as int, e as int));
                }
                r
            }
            _ => vstd::pervasive::unreached(),
        },
        ColumnBuilder::Boolean(vec) => match c {
            Column::Boolean(ovec) => {
                let r = ColumnBuilder::Boolean(extend_range(vec, ovec, a, e));
                proof {
                    assert(r.bvals() =~= gb.bvals() + c.vals().subrange(a as int, e as int));
                }
                r
            }
            _ => vstd::pervasive::unreached(),
        },
        ColumnBuilder::Timestamp(vec) => match c {
            Column::Timestamp(ovec) => {
                let r = ColumnBuilder::Timestamp(extend_range(vec, ovec, a, e));
                proof {
                    assert(r.bvals() =~= gb.bvals() + c.vals().subrange(a as int, e as int));
                }
                r
            }
            _ => vstd::pervasive::unreached(),
        },
        ColumnBuilder::Date(vec) => match c {
            Column::Date(ovec) => {
                let r = ColumnBuilder::Date(extend_range(vec, ovec, a, e));
                proof {
                    assert(r.bvals() =~= gb.bvals() + c.vals().subrange(a as int, e as int));
                }
                r
            }
            _ => vstd::pervasive::unreached(),
        },
        ColumnBuilder::String(sc) => match c {
            Column::String(osc) => {
                let ghost gsc = sc;
                let sc2 = append_string_range(sc, osc, a, e);
                let r = ColumnBuilder::String(sc2);
                proof {
                    assert forall|i2: int| 0 <= i2 < r.bvals().len() implies r.bvals()[i2] == (
                    gb.bvals() + c.vals().subrange(a as int, e as int))[i2] by {
                        if i2 < gsc.row_count() {
                            assert(sc2.row(i2) == gsc.row(i2));
                        } else {
                            let k = i2 - gsc.row_count();
                            assert(sc2.row(gsc.row_count() + k) == osc.row(a + k));
                            assert(c.vals()[a + k] == Val::String(osc.row(a + k)));
                        }
                    }
                    assert(r.bvals() =~= gb.bvals() + c.vals().subrange(a as int, e as int));
                }
                r
            }
            _ => vstd::pervasive::unreached(),
        },
        ColumnBuilder::Variant(sc) => match c {
            Column::Variant(osc) => {
                let ghost gsc = sc;
                let sc2 = append_string_range(sc, osc, a, e);
                let r = ColumnBuilder::Variant(sc2);
                proof {
                    assert forall|i2: int| 0 <= i2 < r.bvals().len() implies r.bvals()[i2] == (
                    gb.bvals() + c.vals().subrange(a as int, e as int))[i2] by {
                        if i2 < gsc.row_count() {
                            assert(sc2.row(i2) == gsc.row(i2));
                        } else {
                            let k = i2 - gsc.row_count();
                            assert(sc2.row(gsc.row_count() + k) == osc.row(a + k));
                            assert(c.vals()[a + k] == Val::Variant(osc.row(a + k)));
                        }
                    }
                    assert(r.bvals() =~= gb.bvals() + c.vals().subrange(a as int, e as int));
                    assert forall|i2: int| 0 <= i2 < sc2.row_count() implies crate::ord::jsonb_wf(
                        #[trigger] sc2.row(i2),
                    ) by {
                        if i2 < gsc.row_count() {
                            assert(sc2.row(i2) == gsc.row(i2));
                            assert(crate::ord::jsonb_wf(gsc.row(i2)));
                        } else {
                            let k = i2 - gsc.row_count();
                            assert(sc2.row(gsc.row_count() + k) == osc.row(a + k));
                            assert(crate::ord::jsonb_wf(osc.row(a + k)));
                        }
                    }
                }
                r
            }
            _ => vstd::pervasive::unreached(),
        },
        ColumnBuilder::Array(acb) => match c {
            Column::Array(oac) => {
                let ArrayColumnBuilder { builder, mut offsets } = *acb;
                let o_a = oac.offsets[a];
                let o_e = oac.offsets[e];
                proof {
                    assert(oac.offsets@[a as int] <= oac.offsets@[e as int]);
                    assert(oac.offsets@[e as int] <= oac.offsets@[oac.offsets@.len() - 1]);
                }
                let base = builder.len();
                proof {
                    assert(c.vals().len() == oac.row_count());
                    assert(gb.bwf());
                    assert(gb->Array_0.offsets@.last() == gb->Array_0.builder.bvals().len());
                }
                let builder2 = append_range_owned(builder, &oac.values, o_a, o_e);
                let total = builder2.len();
                let ghost old_offsets = offsets@;
                let mut i: usize = a;
                while i < e
                    invariant
                        a <= i <= e,
                        e < oac.offsets@.len(),
                        oac.offsets_wf(),
                        o_a == oac.offsets@[a as int],
                        o_e == oac.offsets@[e as int],
                        total == base + (o_e - o_a),
                        total <= usize::MAX,
                        offsets@.len() == old_offsets.len() + (i - a),
                        forall|j: int|
                            0 <= j < old_offsets.len() ==> #[trigger] offsets@[j]
                                == old_offsets[j],
                        forall|k: int|
                            0 <= k < (i - a) ==> #[trigger] offsets@[old_offsets.len() + k]
                                == base + (oac.offsets@[a + k + 1] - o_a),
                    decreases e - i,
                {
                    proof {
                        assert(oac.offsets@[a as int] <= oac.offsets@[i + 1]);
                        assert(oac.offsets@[i + 1] <= oac.offsets@[e as int]);
                    }
                    let step = oac.offsets[i + 1] - o_a;
                    offsets.push(base + step);
                    i = i + 1;
                }
                let r = ColumnBuilder::Array(
                    Box::new(ArrayColumnBuilder { builder: builder2, offsets }),
                );

                proof {
                    let acb0 = gb->Array_0;
                    let inner = acb0.builder.bvals();
                    let app = oac.values.vals().subrange(o_a as int, o_e as int);
                    let inner2 = builder2.bvals();
                    let old_count = old_offsets.len() - 1;
                    assert(inner2 == inner + app);
                    assert(old_offsets.last() == base);
                    assert forall|j: int| 0 <= j < offsets@.len() implies #[trigger] offsets@[j]
                        == (if j < old_offsets.len() {
                        old_offsets[j]
                    } else {
                        (base + (oac.offsets@[a + (j - old_offsets.len()) + 1] - o_a)) as usize
                    }) by {
                        if j >= old_offsets.len() {
                            let k = j - old_offsets.len();
                            assert(offsets@[old_offsets.len() + k] == base + (oac.offsets@[a + k
                                + 1] - o_a));
                        }
                    }
                    assert forall|x: int, y: int|
                        0 <= x <= y < offsets@.len() implies offsets@[x] <= offsets@[y] by {
                        if y < old_offsets.len() {
                            assert(old_offsets[x] <= old_offsets[y]);
                        } else if x < old_offsets.len() {
                            assert(offsets@[x] <= base);
                            assert(oac.offsets@[a as int] <= oac.offsets@[a + (y - old_offsets.len()) + 1]);
                        } else {
                            assert(oac.offsets@[a + (x - old_offsets.len()) + 1]
                                <= oac.offsets@[a + (y - old_offsets.len()) + 1]);
                        }
                    }
                    assert(offsets@.last() == base + (o_e - o_a));
                    assert forall|i2: int| 0 <= i2 < r.bvals().len() implies r.bvals()[i2] == (
                    gb.bvals() + c.vals().subrange(a as int, e as int))[i2] by {
                        if i2 < old_count {
                            assert(offsets@[i2] == old_offsets[i2]);
                            assert(offsets@[i2 + 1] == old_offsets[i2 + 1]);
                            assert(old_offsets[i2 + 1] <= old_offsets.last());
                            assert(inner2.subrange(offsets@[i2] as int, offsets@[i2 + 1] as int)
                                =~= inner.subrange(
                                old_offsets[i2] as int,
                                old_offsets[i2 + 1] as int,
                            ));
                        } else {
                            let k = i2 - old_count;
                            assert(offsets@[i2] == base + (oac.offsets@[a + k] - o_a));
                            assert(offsets@[i2 + 1] == base + (oac.offsets@[a + k + 1] - o_a));
                            assert(oac.offsets@[a as int] <= oac.offsets@[a + k]);
                            assert(oac.offsets@[a + k] <= oac.offsets@[a + k + 1]);
                            assert(oac.offsets@[a + k + 1] <= oac.offsets@[e as int]);
                            assert(inner2.subrange(offsets@[i2] as int, offsets@[i2 + 1] as int)
                                =~= oac.values.vals().subrange(
                                oac.offsets@[a + k] as int,
                                oac.offsets@[a + k + 1] as int,
                            ));
                            assert(c.vals()[a + k] == Val::Array(
                                oac.values.vals().subrange(
                                    oac.offsets@[a + k] as int,
                                    oac.offsets@[a + k + 1] as int,
                                ),
                            ));
                        }
                    }
                    assert(r.bvals() =~= gb.bvals() + c.vals().subrange(a as int, e as int));
                }

                r
            }
            _ => vstd::pervasive::unreached(),
        },
        ColumnBuilder::KvMap(acb) => match c {
            Column::KvMap(oac) => {
                let ArrayColumnBuilder { builder, mut offsets } = *acb;
                let o_a = oac.offsets[a];
                let o_e = oac.offsets[e];
                proof {
                    assert(oac.offsets@[a as int] <= oac.offsets@[e as int]);
                    assert(oac.offsets@[e as int] <= oac.offsets@[oac.offsets@.len() - 1]);
                }
                let base = builder.len();
                proof {
                    assert(c.vals().len() == oac.row_count());
                    assert(gb.bwf());
                    assert(gb->KvMap_0.offsets@.last() == gb->KvMap_0.builder.bvals().len());
                }
                let builder2 = append_range_owned(builder, &oac.values, o_a, o_e);
                let total = builder2.len();
                let ghost old_offsets = offsets@;
                let mut i: usize = a;
                while i < e
                    invariant
                        a <= i <= e,
                        e < oac.offsets@.len(),
                        oac.offsets_wf(),
                        o_a == oac.offsets@[a as int],
                        o_e == oac.offsets@[e as int],
                        total == base + (o_e - o_a),
                        total <= usize::MAX,
                        offsets@.len() == old_offsets.len() + (i - a),
                        forall|j: int|
                            0 <= j < old_offsets.len() ==> #[trigger] offsets@[j]
                                == old_offsets[j],
                        forall|k: int|
                            0 <= k < (i - a) ==> #[trigger] offsets@[old_offsets.len() + k]
                                == base + (oac.offsets@[a + k + 1] - o_a),
                    decreases e - i,
                {
                    proof {
                        assert(oac.offsets@[a as int] <= oac.offsets@[i + 1]);
                        assert(oac.offsets@[i + 1] <= oac.offsets@[e as int]);
                    }
                    let step = oac.offsets[i + 1] - o_a;
                    offsets.push(base + step);
                    i = i + 1;
                }
                let r = ColumnBuilder::KvMap(
                    Box::new(ArrayColumnBuilder { builder: builder2, offsets }),
                );

                proof {
                    let acb0 = gb->KvMap_0;
                    let inner = acb0.builder.bvals();
                    let app = oac.values.vals().subrange(o_a as int, o_e as int);
                    let inner2 = builder2.bvals();
                    let old_count = old_offsets.len() - 1;
                    assert(inner2 == inner + app);
                    assert(old_offsets.last() == base);
                    assert forall|j: int| 0 <= j < offsets@.len() implies #[trigger] offsets@[j]
                        == (if j < old_offsets.len() {
                        old_offsets[j]
                    } else {
                        (base + (oac.offsets@[a + (j - old_offsets.len()) + 1] - o_a)) as usize
                    }) by {
                        if j >= old_offsets.len() {
                            let k = j - old_offsets.len();
                            assert(offsets@[old_offsets.len() + k] == base + (oac.offsets@[a + k
                                + 1] - o_a));
                        }
                    }
                    assert forall|x: int, y: int|
                        0 <= x <= y < offsets@.len() implies offsets@[x] <= offsets@[y] by {
                        if y < old_offsets.len() {
                            assert(old_offsets[x] <= old_offsets[y]);
                        } else if x < old_offsets.len() {
                            assert(offsets@[x] <= base);
                            assert(oac.offsets@[a as int] <= oac.offsets@[a + (y - old_offsets.len()) + 1]);
                        } else {
                            assert(oac.offsets@[a + (x - old_offsets.len()) + 1]
                                <= oac.offsets@[a + (y - old_offsets.len()) + 1]);
                        }
                    }
                    assert(offsets@.last() == base + (o_e - o_a));
                    assert forall|i2: int| 0 <= i2 < r.bvals().len() implies r.bvals()[i2] == (
                    gb.bvals() + c.vals().subrange(a as int, e as int))[i2] by {
                        if i2 < old_count {
                            assert(offsets@[i2] == old_offsets[i2]);
                            assert(offsets@[i2 + 1] == old_offsets[i2 + 1]);
                            assert(old_offsets[i2 + 1] <= old_offsets.last());
                            assert(inner2.subrange(offsets@[i2] as int, offsets@[i2 + 1] as int)
                                =~= inner.subrange(
                                old_offsets[i2] as int,
                                old_offsets[i2 + 1] as int,
                            ));
                        } else {
                            let k = i2 - old_count;
                            assert(offsets@[i2] == base + (oac.offsets@[a + k] - o_a));
                            assert(offsets@[i2 + 1] == base + (oac.offsets@[a + k + 1] - o_a));
                            assert(oac.offsets@[a as int] <= oac.offsets@[a + k]);
                            assert(oac.offsets@[a + k] <= oac.offsets@[a + k + 1]);
                            assert(oac.offsets@[a + k + 1] <= oac.offsets@[e as int]);
                            assert(inner2.subrange(offsets@[i2] as int, offsets@[i2 + 1] as int)
                                =~= oac.values.vals().subrange(
                                oac.offsets@[a + k] as int,
                                oac.offsets@[a + k + 1] as int,
                            ));
                            assert(c.vals()[a + k] == Val::KvMap(
                                oac.values.vals().subrange(
                                    oac.offsets@[a + k] as int,
                                    oac.offsets@[a + k + 1] as int,
                                ),
                            ));
                        }
                    }
                    assert(r.bvals() =~= gb.bvals() + c.vals().subrange(a as int, e as int));
                }

                r
            }
            _ => vstd::pervasive::unreached(),
        },
        ColumnBuilder::Nullable(ncb) => match c {
            Column::Nullable(onc) => {
                let NullableColumnBuilder { builder, validity } = *ncb;
                proof {
                    builder.lemma_btyp_shape();
                    onc.column.lemma_typ_shape();
                }
                let builder2 = append_range_owned(builder, &onc.column, a, e);
                let validity2 = extend_range(validity, &onc.validity, a, e);
                proof {
                    builder2.lemma_btyp_variant();
                    gb->Nullable_0.builder.lemma_btyp_variant();
                }
                let r = ColumnBuilder::Nullable(
                    Box::new(NullableColumnBuilder { builder: builder2, validity: validity2 }),
                );
                proof {
                    assert forall|i: int| 0 <= i < r.bvals().len() implies r.bvals()[i] == (
                    gb.bvals() + c.vals().subrange(a as int, e as int))[i] by {
                        if i < gb.bvals().len() {
                        } else {
                            let k = i - gb.bvals().len();
                            assert(c.vals()[a + k] == (if onc.validity@[a + k] {
                                onc.column.vals()[a + k]
                            } else {
                                Val::Null
                            }));
                        }
                    }
                    assert(r.bvals() =~= gb.bvals() + c.vals().subrange(a as int, e as int));
                }
                r
            }
            _ => vstd::pervasive::unreached(),
        },
        ColumnBuilder::Tuple { fields, mut rows } => match c {
            Column::Tuple { fields: ofields, .. } => {
                let ghost len = rows@.len();
                proof {
                    lemma_bcols_wf_len(fields@, len);
                    crate::column::lemma_cols_wf_len(
                        ofields@,
                        c.vals().len() as nat,
                    );
                    lemma_bcols_typs(fields@);
                    crate::column::lemma_cols_typs(ofields@);
                    assert forall|j: int| 0 <= j < fields@.len() implies
                        #[trigger] fields@[j].btyp() == ofields@[j].typ() by {
                        assert(bcols_typs(fields@)[j] == fields@[j].btyp());
                        assert(cols_typs(ofields@)[j] == ofields@[j].typ());
                    }
                }
                let fields2 = append_fields(fields, ofields, a, e, Ghost(gb->Tuple_fields@));
                let mut k: usize = a;
                while k < e
                    invariant
                        a <= k <= e,
                        rows@.len() == len + (k - a),
                    decreases e - k,
                {
                    rows.push(true);
                    k = k + 1;
                }
                let r = ColumnBuilder::Tuple { fields: fields2, rows };

                proof {
                    let gf = gb->Tuple_fields@;
                    lemma_bcols_vals(fields2@);
                    lemma_bcols_vals(gf);
                    lemma_bcols_typs(fields2@);
                    lemma_bcols_typs(gf);
                    crate::column::lemma_cols_vals(ofields@);
                    assert(bcols_typs(fields2@) =~= bcols_typs(gf));
                    assert forall|j: int| 0 <= j < fields2@.len() implies
                        #[trigger] fields2@[j].bvals().len() == (len + (e - a)) by {
                        assert(fields2@[j].bvals() == gf[j].bvals() + ofields@[j].vals().subrange(
                            a as int,
                            e as int,
                        ));
                    }
                    lemma_bcols_wf_len_intro(fields2@, (len + (e - a)) as nat);
                    assert forall|i2: int| 0 <= i2 < r.bvals().len() implies r.bvals()[i2] == (
                    gb.bvals() + c.vals().subrange(a as int, e as int))[i2] by {
                        if i2 < len as int {
                            assert(Seq::new(
                                bcols_vals(fields2@).len(),
                                |j: int| bcols_vals(fields2@)[j][i2],
                            ) =~= Seq::new(bcols_vals(gf).len(), |j: int| bcols_vals(gf)[j][i2]));
                        } else {
                            let k = i2 - len as int;
                            assert(Seq::new(
                                bcols_vals(fields2@).len(),
                                |j: int| bcols_vals(fields2@)[j][i2],
                            ) =~= Seq::new(
                                cols_vals(ofields@).len(),
                                |j: int| cols_vals(ofields@)[j][a + k],
                            ));
                        }
                    }
                    assert(r.bvals() =~= gb.bvals() + c.vals().subrange(a as int, e as int));
                }

                r
            }
            _ => vstd::pervasive::unreached(),
        },
    }
}

impl ColumnBuilder {
    /// A builder's type constructor names its variant, for every variant.
    pub proof fn lemma_btyp_variant(&self)
        ensures
            (self.btyp() is Null) == (self is Null),
            (self.btyp() is EmptyArray) == (self is EmptyArray),
            (self.btyp() is EmptyMap) == (self is EmptyMap),
            (self.btyp() is Number) == (self is Number),
            (self.btyp() is Decimal) == (self is Decimal),
            (self.btyp() is Boolean) == (self is Boolean),
            (self.btyp() is String) == (self is String),
            (self.btyp() is Timestamp) == (self is Timestamp),
            (self.btyp() is Date) == (self is Date),
            (self.btyp() is Array) == (self is Array),
            (self.btyp() is KvMap) == (self is KvMap),
            (self.btyp() is Nullable) == (self is Nullable),
            (self.btyp() is Tuple) == (self is Tuple),
            (self.btyp() is Variant) == (self is Variant),
    {
        match self {
            ColumnBuilder::Null { .. } => {},
            ColumnBuilder::EmptyArray { .. } => {},
            ColumnBuilder::EmptyMap { .. } => {},
            ColumnBuilder::Number(_) => {},
            ColumnBuilder::Decimal(_) => {},
            ColumnBuilder::Boolean(_) => {},
            ColumnBuilder::String(_) => {},
            ColumnBuilder::Timestamp(_) => {},
            ColumnBuilder::Date(_) => {},
            ColumnBuilder::Array(_) => {},
            ColumnBuilder::KvMap(_) => {},
            ColumnBuilder::Nullable(_) => {},
            ColumnBuilder::Tuple { .. } => {},
            ColumnBuilder::Variant(_) => {},
        }
    }
}

/// Append rows `[a, e)` of each sibling column into the matching builder of
/// a drained vector of siblings.
fn append_fields(
    mut cs: Vec<ColumnBuilder>,
    os: &Vec<Column>,
    a: usize,
    e: usize,
    g: Ghost<Seq<ColumnBuilder>>,
) -> (r: Vec<ColumnBuilder>)
    requires
        g@ == cs@,
        g@.len() == os@.len(),
        a <= e,
        forall|i: int| 0 <= i < g@.len() ==> #[trigger] g@[i].bwf(),
        forall|i: int| 0 <= i < os@.len() ==> #[trigger] os@[i].wf(),
        forall|i: int| 0 <= i < g@.len() ==> #[trigger] g@[i].btyp() == os@[i].typ(),
        forall|i: int| 0 <= i < os@.len() ==> e <= #[trigger] os@[i].vals().len(),
    ensures
        r@.len() == g@.len(),
        forall|i: int| 0 <= i < g@.len() ==> #[trigger] r@[i].bwf(),
        forall|i: int| 0 <= i < g@.len() ==> #[trigger] r@[i].btyp() == g@[i].btyp(),
        forall|i: int|
            0 <= i < g@.len() ==> #[trigger] r@[i].bvals() == g@[i].bvals()
                + os@[i].vals().subrange(a as int, e as int),
    decreases g@,
{
    let ghost orig = g@;
    let mut out: Vec<ColumnBuilder> = Vec::new();
    let mut i: usize = 0;
    let n = cs.len();
    while i < n
        invariant
            g@ == orig,
            i <= n,
            n == orig.len(),
            orig.len() == os@.len(),
            a <= e,
            out@.len() == i as int,
            cs@ == orig.subrange(i as int, n as int),
            forall|j: int| 0 <= j < orig.len() ==> #[trigger] orig[j].bwf(),
            forall|j: int| 0 <= j < os@.len() ==> #[trigger] os@[j].wf(),
            forall|j: int| 0 <= j < orig.len() ==> #[trigger] orig[j].btyp() == os@[j].typ(),
            forall|j: int| 0 <= j < os@.len() ==> e <= #[trigger] os@[j].vals().len(),
            forall|j: int| 0 <= j < i as int ==> #[trigger] out@[j].bwf(),
            forall|j: int| 0 <= j < i as int ==> #[trigger] out@[j].btyp() == orig[j].btyp(),
            forall|j: int|
                0 <= j < i as int ==> #[trigger] out@[j].bvals() == orig[j].bvals()
                    + os@[j].vals().subrange(a as int, e as int),
        decreases n - i,
    {
        let b = cs.remove(0);
        proof {
            assert(b == orig[i as int]);
            assert(decreases_to!(orig => orig[i as int]));
            assert(cs@ =~= orig.subrange(i + 1, n as int));
        }
        out.push(append_range_owned(b, &os[i], a, e));
        i = i + 1;
    }
    out
}

/// Append one value to a builder, by value. The scalar's variant must match
/// the builder's, or be null when the builder is nullable.
fn push_owned(b: ColumnBuilder, item: ScalarRef) -> (r: ColumnBuilder)
    requires
        b.bwf(),
        item.wf(),
        val_fits(item, b.btyp()),
    ensures
        r.bwf(),
        r.btyp() == b.btyp(),
        r.bvals() == b.bvals().push(item.sval()),
    decreases b,
{
    let ghost gb = b;
    let ghost gitem = item;
    proof {
        gb.lemma_btyp_variant();
        if !(gb.btyp() is Nullable) {
            lemma_fits_base_shape(&item, gb.btyp());
        }
    }
    match b {
        ColumnBuilder::Null { mut rows } => match item {
            ScalarRef::Null => {
                rows.push(true);
                let r = ColumnBuilder::Null { rows };
                proof {
                    assert(r.bvals() =~= gb.bvals().push(gitem.sval()));
                }
                r
            }
            _ => vstd::pervasive::unreached(),
        },
        ColumnBuilder::EmptyArray { mut rows } => match item {
            ScalarRef::EmptyArray => {
                rows.push(true);
                let r = ColumnBuilder::EmptyArray { rows };
                proof {
                    assert(r.bvals() =~= gb.bvals().push(gitem.sval()));
                }
                r
            }
            _ => vstd::pervasive::unreached(),
        },
        ColumnBuilder::EmptyMap { mut rows } => match item {
            ScalarRef::EmptyMap => {
                rows.push(true);
                let r = ColumnBuilder::EmptyMap { rows };
                proof {
                    assert(r.bvals() =~= gb.bvals().push(gitem.sval()));
                }
                r
            }
            _ => vstd::pervasive::unreached(),
        },
        ColumnBuilder::Number(nc) => match item {
            ScalarRef::Number(v) => {
                let r = ColumnBuilder::Number(push_number(nc, v));
                proof {
                    assert(r.bvals() =~= gb.bvals().push(gitem.sval()));
                }
                r
            }
            _ => vstd::pervasive::unreached(),
        },
        ColumnBuilder::Decimal(dc) => match item {
            ScalarRef::Decimal(v) => {
                let r = ColumnBuilder::Decimal(push_decimal(dc, v));
                proof {
                    assert(r.bvals() =~= gb.bvals().push(gitem.sval()));
                }
                r
            }
            _ => vstd::pervasive::unreached(),
        },
        ColumnBuilder::Boolean(mut vec) => match item {
            ScalarRef::Boolean(x) => {
                vec.push(x);
                let r = ColumnBuilder::Boolean(vec);
                proof {
                    assert(r.bvals() =~= gb.bvals().push(gitem.sval()));
                }
                r
            }
            _ => vstd::pervasive::unreached(),
        },
        ColumnBuilder::String(sc) => match item {
            ScalarRef::String(bytes) => {
                let sc2 = commit_bytes(sc, &bytes);
                let r = ColumnBuilder::String(sc2);
                proof {
                    assert(r.bvals() =~= gb.bvals().push(gitem.sval()));
                }
                r
            }
            _ => vstd::pervasive::unreached(),
        },
        ColumnBuilder::Timestamp(mut vec) => match item {
            ScalarRef::Timestamp(x) => {
                vec.push(x);
                let r = ColumnBuilder::Timestamp(vec);
                proof {
                    assert(r.bvals() =~= gb.bvals().push(gitem.sval()));
                }
                r
            }
            _ => vstd::pervasive::unreached(),
        },
        ColumnBuilder::Date(mut vec) => match item {
            ScalarRef::Date(x) => {
                vec.push(x);
                let r = ColumnBuilder::Date(vec);
                proof {
                    assert(r.bvals() =~= gb.bvals().push(gitem.sval()));
                }
                r
            }
            _ => vstd::pervasive::unreached(),
        },
        ColumnBuilder::Array(acb) => match item {
            ScalarRef::Array(col) => {
                let ArrayColumnBuilder { builder, mut offsets } = *acb;
                let n = col.len();
                let ghost inner = gb->Array_0.builder.bvals();
                let builder2 = append_range_owned(builder, &col, 0, n);
                let end = builder2.len();
                offsets.push(end);
                let r = ColumnBuilder::Array(
                    Box::new(ArrayColumnBuilder { builder: builder2, offsets }),
                );
                proof {
                    assert(col.vals().subrange(0, col.vals().len() as int) =~= col.vals());
                    assert forall|i2: int| 0 <= i2 < r.bvals().len() implies r.bvals()[i2]
                        == gb.bvals().push(gitem.sval())[i2] by {
                        if i2 < gb.bvals().len() {
                            assert(builder2.bvals().subrange(
                                gb->Array_0.offsets@[i2] as int,
                                gb->Array_0.offsets@[i2 + 1] as int,
                            ) =~= inner.subrange(
                                gb->Array_0.offsets@[i2] as int,
                                gb->Array_0.offsets@[i2 + 1] as int,
                            ));
                        } else {
                            assert(builder2.bvals().subrange(
                                inner.len() as int,
                                builder2.bvals().len() as int,
                            ) =~= col.vals());
                        }
                    }
                    assert(r.bvals() =~= gb.bvals().push(gitem.sval()));
                }
                r
            }
            _ => vstd::pervasive::unreached(),
        },
        ColumnBuilder::KvMap(acb) => match item {
            ScalarRef::KvMap(col) => {
                let ArrayColumnBuilder { builder, mut offsets } = *acb;
                let n = col.len();
                let ghost inner = gb->KvMap_0.builder.bvals();
                let builder2 = append_range_owned(builder, &col, 0, n);
                let end = builder2.len();
                offsets.push(end);
                let r = ColumnBuilder::KvMap(
                    Box::new(ArrayColumnBuilder { builder: builder2, offsets }),
                );
                proof {
                    assert(col.vals().subrange(0, col.vals().len() as int) =~= col.vals());
                    assert forall|i2: int| 0 <= i2 < r.bvals().len() implies r.bvals()[i2]
                        == gb.bvals().push(gitem.sval())[i2] by {
                        if i2 < gb.bvals().len() {
                            assert(builder2.bvals().subrange(
                                gb->KvMap_0.offsets@[i2] as int,
                                gb->KvMap_0.offsets@[i2 + 1] as int,
                            ) =~= inner.subrange(
                                gb->KvMap_0.offsets@[i2] as int,
                                gb->KvMap_0.offsets@[i2 + 1] as int,
                            ));
                        } else {
                            assert(builder2.bvals().subrange(
                                inner.len() as int,
                                builder2.bvals().len() as int,
                            ) =~= col.vals());
                        }
                    }
                    assert(r.bvals() =~= gb.bvals().push(gitem.sval()));
                }
                r
            }
            _ => vstd::pervasive::unreached(),
        },
        ColumnBuilder::Nullable(ncb) => match item {
            ScalarRef::Null => {
                let NullableColumnBuilder { builder, mut validity } = *ncb;
                let builder2 = push_default_owned(builder);
                validity.push(false);
                proof {
                    builder2.lemma_btyp_variant();
                    gb->Nullable_0.builder.lemma_btyp_variant();
                }
                let r = ColumnBuilder::Nullable(
                    Box::new(NullableColumnBuilder { builder: builder2, validity }),
                );
                proof {
                    assert(r.bvals() =~= gb.bvals().push(gitem.sval()));
                }
                r
            }
            item2 => {
                let NullableColumnBuilder { builder, mut validity } = *ncb;
                proof {
                    gb->Nullable_0.builder.lemma_btyp_variant();
                    lemma_fits_base_shape(&item2, gb->Nullable_0.builder.btyp());
                }
                let builder2 = push_owned(builder, item2);
                validity.push(true);
                proof {
                    builder2.lemma_btyp_variant();
                    gb->Nullable_0.builder.lemma_btyp_variant();
                }
                let r = ColumnBuilder::Nullable(
                    Box::new(NullableColumnBuilder { builder: builder2, validity }),
                );
                proof {
                    assert(r.bvals() =~= gb.bvals().push(gitem.sval()));
                }
                r
            }
        },
        ColumnBuilder::Tuple { fields, mut rows } => match item {
            ScalarRef::Tuple(items) => {
                let ghost len = rows@.len();
                proof {
                    lemma_bcols_wf_len(fields@, len);
                    lemma_bcols_typs(fields@);
                    lemma_fits_seq(gitem->Tuple_0@, bcols_typs(gb->Tuple_fields@));
                    crate::scalar::lemma_refs_wf(gitem->Tuple_0@);
                    assert forall|j: int| 0 <= j < fields@.len() implies #[trigger] val_fits(
                        items@[j],
                        fields@[j].btyp(),
                    ) by {
                        assert(val_fits(gitem->Tuple_0@[j], bcols_typs(gb->Tuple_fields@)[j]));
                        assert(bcols_typs(gb->Tuple_fields@)[j] == fields@[j].btyp());
                    }
                }
                let fields2 = push_fields(fields, items, Ghost(gb->Tuple_fields@), Ghost(gitem->Tuple_0@));
                rows.push(true);
                let r = ColumnBuilder::Tuple { fields: fields2, rows };
                proof {
                    let gf = gb->Tuple_fields@;
                    let gi = gitem->Tuple_0@;
                    lemma_bcols_vals(fields2@);
                    lemma_bcols_vals(gf);
                    lemma_bcols_typs(fields2@);
                    crate::scalar::lemma_rvals(gi);
                    assert(bcols_typs(fields2@) =~= bcols_typs(gf));
                    assert forall|j: int| 0 <= j < fields2@.len() implies
                        #[trigger] fields2@[j].bvals().len() == (len + 1) as nat by {
                        assert(fields2@[j].bvals() == gf[j].bvals().push(gi[j].sval()));
                    }
                    lemma_bcols_wf_len_intro(fields2@, (len + 1) as nat);
                    assert forall|i2: int| 0 <= i2 < r.bvals().len() implies r.bvals()[i2]
                        == gb.bvals().push(gitem.sval())[i2] by {
                        if i2 < len as int {
                            assert(Seq::new(
                                bcols_vals(fields2@).len(),
                                |j: int| bcols_vals(fields2@)[j][i2],
                            ) =~= Seq::new(bcols_vals(gf).len(), |j: int| bcols_vals(gf)[j][i2]));
                        } else {
                            assert(Seq::new(
                                bcols_vals(fields2@).len(),
                                |j: int| bcols_vals(fields2@)[j][i2],
                            ) =~= crate::scalar::rvals(gi));
                        }
                    }
                    assert(r.bvals() =~= gb.bvals().push(gitem.sval()));
                }
                r
            }
            _ => vstd::pervasive::unreached(),
        },
        ColumnBuilder::Variant(sc) => match item {
            ScalarRef::Variant(bytes) => {
                let sc2 = commit_bytes(sc, &bytes);
                let r = ColumnBuilder::Variant(sc2);
                proof {
                    assert(r.bvals() =~= gb.bvals().push(gitem.sval()));
                    let old_sc = gb->Variant_0;
                    assert forall|i: int| 0 <= i < sc2.row_count() implies crate::ord::jsonb_wf(
                        #[trigger] sc2.row(i),
                    ) by {
                        if i < old_sc.row_count() {
                            assert(sc2.row(i) == old_sc.row(i));
                            assert(crate::ord::jsonb_wf(old_sc.row(i)));
                        } else {
                            assert(sc2.row(i) == bytes@);
                        }
                    }
                }
                r
            }
            _ => vstd::pervasive::unreached(),
        },
    }
}

/// Push each item into the matching builder of a drained vector of siblings.
fn push_fields(
    mut cs: Vec<ColumnBuilder>,
    mut items: Vec<ScalarRef>,
    g: Ghost<Seq<ColumnBuilder>>,
    gi: Ghost<Seq<ScalarRef>>,
) -> (r: Vec<ColumnBuilder>)
    requires
        g@ == cs@,
        gi@ == items@,
        g@.len() == items@.len(),
        forall|i: int| 0 <= i < g@.len() ==> #[trigger] g@[i].bwf(),
        forall|i: int| 0 <= i < items@.len() ==> #[trigger] items@[i].wf(),
        forall|i: int| 0 <= i < g@.len() ==> #[trigger] val_fits(items@[i], g@[i].btyp()),
    ensures
        r@.len() == g@.len(),
        forall|i: int| 0 <= i < g@.len() ==> #[trigger] r@[i].bwf(),
        forall|i: int| 0 <= i < g@.len() ==> #[trigger] r@[i].btyp() == g@[i].btyp(),
        forall|i: int|
            0 <= i < g@.len() ==> #[trigger] r@[i].bvals() == g@[i].bvals().push(
                gi@[i].sval(),
            ),
    decreases g@,
{
    let ghost orig = g@;
    let ghost oitems = gi@;
    let mut out: Vec<ColumnBuilder> = Vec::new();
    let mut i: usize = 0;
    let n = cs.len();
    while i < n
        invariant
            g@ == orig,
            gi@ == oitems,
            i <= n,
            n == orig.len(),
            orig.len() == oitems.len(),
            out@.len() == i as int,
            cs@ == orig.subrange(i as int, n as int),
            items@ == oitems.subrange(i as int, n as int),
            forall|j: int| 0 <= j < orig.len() ==> #[trigger] orig[j].bwf(),
            forall|j: int| 0 <= j < oitems.len() ==> #[trigger] oitems[j].wf(),
            forall|j: int| 0 <= j < orig.len() ==> #[trigger] val_fits(oitems[j], orig[j].btyp()),
            forall|j: int| 0 <= j < i as int ==> #[trigger] out@[j].bwf(),
            forall|j: int| 0 <= j < i as int ==> #[trigger] out@[j].btyp() == orig[j].btyp(),
            forall|j: int|
                0 <= j < i as int ==> #[trigger] out@[j].bvals() == orig[j].bvals().push(
                    oitems[j].sval(),
                ),
        decreases n - i,
    {
        let b = cs.remove(0);
        let it = items.remove(0);
        proof {
            assert(b == orig[i as int]);
            assert(it == oitems[i as int]);
            assert(decreases_to!(orig => orig[i as int]));
            assert(cs@ =~= orig.subrange(i + 1, n as int));
            assert(items@ =~= oitems.subrange(i + 1, n as int));
        }
        out.push(push_owned(b, it));
        i = i + 1;
    }
    out
}

/// A scalar view's inferred type constructor names its variant.
pub proof fn lemma_rtyp_variant(s: &ScalarRef)
    ensures
        (s.rtyp() is Null) == (s is Null),
        (s.rtyp() is EmptyArray) == (s is EmptyArray),
        (s.rtyp() is EmptyMap) == (s is EmptyMap),
        (s.rtyp() is Number) == (s is Number),
        (s.rtyp() is Decimal) == (s is Decimal),
        (s.rtyp() is Boolean) == (s is Boolean),
        (s.rtyp() is String) == (s is String),
        (s.rtyp() is Timestamp) == (s is Timestamp),
        (s.rtyp() is Date) == (s is Date),
        (s.rtyp() is Array) == (s is Array),
        (s.rtyp() is KvMap) == (s is KvMap),
        (s.rtyp() is Tuple) == (s is Tuple),
        (s.rtyp() is Variant) == (s is Variant),
{
    match s {
        ScalarRef::Null => {},
        ScalarRef::EmptyArray => {},
        ScalarRef::EmptyMap => {},
        ScalarRef::Number(_) => {},
        ScalarRef::Decimal(_) => {},
        ScalarRef::Boolean(_) => {},
        ScalarRef::String(_) => {},
        ScalarRef::Timestamp(_) => {},
        ScalarRef::Date(_) => {},
        ScalarRef::Array(_) => {},
        ScalarRef::KvMap(_) => {},
        ScalarRef::Tuple(_) => {},
        ScalarRef::Variant(_) => {},
    }
}

/// Whether a value fits a builder type depends only on the value's inferred
/// type.
pub proof fn lemma_val_fits_same(s1: &ScalarRef, s2: &ScalarRef, t: TypeV)
    requires
        s1.rtyp() == s2.rtyp(),
    ensures
        val_fits(*s1, t) == val_fits(*s2, t),
    decreases s1, 1int,
{
    lemma_rtyp_variant(s1);
    lemma_rtyp_variant(s2);
    let tb = if t is Nullable {
        *t->Nullable_0
    } else {
        t
    };
    match s1 {
        ScalarRef::Null => {},
        ScalarRef::EmptyArray => {},
        ScalarRef::EmptyMap => {},
        ScalarRef::Number(_) => {},
        ScalarRef::Decimal(_) => {},
        ScalarRef::Boolean(_) => {},
        ScalarRef::String(_) => {},
        ScalarRef::Timestamp(_) => {},
        ScalarRef::Date(_) => {},
        ScalarRef::Array(_) => {},
        ScalarRef::KvMap(_) => {},
        ScalarRef::Tuple(ss1) => {
            if tb is Tuple {
                let ts = tb->Tuple_0;
                crate::scalar::lemma_rtyps(ss1@);
                crate::scalar::lemma_rtyps(s2->Tuple_0@);
                assert(crate::scalar::rtyps(ss1@) == crate::scalar::rtyps(s2->Tuple_0@));
                if ss1@.len() == ts.len() && s2->Tuple_0@.len() == ts.len() {
                    lemma_fits_seq_same(ss1@, s2->Tuple_0@, ts);
                }
            }
        }
        ScalarRef::Variant(_) => {},
    }
}

/// Elementwise version of `lemma_val_fits_same`.
pub proof fn lemma_fits_seq_same(ss1: Seq<ScalarRef>, ss2: Seq<ScalarRef>, ts: Seq<TypeV>)
    requires
        ss1.len() == ss2.len(),
        crate::scalar::rtyps(ss1) == crate::scalar::rtyps(ss2),
    ensures
        fits_seq(ss1, ts) == fits_seq(ss2, ts),
    decreases ss1, 0int,
{
    if ss1.len() > 0 {
        crate::scalar::lemma_rtyps(ss1);
        crate::scalar::lemma_rtyps(ss2);
        crate::scalar::lemma_rtyps(ss1.drop_last());
        crate::scalar::lemma_rtyps(ss2.drop_last());
        assert forall|i: int| 0 <= i < ss1.len() - 1 implies crate::scalar::rtyps(
            ss1.drop_last(),
        )[i] == crate::scalar::rtyps(ss2.drop_last())[i] by {
            assert(crate::scalar::rtyps(ss1.drop_last())[i] == ss1.drop_last()[i].rtyp());
            assert(crate::scalar::rtyps(ss2.drop_last())[i] == ss2.drop_last()[i].rtyp());
            assert(ss1.drop_last()[i] == ss1[i]);
            assert(ss2.drop_last()[i] == ss2[i]);
            assert(crate::scalar::rtyps(ss1)[i] == ss1[i].rtyp());
            assert(crate::scalar::rtyps(ss2)[i] == ss2[i].rtyp());
        }
        assert(crate::scalar::rtyps(ss1.drop_last()) =~= crate::scalar::rtyps(ss2.drop_last()));
        lemma_fits_seq_same(ss1.drop_last(), ss2.drop_last(), ts.drop_last());
        assert(ss1.last().rtyp() == crate::scalar::rtyps(ss1)[ss1.len() - 1]);
        assert(ss2.last().rtyp() == crate::scalar::rtyps(ss2)[ss2.len() - 1]);
        assert(decreases_to!(ss1 => ss1.last()));
        lemma_val_fits_same(&ss1.last(), &ss2.last(), ts[ss1.len() - 1]);
    }
}

impl ColumnBuilder {
    /// Append one value. The scalar's variant must match the builder's, or
    /// be null when the builder is nullable.
    pub fn push(&mut self, item: ScalarRef)
        requires
            old(self).bwf(),
            item.wf(),
            val_fits(item, old(self).btyp()),
        ensures
            final(self).bwf(),
            final(self).btyp() == old(self).btyp(),
            final(self).bvals() == old(self).bvals().push(item.sval()),
    {
        let mut tmp = ColumnBuilder::Null { rows: Vec::new() };
        core::mem::swap(self, &mut tmp);
        let out = push_owned(tmp, item);
        *self = out;
    }

    /// Append the builder type's zero-equivalent row.
    pub fn push_default(&mut self)
        requires
            old(self).bwf(),
        ensures
            final(self).bwf(),
            final(self).btyp() == old(self).btyp(),
            final(self).bvals() == old(self).bvals().push(default_val(old(self).btyp())),
    {
        let mut tmp = ColumnBuilder::Null { rows: Vec::new() };
        core::mem::swap(self, &mut tmp);
        let out = push_default_owned(tmp);
        *self = out;
    }

    /// Bulk-append another column's full contents. The column's type must
    /// match the builder's.
    pub fn append_column(&mut self, other: &Column)
        requires
            old(self).bwf(),
            other.wf(),
            old(self).btyp() == other.typ(),
        ensures
            final(self).bwf(),
            final(self).btyp() == old(self).btyp(),
            final(self).bvals() == old(self).bvals() + other.vals(),
    {
        let mut tmp = ColumnBuilder::Null { rows: Vec::new() };
        core::mem::swap(self, &mut tmp);
        let n = other.len();
        let out = append_range_owned(tmp, other, 0, n);
        proof {
            assert(other.vals().subrange(0, other.vals().len() as int) =~= other.vals());
        }
        *self = out;
    }

    /// A fresh empty builder for the given logical type, with storage
    /// preallocated for about `capacity` rows. Nested builders start empty.
    pub fn with_capacity(ty: &DataType, capacity: usize) -> (r: ColumnBuilder)
        requires
            ty@.concrete(),
            ty@.wf_type(),
        ensures
            r.bwf(),
            r.btyp() == ty@,
            r.bvals().len() == 0,
        decreases ty,
    {
        match ty {
            DataType::Null => ColumnBuilder::Null { rows: Vec::new() },
            DataType::EmptyArray => ColumnBuilder::EmptyArray { rows: Vec::new() },
            DataType::EmptyMap => ColumnBuilder::EmptyMap { rows: Vec::new() },
            DataType::Boolean => ColumnBuilder::Boolean(Vec::with_capacity(capacity)),
            DataType::String => ColumnBuilder::String(empty_string_builder()),
            DataType::Number(k) => ColumnBuilder::Number(
                match k {
                    NumberDataType::UInt8 => NumberColumn::UInt8(Vec::with_capacity(capacity)),
                    NumberDataType::UInt16 => NumberColumn::UInt16(Vec::with_capacity(capacity)),
                    NumberDataType::UInt32 => NumberColumn::UInt32(Vec::with_capacity(capacity)),
                    NumberDataType::UInt64 => NumberColumn::UInt64(Vec::with_capacity(capacity)),
                    NumberDataType::Int8 => NumberColumn::Int8(Vec::with_capacity(capacity)),
                    NumberDataType::Int16 => NumberColumn::Int16(Vec::with_capacity(capacity)),
                    NumberDataType::Int32 => NumberColumn::Int32(Vec::with_capacity(capacity)),
                    NumberDataType::Int64 => NumberColumn::Int64(Vec::with_capacity(capacity)),
                },
            ),
            DataType::Decimal(d) => ColumnBuilder::Decimal(
                match d {
                    DecimalDataType::Decimal128(size) => DecimalColumn::Decimal128(
                        Vec::with_capacity(capacity),
                        *size,
                    ),
                    DecimalDataType::Decimal256(size) => DecimalColumn::Decimal256(
                        Vec::with_capacity(capacity),
                        *size,
                    ),
                },
            ),
            DataType::Timestamp => ColumnBuilder::Timestamp(Vec::with_capacity(capacity)),
            DataType::Date => ColumnBuilder::Date(Vec::with_capacity(capacity)),
            DataType::Nullable(t) => {
                let inner = ColumnBuilder::with_capacity(t, capacity);
                proof {
                    inner.lemma_btyp_variant();
                }
                ColumnBuilder::Nullable(
                    Box::new(NullableColumnBuilder { builder: inner, validity: Vec::new() }),
                )
            }
            DataType::Array(t) => {
                let inner = ColumnBuilder::with_capacity(t, 0);
                let mut offsets: Vec<usize> = Vec::new();
                offsets.push(0);
                ColumnBuilder::Array(Box::new(ArrayColumnBuilder { builder: inner, offsets }))
            }
            DataType::KvMap(t) => {
                let inner = ColumnBuilder::with_capacity(t, 0);
                let mut offsets: Vec<usize> = Vec::new();
                offsets.push(0);
                ColumnBuilder::KvMap(Box::new(ArrayColumnBuilder { builder: inner, offsets }))
            }
            DataType::Tuple(ts) => {
                proof {
                    crate::types::lemma_tyv_seq(ts@);
                    crate::types::lemma_tys_concrete(ty@->Tuple_0);
                    crate::types::lemma_tys_wf(ty@->Tuple_0);
                    assert forall|j: int| 0 <= j < ts@.len() implies
                        (#[trigger] ts@[j].tyv()).concrete() && ts@[j].tyv().wf_type() by {
                        assert(crate::types::tyv_seq(ts@)[j] == ts@[j].tyv());
                        assert(crate::types::tyv_seq(ts@)[j].concrete());
                        assert(crate::types::tyv_seq(ts@)[j].wf_type());
                    }
                }
                let fields = builders_of(ts, capacity);
                let r = ColumnBuilder::Tuple { fields, rows: Vec::new() };
                proof {
                    lemma_bcols_wf_len_intro(fields@, 0);
                    lemma_bcols_typs(fields@);
                    crate::types::lemma_tyv_seq(ts@);
                    assert(bcols_typs(fields@) =~= crate::types::tyv_seq(ts@));
                    assert(r.bvals() =~= Seq::<Val>::empty());
                }
                r
            }
            DataType::Variant => ColumnBuilder::Variant(empty_string_builder()),
            DataType::Generic(_) => vstd::pervasive::unreached(),
        }
    }

    /// A builder preloaded with the full contents of a column, ready for
    /// further appends.
    pub fn from_column(col: Column) -> (r: Self)
        requires
            col.wf(),
        ensures
            r.bwf(),
            r.btyp() == col.typ(),
            r.bvals() == col.vals(),
    {
        proof {
            col.lemma_typ_wf();
        }
        let n = col.len();
        let ty = col.data_type();
        let mut b = ColumnBuilder::with_capacity(&ty, n);
        b.append_column(&col);
        proof {
            assert(Seq::<Val>::empty() + col.vals() =~= col.vals());
        }
        b
    }

    /// A builder holding `n` repeats of one scalar, of the declared type.
    /// A null scalar against a nullable type yields `n` masked rows.
    pub fn repeat(scalar: &ScalarRef, n: usize, data_type: &DataType) -> (r: ColumnBuilder)
        requires
            scalar.wf(),
            data_type@.concrete(),
            data_type@.wf_type(),
            val_fits(*scalar, data_type@),
        ensures
            r.bwf(),
            r.btyp() == data_type@,
            r.bvals() == Seq::new(n as nat, |i: int| scalar.sval()),
    {
        let mut b = ColumnBuilder::with_capacity(data_type, n);
        let mut k: usize = 0;
        while k < n
            invariant
                k <= n,
                scalar.wf(),
                val_fits(*scalar, data_type@),
                b.bwf(),
                b.btyp() == data_type@,
                b.bvals() == Seq::new(k as nat, |i: int| scalar.sval()),
            decreases n - k,
        {
            let item = scalar.clone();
            proof {
                lemma_val_fits_same(&item, scalar, b.btyp());
            }
            b.push(item);
            proof {
                assert(b.bvals() =~= Seq::new((k + 1) as nat, |i: int| scalar.sval()));
            }
            k = k + 1;
        }
        b
    }

    /// Finalize a single accumulated row into the equivalent scalar; a
    /// masked nullable row becomes the null scalar.
    pub fn build_scalar(self) -> (r: Scalar)
        requires
            self.bwf(),
            self.bvals().len() == 1,
        ensures
            r.sval() == self.bvals()[0],
            r.wf(),
    {
        let col = self.build();
        let s = col.index_unchecked(0);
        s.to_owned()
    }
}

/// An empty growable string buffer.
fn empty_string_builder() -> (r: StringColumn)
    ensures
        r.wf(),
        r.offsets@[0] == 0,
        r.offsets@.last() == r.data@.len(),
        r.row_count() == 0,
{
    let mut offsets: Vec<usize> = Vec::new();
    offsets.push(0);
    StringColumn { data: Vec::new(), offsets }
}

/// Fresh empty builders for each type in a vector of field types.
fn builders_of(ts: &Vec<DataType>, capacity: usize) -> (r: Vec<ColumnBuilder>)
    requires
        forall|j: int| 0 <= j < ts@.len() ==> (#[trigger] ts@[j].tyv()).concrete(),
        forall|j: int| 0 <= j < ts@.len() ==> (#[trigger] ts@[j].tyv()).wf_type(),
    ensures
        r@.len() == ts@.len(),
        forall|j: int| 0 <= j < ts@.len() ==> #[trigger] r@[j].bwf(),
        forall|j: int| 0 <= j < ts@.len() ==> #[trigger] r@[j].bvals().len() == 0,
        forall|j: int| 0 <= j < ts@.len() ==> #[trigger] r@[j].btyp() == ts@[j].tyv(),
    decreases ts@,
{
    let mut fields: Vec<ColumnBuilder> = Vec::new();
    let mut i: usize = 0;
    while i < ts.len()
        invariant
            i <= ts@.len(),
            fields@.len() == i as int,
            forall|j: int| 0 <= j < ts@.len() ==> (#[trigger] ts@[j].tyv()).concrete(),
            forall|j: int| 0 <= j < ts@.len() ==> (#[trigger] ts@[j].tyv()).wf_type(),
            forall|j: int| 0 <= j < i as int ==> #[trigger] fields@[j].bwf(),
            forall|j: int| 0 <= j < i as int ==> #[trigger] fields@[j].bvals().len() == 0,
            forall|j: int| 0 <= j < i as int ==> #[trigger] fields@[j].btyp() == ts@[j].tyv(),
        decreases ts@.len() - i,
    {
        proof {
            assert(decreases_to!(ts@ => ts@[i as int]));
        }
        fields.push(ColumnBuilder::with_capacity(&ts[i], capacity));
        i = i + 1;
    }
    fields
}

/// Whether a value of the inferred type `st` may be pushed into a builder
/// of type `t`: the types agree, or `st` is null and `t` is nullable.
pub open spec fn ty_fits(st: TypeV, t: TypeV) -> bool
    decreases st, 1int,
{
    if t is Nullable {
        st is Null || ty_fits_base(st, *t->Nullable_0)
    } else {
        ty_fits_base(st, t)
    }
}

/// Type agreement between an inferred value type and a builder type.
pub open spec fn ty_fits_base(st: TypeV, t: TypeV) -> bool
    decreases st, 0int,
{
    match st {
        TypeV::Tuple(sts) => t matches TypeV::Tuple(ts) && sts.len() == ts.len() && tys_fits(
            sts,
            ts,
        ),
        _ => t == st,
    }
}

/// Elementwise `ty_fits` between inferred field types and builder field
/// types.
pub open spec fn tys_fits(sts: Seq<TypeV>, ts: Seq<TypeV>) -> bool
    decreases sts, 2int,
{
    sts.len() == 0 || (tys_fits(sts.drop_last(), ts.drop_last()) && ty_fits(
        sts.last(),
        ts[sts.len() - 1],
    ))
}

/// A value fits a type exactly when its inferred type fits it.
pub proof fn lemma_val_fits_ty(s: &ScalarRef, t: TypeV)
    ensures
        val_fits(*s, t) == ty_fits(s.rtyp(), t),
    decreases s, 1int,
{
    lemma_rtyp_variant(s);
    let tb = if t is Nullable {
        *t->Nullable_0
    } else {
        t
    };
    match s {
        ScalarRef::Null => {},
        ScalarRef::EmptyArray => {},
        ScalarRef::EmptyMap => {},
        ScalarRef::Number(_) => {},
        ScalarRef::Decimal(_) => {},
        ScalarRef::Boolean(_) => {},
        ScalarRef::String(_) => {},
        ScalarRef::Timestamp(_) => {},
        ScalarRef::Date(_) => {},
        ScalarRef::Array(_) => {},
        ScalarRef::KvMap(_) => {},
        ScalarRef::Tuple(ss) => {
            if tb is Tuple {
                let ts = tb->Tuple_0;
                lemma_fits_seq_ty(ss@, ts);
                crate::scalar::lemma_rtyps(ss@);
            }
        }
        ScalarRef::Variant(_) => {},
    }
}

/// Elementwise version of `lemma_val_fits_ty`.
pub proof fn lemma_fits_seq_ty(ss: Seq<ScalarRef>, ts: Seq<TypeV>)
    ensures
        fits_seq(ss, ts) == tys_fits(crate::scalar::rtyps(ss), ts),
    decreases ss, 0int,
{
    crate::scalar::lemma_rtyps(ss);
    if ss.len() > 0 {
        lemma_fits_seq_ty(ss.drop_last(), ts.drop_last());
        crate::scalar::lemma_rtyps(ss.drop_last());
        assert(crate::scalar::rtyps(ss).drop_last() =~= crate::scalar::rtyps(ss.drop_last()));
        assert(decreases_to!(ss => ss.last()));
        lemma_val_fits_ty(&ss.last(), ts[ss.len() - 1]);
        assert(crate::scalar::rtyps(ss).last() == ss.last().rtyp());
    }
}

/// Whether a value of inferred type `st` may be pushed into a builder of
/// type `t`.
pub fn ty_fits_check(st: &DataType, t: &DataType) -> (r: bool)
    ensures
        r == ty_fits(st@, t@),
    decreases st, 2int,
{
    match t {
        DataType::Nullable(t1) => match st {
            DataType::Null => true,
            _ => ty_fits_base_check(st, t1),
        },
        _ => ty_fits_base_check(st, t),
    }
}

/// Type agreement between an inferred value type and a builder type.
fn ty_fits_base_check(st: &DataType, t: &DataType) -> (r: bool)
    ensures
        r == ty_fits_base(st@, t@),
    decreases st, 1int,
{
    match st {
        DataType::Tuple(sts) => match t {
            DataType::Tuple(ts) => {
                proof {
                    crate::types::lemma_tyv_seq(sts@);
                    crate::types::lemma_tyv_seq(ts@);
                }
                if sts.len() != ts.len() {
                    return false;
                }
                tys_fits_check(sts, ts)
            }
            _ => {
                proof {
                    assert(!(t@ is Tuple));
                }
                false
            }
        },
        _ => crate::types::ty_eq(st, t),
    }
}

/// Elementwise `ty_fits` between inferred field types and declared field
/// types of equal count.
#[verifier::loop_isolation(false)]
fn tys_fits_check(sts: &Vec<DataType>, ts: &Vec<DataType>) -> (r: bool)
    requires
        sts@.len() == ts@.len(),
    ensures
        r == tys_fits(crate::types::tyv_seq(sts@), crate::types::tyv_seq(ts@)),
    decreases sts@, 0int,
{
    let ghost g1 = crate::types::tyv_seq(sts@);
    let ghost g2 = crate::types::tyv_seq(ts@);
    proof {
        crate::types::lemma_tyv_seq(sts@);
        crate::types::lemma_tyv_seq(ts@);
    }
    let n = sts.len();
    let mut ok = true;
    let mut i: usize = 0;
    while i < n
        invariant
            i <= n,
            n == sts@.len(),
            ok == tys_fits(g1.subrange(0, i as int), g2.subrange(0, i as int)),
            ok ==> forall|j: int| 0 <= j < i as int ==> #[trigger] ty_fits(g1[j], g2[j]),
        decreases n - i,
    {
        if ok {
            proof {
                assert(decreases_to!(sts@ => sts@[i as int]));
            }
            let fits = ty_fits_check(&sts[i], &ts[i]);
            proof {
                assert(g1.subrange(0, i + 1).drop_last() =~= g1.subrange(0, i as int));
                assert(g2.subrange(0, i + 1).drop_last() =~= g2.subrange(0, i as int));
                assert(g1.subrange(0, i + 1).last() == g1[i as int]);
                assert(g2.subrange(0, i + 1)[g1.subrange(0, i + 1).len() - 1] == g2[i as int]);
            }
            if !fits {
                ok = false;
                proof {
                    assert(!tys_fits(g1.subrange(0, i + 1), g2.subrange(0, i + 1)));
                }
            }
        } else {
            proof {
                assert(g1.subrange(0, i + 1).drop_last() =~= g1.subrange(0, i as int));
                assert(g2.subrange(0, i + 1).drop_last() =~= g2.subrange(0, i as int));
                assert(!tys_fits(g1.subrange(0, i + 1), g2.subrange(0, i + 1)));
            }
        }
        i = i + 1;
    }
    proof {
        assert(g1.subrange(0, g1.len() as int) =~= g1);
        assert(g2.subrange(0, g2.len() as int) =~= g2);
    }
    ok
}

} // verus!
