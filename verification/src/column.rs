//! Immutable vectors of logical values: `Column` and its variant-specific
//! bulk encodings.

use vstd::prelude::*;

use crate::scalar::DecimalScalar;
use crate::scalar::I256;
use crate::scalar::NumberScalar;
use crate::scalar::ScalarRef;
use crate::scalar::Val;
use crate::types::DataType;
use crate::types::DecimalDataType;
use crate::types::DecimalSize;
use crate::types::NumberDataType;
use crate::types::TypeV;

verus! {

/// Shared byte buffer plus an offsets buffer delimiting each row's range.
/// Offsets need not start at zero: a slice keeps the data buffer whole.
#[derive(Debug)]
pub struct StringColumn {
    pub data: Vec<u8>,
    pub offsets: Vec<usize>,
}

/// One level of nesting: a flattened inner column plus row offsets into it.
#[derive(Debug)]
pub struct ArrayColumn {
    pub values: Column,
    pub offsets: Vec<usize>,
}

/// An inner column plus a validity bitmap of equal length; an unset bit
/// masks the row as null.
#[derive(Debug)]
pub struct NullableColumn {
    pub column: Column,
    pub validity: Vec<bool>,
}

/// Flat buffer of numbers, one variant per physical kind.
#[derive(Debug)]
pub enum NumberColumn {
    UInt8(Vec<u8>),
    UInt16(Vec<u16>),
    UInt32(Vec<u32>),
    UInt64(Vec<u64>),
    Int8(Vec<i8>),
    Int16(Vec<i16>),
    Int32(Vec<i32>),
    Int64(Vec<i64>),
}

/// Flat buffer of decimals with their shared precision and scale.
#[derive(Debug)]
pub enum DecimalColumn {
    Decimal128(Vec<i128>, DecimalSize),
    Decimal256(Vec<I256>, DecimalSize),
}

/// An immutable vector of values of one logical type, in a variant-specific
/// bulk encoding.
#[derive(Debug)]
pub enum Column {
    Null { len: usize },
    EmptyArray { len: usize },
    EmptyMap { len: usize },
    Number(NumberColumn),
    Decimal(DecimalColumn),
    Boolean(Vec<bool>),
    String(StringColumn),
    Timestamp(Vec<i64>),
    Date(Vec<i32>),
    Array(Box<ArrayColumn>),
    KvMap(Box<ArrayColumn>),
    Nullable(Box<NullableColumn>),
    Tuple { fields: Vec<Column>, len: usize },
    Variant(StringColumn),
}

impl StringColumn {
    /// Number of rows delimited by the offsets buffer.
    pub open spec fn row_count(&self) -> nat {
        (self.offsets@.len() - 1) as nat
    }

    /// The byte range of one row.
    pub open spec fn row(&self, i: int) -> Seq<u8> {
        self.data@.subrange(self.offsets@[i] as int, self.offsets@[i + 1] as int)
    }

    /// All rows as byte sequences.
    pub open spec fn rows(&self) -> Seq<Seq<u8>> {
        Seq::new(self.row_count(), |i: int| self.row(i))
    }

    /// Offsets are present, non-decreasing, and bounded by the data buffer.
    pub open spec fn wf(&self) -> bool {
        &&& self.offsets@.len() >= 1
        &&& forall|i: int, j: int|
            0 <= i <= j < self.offsets@.len() ==> self.offsets@[i] <= self.offsets@[j]
        &&& self.offsets@.last() <= self.data@.len()
    }
}

impl NumberColumn {
    /// The physical kind of this buffer.
    pub open spec fn kind(&self) -> NumberDataType {
        match self {
            NumberColumn::UInt8(_) => NumberDataType::UInt8,
            NumberColumn::UInt16(_) => NumberDataType::UInt16,
            NumberColumn::UInt32(_) => NumberDataType::UInt32,
            NumberColumn::UInt64(_) => NumberDataType::UInt64,
            NumberColumn::Int8(_) => NumberDataType::Int8,
            NumberColumn::Int16(_) => NumberDataType::Int16,
            NumberColumn::Int32(_) => NumberDataType::Int32,
            NumberColumn::Int64(_) => NumberDataType::Int64,
        }
    }

    /// The rows of this buffer as ghost values.
    pub open spec fn vals(&self) -> Seq<Val> {
        match self {
            NumberColumn::UInt8(v) => Seq::new(
                v@.len(),
                |i: int| Val::Number(NumberScalar::UInt8(v@[i])),
            ),
            NumberColumn::UInt16(v) => Seq::new(
                v@.len(),
                |i: int| Val::Number(NumberScalar::UInt16(v@[i])),
            ),
            NumberColumn::UInt32(v) => Seq::new(
                v@.len(),
                |i: int| Val::Number(NumberScalar::UInt32(v@[i])),
            ),
            NumberColumn::UInt64(v) => Seq::new(
                v@.len(),
                |i: int| Val::Number(NumberScalar::UInt64(v@[i])),
            ),
            NumberColumn::Int8(v) => Seq::new(
                v@.len(),
                |i: int| Val::Number(NumberScalar::Int8(v@[i])),
            ),
            NumberColumn::Int16(v) => Seq::new(
                v@.len(),
                |i: int| Val::Number(NumberScalar::Int16(v@[i])),
            ),
            NumberColumn::Int32(v) => Seq::new(
                v@.len(),
                |i: int| Val::Number(NumberScalar::Int32(v@[i])),
            ),
            NumberColumn::Int64(v) => Seq::new(
                v@.len(),
                |i: int| Val::Number(NumberScalar::Int64(v@[i])),
            ),
        }
    }

    /// Number of rows.
    pub fn len(&self) -> (r: usize)
        ensures
            r == self.vals().len(),
    {
        match self {
            NumberColumn::UInt8(v) => v.len(),
            NumberColumn::UInt16(v) => v.len(),
            NumberColumn::UInt32(v) => v.len(),
            NumberColumn::UInt64(v) => v.len(),
            NumberColumn::Int8(v) => v.len(),
            NumberColumn::Int16(v) => v.len(),
            NumberColumn::Int32(v) => v.len(),
            NumberColumn::Int64(v) => v.len(),
        }
    }
}

impl DecimalColumn {
    /// The decimal type of this buffer.
    pub open spec fn kind(&self) -> DecimalDataType {
        match self {
            DecimalColumn::Decimal128(_, size) => DecimalDataType::Decimal128(*size),
            DecimalColumn::Decimal256(_, size) => DecimalDataType::Decimal256(*size),
        }
    }

    /// The rows of this buffer as ghost values.
    pub open spec fn vals(&self) -> Seq<Val> {
        match self {
            DecimalColumn::Decimal128(v, size) => Seq::new(
                v@.len(),
                |i: int| Val::Decimal(DecimalScalar::Decimal128(v@[i], *size)),
            ),
            DecimalColumn::Decimal256(v, size) => Seq::new(
                v@.len(),
                |i: int| Val::Decimal(DecimalScalar::Decimal256(v@[i], *size)),
            ),
        }
    }

    /// Number of rows.
    pub fn len(&self) -> (r: usize)
        ensures
            r == self.vals().len(),
    {
        match self {
            DecimalColumn::Decimal128(v, _) => v.len(),
            DecimalColumn::Decimal256(v, _) => v.len(),
        }
    }
}

/// The rows of each column in a sequence of sibling columns.
pub open spec fn cols_vals(cs: Seq<Column>) -> Seq<Seq<Val>>
    decreases cs,
{
    if cs.len() == 0 {
        Seq::empty()
    } else {
        cols_vals(cs.drop_last()).push(cs.last().vals())
    }
}

/// `cols_vals` maps the sequence elementwise.
pub proof fn lemma_cols_vals(cs: Seq<Column>)
    ensures
        cols_vals(cs).len() == cs.len(),
        forall|i: int| 0 <= i < cs.len() ==> #[trigger] cols_vals(cs)[i] == cs[i].vals(),
    decreases cs.len(),
{
    if cs.len() > 0 {
        lemma_cols_vals(cs.drop_last());
    }
}

/// The ghost types of a sequence of sibling columns.
pub open spec fn cols_typs(cs: Seq<Column>) -> Seq<TypeV>
    decreases cs,
{
    if cs.len() == 0 {
        Seq::empty()
    } else {
        cols_typs(cs.drop_last()).push(cs.last().typ())
    }
}

/// `cols_typs` maps the sequence elementwise.
pub proof fn lemma_cols_typs(cs: Seq<Column>)
    ensures
        cols_typs(cs).len() == cs.len(),
        forall|i: int| 0 <= i < cs.len() ==> #[trigger] cols_typs(cs)[i] == cs[i].typ(),
    decreases cs.len(),
{
    if cs.len() > 0 {
        lemma_cols_typs(cs.drop_last());
    }
}

/// All columns in the sequence are well formed and hold exactly `n` rows.
pub open spec fn cols_wf_len(cs: Seq<Column>, n: nat) -> bool
    decreases cs,
{
    cs.len() == 0 || (cols_wf_len(cs.drop_last(), n) && cs.last().wf() && cs.last().vals().len()
        == n)
}

/// `cols_wf_len` holds elementwise.
pub proof fn lemma_cols_wf_len(cs: Seq<Column>, n: nat)
    requires
        cols_wf_len(cs, n),
    ensures
        forall|i: int| 0 <= i < cs.len() ==> #[trigger] cs[i].wf(),
        forall|i: int| 0 <= i < cs.len() ==> #[trigger] cs[i].vals().len() == n,
    decreases cs.len(),
{
    if cs.len() > 0 {
        lemma_cols_wf_len(cs.drop_last(), n);
        assert forall|i: int| 0 <= i < cs.len() implies #[trigger] cs[i].wf() by {
            if i < cs.len() - 1 {
                assert(cs.drop_last()[i].wf());
                assert(cs.drop_last()[i] == cs[i]);
            } else {
                assert(cs[i] == cs.last());
            }
        }
        assert forall|i: int| 0 <= i < cs.len() implies #[trigger] cs[i].vals().len() == n by {
            if i < cs.len() - 1 {
                assert(cs.drop_last()[i].vals().len() == n);
                assert(cs.drop_last()[i] == cs[i]);
            } else {
                assert(cs[i] == cs.last());
            }
        }
    }
}

/// `cols_wf_len` from elementwise facts.
pub proof fn lemma_cols_wf_len_intro(cs: Seq<Column>, n: nat)
    requires
        forall|i: int| 0 <= i < cs.len() ==> #[trigger] cs[i].wf(),
        forall|i: int| 0 <= i < cs.len() ==> #[trigger] cs[i].vals().len() == n,
    ensures
        cols_wf_len(cs, n),
    decreases cs.len(),
{
    if cs.len() > 0 {
        assert forall|i: int| 0 <= i < cs.drop_last().len() implies
            #[trigger] cs.drop_last()[i].wf() by {
            assert(cs.drop_last()[i] == cs[i]);
            assert(cs[i].wf());
        }
        assert forall|i: int| 0 <= i < cs.drop_last().len() implies
            #[trigger] cs.drop_last()[i].vals().len() == n by {
            assert(cs.drop_last()[i] == cs[i]);
            assert(cs[i].vals().len() == n);
        }
        lemma_cols_wf_len_intro(cs.drop_last(), n);
        assert(cs.last() == cs[cs.len() - 1]);
        assert(cs.last().wf() && cs.last().vals().len() == n);
    }
}

impl ArrayColumn {
    /// Number of rows delimited by the offsets buffer.
    pub open spec fn row_count(&self) -> nat {
        (self.offsets@.len() - 1) as nat
    }

    /// Offsets are present, non-decreasing, and bounded by the inner rows.
    pub open spec fn offsets_wf(&self) -> bool {
        &&& self.offsets@.len() >= 1
        &&& forall|i: int, j: int|
            0 <= i <= j < self.offsets@.len() ==> self.offsets@[i] <= self.offsets@[j]
        &&& self.offsets@.last() <= self.values.vals().len()
    }
}

impl Column {
    /// The ghost model of this column: the sequence of its rows' values.
    pub open spec fn vals(&self) -> Seq<Val>
        decreases self,
    {
        match self {
            Column::Null { len } => Seq::new(*len as nat, |i: int| Val::Null),
            Column::EmptyArray { len } => Seq::new(*len as nat, |i: int| Val::EmptyArray),
            Column::EmptyMap { len } => Seq::new(*len as nat, |i: int| Val::EmptyMap),
            Column::Number(col) => col.vals(),
            Column::Decimal(col) => col.vals(),
            Column::Boolean(v) => Seq::new(v@.len(), |i: int| Val::Boolean(v@[i])),
            Column::String(col) => Seq::new(col.row_count(), |i: int| Val::String(col.row(i))),
            Column::Timestamp(v) => Seq::new(v@.len(), |i: int| Val::Timestamp(v@[i])),
            Column::Date(v) => Seq::new(v@.len(), |i: int| Val::Date(v@[i])),
            Column::Array(col) => {
                let inner = col.values.vals();
                Seq::new(
                    col.row_count(),
                    |i: int| Val::Array(
                        inner.subrange(col.offsets@[i] as int, col.offsets@[i + 1] as int),
                    ),
                )
            }
            Column::KvMap(col) => {
                let inner = col.values.vals();
                Seq::new(
                    col.row_count(),
                    |i: int| Val::KvMap(
                        inner.subrange(col.offsets@[i] as int, col.offsets@[i + 1] as int),
                    ),
                )
            }
            Column::Nullable(col) => {
                let inner = col.column.vals();
                Seq::new(
                    col.validity@.len(),
                    |i: int| if col.validity@[i] { inner[i] } else { Val::Null },
                )
            }
            Column::Tuple { fields, len } => {
                let cols = cols_vals(fields@);
                Seq::new(
                    *len as nat,
                    |i: int| Val::Tuple(Seq::new(cols.len(), |j: int| cols[j][i])),
                )
            }
            Column::Variant(col) => Seq::new(col.row_count(), |i: int| Val::Variant(col.row(i))),
        }
    }

    /// The ghost logical type of this column.
    pub open spec fn typ(&self) -> TypeV
        decreases self,
    {
        match self {
            Column::Null { .. } => TypeV::Null,
            Column::EmptyArray { .. } => TypeV::EmptyArray,
            Column::EmptyMap { .. } => TypeV::EmptyMap,
            Column::Number(col) => TypeV::Number(col.kind()),
            Column::Decimal(col) => TypeV::Decimal(col.kind()),
            Column::Boolean(_) => TypeV::Boolean,
            Column::String(_) => TypeV::String,
            Column::Timestamp(_) => TypeV::Timestamp,
            Column::Date(_) => TypeV::Date,
            Column::Array(col) => TypeV::Array(Box::new(col.values.typ())),
            Column::KvMap(col) => TypeV::KvMap(Box::new(col.values.typ())),
            Column::Nullable(col) => TypeV::Nullable(Box::new(col.column.typ())),
            Column::Tuple { fields, .. } => TypeV::Tuple(cols_typs(fields@)),
            Column::Variant(_) => TypeV::Variant,
        }
    }

    /// Structural invariant: offsets buffers are well formed, validity
    /// bitmaps match their column's length, tuple fields agree on the row
    /// count, a map's inner column is a two-field tuple, and a nullable
    /// wrapper never nests directly inside another.
    pub open spec fn wf(&self) -> bool
        decreases self,
    {
        match self {
            Column::String(col) => col.wf(),
            Column::Variant(col) => col.wf() && (forall|i: int|
                0 <= i < col.row_count() ==> crate::ord::jsonb_wf(#[trigger] col.row(i))),
            Column::Array(col) => col.offsets_wf() && col.values.wf(),
            Column::KvMap(col) => {
                &&& col.offsets_wf()
                &&& col.values.wf()
                &&& col.values.typ() matches TypeV::Tuple(ts) && ts.len() == 2
            }
            Column::Nullable(col) => {
                &&& col.column.wf()
                &&& col.validity@.len() == col.column.vals().len()
                &&& !(col.column is Nullable)
                &&& !(col.column is Null)
            }
            Column::Tuple { fields, len } => cols_wf_len(fields@, *len as nat),
            _ => true,
        }
    }

    /// Number of rows.
    pub fn len(&self) -> (r: usize)
        requires
            self.wf(),
        ensures
            r == self.vals().len(),
    {
        match self {
            Column::Null { len } => *len,
            Column::EmptyArray { len } => *len,
            Column::EmptyMap { len } => *len,
            Column::Number(col) => {
                let r = col.len();
                proof { assert(r == self.vals().len()); }
                r
            }
            Column::Decimal(col) => {
                let r = col.len();
                proof { assert(r == self.vals().len()); }
                r
            }
            Column::Boolean(v) => {
                let r = v.len();
                proof { assert(r == self.vals().len()); }
                r
            }
            Column::String(col) => {
                let r = col.offsets.len() - 1;
                proof { assert(r == self.vals().len()); }
                r
            }
            Column::Timestamp(v) => v.len(),
            Column::Date(v) => v.len(),
            Column::Array(col) => {
                let r = col.offsets.len() - 1;
                proof {
                    assert(self.vals().len() == col.row_count());
                    assert(r == col.row_count());
                    assert(r == self.vals().len());
                }
                r
            }
            Column::KvMap(col) => col.offsets.len() - 1,
            Column::Nullable(col) => {
                let r = col.validity.len();
                proof {
                    assert(self.vals().len() == col.validity@.len());
                }
                r
            }
            Column::Tuple { len, .. } => {
                let r = *len;
                proof { assert(r == self.vals().len()); }
                r
            }
            Column::Variant(col) => col.offsets.len() - 1,
        }
    }
}

/// Copy of a byte range out of a shared buffer.
pub fn copy_bytes_range(data: &Vec<u8>, a: usize, b: usize) -> (r: Vec<u8>)
    requires
        a <= b <= data@.len(),
    ensures
        r@ == data@.subrange(a as int, b as int),
{
    let mut out: Vec<u8> = Vec::new();
    let mut i: usize = a;
    while i < b
        invariant
            a <= i <= b <= data@.len(),
            out@ == data@.subrange(a as int, i as int),
        decreases b - i,
    {
        out.push(data[i]);
        proof {
            assert(out@ =~= data@.subrange(a as int, i + 1));
        }
        i = i + 1;
    }
    out
}

/// Copy of a `Copy`-element vector, preserving the view.
fn copy_vec<T: Copy>(v: &Vec<T>) -> (r: Vec<T>)
    ensures
        r@ == v@,
{
    let mut out: Vec<T> = Vec::new();
    let mut i: usize = 0;
    while i < v.len()
        invariant
            i <= v@.len(),
            out@ == v@.subrange(0, i as int),
        decreases v@.len() - i,
    {
        out.push(v[i]);
        proof {
            assert(out@ =~= v@.subrange(0, i + 1));
        }
        i = i + 1;
    }
    proof {
        assert(v@.subrange(0, v@.len() as int) =~= v@);
    }
    out
}

impl Clone for StringColumn {
    /// Deep copy preserving rows and well-formedness.
    fn clone(&self) -> (r: Self)
        ensures
            r.data@ == self.data@,
            r.offsets@ == self.offsets@,
    {
        StringColumn { data: copy_vec(&self.data), offsets: copy_vec(&self.offsets) }
    }
}

impl Clone for NumberColumn {
    /// Deep copy preserving the rows.
    fn clone(&self) -> (r: Self)
        ensures
            r.vals() == self.vals(),
            r.kind() == self.kind(),
    {
        let r = match self {
            NumberColumn::UInt8(v) => NumberColumn::UInt8(copy_vec(v)),
            NumberColumn::UInt16(v) => NumberColumn::UInt16(copy_vec(v)),
            NumberColumn::UInt32(v) => NumberColumn::UInt32(copy_vec(v)),
            NumberColumn::UInt64(v) => NumberColumn::UInt64(copy_vec(v)),
            NumberColumn::Int8(v) => NumberColumn::Int8(copy_vec(v)),
            NumberColumn::Int16(v) => NumberColumn::Int16(copy_vec(v)),
            NumberColumn::Int32(v) => NumberColumn::Int32(copy_vec(v)),
            NumberColumn::Int64(v) => NumberColumn::Int64(copy_vec(v)),
        };
        proof {
            assert(r.vals() =~= self.vals());
        }
        r
    }
}

impl Clone for DecimalColumn {
    /// Deep copy preserving the rows.
    fn clone(&self) -> (r: Self)
        ensures
            r.vals() == self.vals(),
            r.kind() == self.kind(),
    {
        let r = match self {
            DecimalColumn::Decimal128(v, size) => DecimalColumn::Decimal128(copy_vec(v), *size),
            DecimalColumn::Decimal256(v, size) => DecimalColumn::Decimal256(copy_vec(v), *size),
        };
        proof {
            assert(r.vals() =~= self.vals());
        }
        r
    }
}

/// Deep copy of a vector of sibling columns, preserving each column's rows,
/// type and well-formedness.
fn clone_cols(cs: &Vec<Column>) -> (r: Vec<Column>)
    ensures
        r@.len() == cs@.len(),
        forall|i: int| 0 <= i < cs@.len() ==> #[trigger] r@[i].vals() == cs@[i].vals(),
        forall|i: int| 0 <= i < cs@.len() ==> #[trigger] r@[i].typ() == cs@[i].typ(),
        forall|i: int| 0 <= i < cs@.len() ==> (#[trigger] r@[i].wf() <==> cs@[i].wf()),
    decreases cs@,
{
    let mut out: Vec<Column> = Vec::new();
    let mut i: usize = 0;
    while i < cs.len()
        invariant
            i <= cs@.len(),
            out@.len() == i as int,
            forall|j: int| 0 <= j < i as int ==> #[trigger] out@[j].vals() == cs@[j].vals(),
            forall|j: int| 0 <= j < i as int ==> #[trigger] out@[j].typ() == cs@[j].typ(),
            forall|j: int| 0 <= j < i as int ==> (#[trigger] out@[j].wf() <==> cs@[j].wf()),
        decreases cs@.len() - i,
    {
        proof {
            assert(decreases_to!(cs@ => cs@[i as int]));
        }
        out.push(cs[i].clone());
        i = i + 1;
    }
    out
}

impl Clone for Column {
    /// Deep copy preserving the rows, the logical type, and well-formedness.
    fn clone(&self) -> (r: Self)
        ensures
            r.vals() == self.vals(),
            r.typ() == self.typ(),
            r.wf() <==> self.wf(),
        decreases self,
    {
        match self {
            Column::Null { len } => Column::Null { len: *len },
            Column::EmptyArray { len } => Column::EmptyArray { len: *len },
            Column::EmptyMap { len } => Column::EmptyMap { len: *len },
            Column::Number(col) => Column::Number(col.clone()),
            Column::Decimal(col) => Column::Decimal(col.clone()),
            Column::Boolean(v) => Column::Boolean(copy_vec(v)),
            Column::String(col) => {
                let r = Column::String(col.clone());
                proof {
                    assert(r.vals() =~= self.vals());
                }
                r
            }
            Column::Timestamp(v) => Column::Timestamp(copy_vec(v)),
            Column::Date(v) => Column::Date(copy_vec(v)),
            Column::Array(col) => {
                let r = Column::Array(
                    Box::new(
                        ArrayColumn { values: col.values.clone(), offsets: copy_vec(&col.offsets) },
                    ),
                );
                proof {
                    assert(r.vals() =~= self.vals());
                }
                r
            }
            Column::KvMap(col) => {
                let r = Column::KvMap(
                    Box::new(
                        ArrayColumn { values: col.values.clone(), offsets: copy_vec(&col.offsets) },
                    ),
                );
                proof {
                    assert(r.vals() =~= self.vals());
                }
                r
            }
            Column::Nullable(col) => {
                let inner = col.column.clone();
                let validity = copy_vec(&col.validity);
                let nc = NullableColumn { column: inner, validity };
                let r = Column::Nullable(Box::new(nc));
                proof {
                    assert(r.vals() =~= self.vals());
                }
                r
            }
            Column::Tuple { fields, len } => {
                let new_fields = clone_cols(fields);
                let r = Column::Tuple { fields: new_fields, len: *len };
                proof {
                    lemma_cols_vals(new_fields@);
                    lemma_cols_vals(fields@);
                    lemma_cols_typs(new_fields@);
                    lemma_cols_typs(fields@);
                    assert(cols_vals(new_fields@) =~= cols_vals(fields@));
                    assert(cols_typs(new_fields@) =~= cols_typs(fields@));
                    assert(r.vals() =~~= self.vals());
                    assert(r.typ() =~= self.typ());
                    if cols_wf_len(fields@, *len as nat) {
                        lemma_cols_wf_len(fields@, *len as nat);
                        assert forall|i: int| 0 <= i < new_fields@.len() implies
                            #[trigger] new_fields@[i].wf() by {
                            assert(fields@[i].wf());
                        }
                        assert forall|i: int| 0 <= i < new_fields@.len() implies
                            #[trigger] new_fields@[i].vals().len() == *len as nat by {
                            assert(fields@[i].vals().len() == *len as nat);
                            assert(new_fields@[i].vals() == fields@[i].vals());
                        }
                        lemma_cols_wf_len_intro(new_fields@, *len as nat);
                    }
                    if cols_wf_len(new_fields@, *len as nat) {
                        lemma_cols_wf_len(new_fields@, *len as nat);
                        assert forall|i: int| 0 <= i < fields@.len() implies
                            #[trigger] fields@[i].wf() by {
                            assert(new_fields@[i].wf());
                        }
                        assert forall|i: int| 0 <= i < fields@.len() implies
                            #[trigger] fields@[i].vals().len() == *len as nat by {
                            assert(new_fields@[i].vals().len() == *len as nat);
                            assert(new_fields@[i].vals() == fields@[i].vals());
                        }
                        lemma_cols_wf_len_intro(fields@, *len as nat);
                    }
                }
                r
            }
            Column::Variant(col) => {
                let c2 = col.clone();
                let r = Column::Variant(c2);
                proof {
                    assert(r.vals() =~= self.vals());
                    if self.wf() {
                        assert forall|i: int| 0 <= i < c2.row_count() implies crate::ord::jsonb_wf(
                            #[trigger] c2.row(i),
                        ) by {
                            assert(crate::ord::jsonb_wf(col.row(i)));
                            assert(c2.row(i) =~= col.row(i));
                        }
                    }
                    if r.wf() {
                        assert forall|i: int| 0 <= i < col.row_count() implies crate::ord::jsonb_wf(
                            #[trigger] col.row(i),
                        ) by {
                            assert(crate::ord::jsonb_wf(c2.row(i)));
                            assert(c2.row(i) =~= col.row(i));
                        }
                    }
                }
                r
            }
        }
    }
}

/// Copy of a range out of a vector of `Copy` elements.
pub fn copy_range<T: Copy>(v: &Vec<T>, a: usize, b: usize) -> (r: Vec<T>)
    requires
        a <= b <= v@.len(),
    ensures
        r@ == v@.subrange(a as int, b as int),
{
    let mut out: Vec<T> = Vec::new();
    let mut i: usize = a;
    while i < b
        invariant
            a <= i <= b <= v@.len(),
            out@ == v@.subrange(a as int, i as int),
        decreases b - i,
    {
        out.push(v[i]);
        proof {
            assert(out@ =~= v@.subrange(a as int, i + 1));
        }
        i = i + 1;
    }
    out
}

/// A string column with no rows.
fn empty_strings() -> (r: StringColumn)
    ensures
        r.wf(),
        r.row_count() == 0,
        r.data@.len() == 0,
{
    let mut offsets: Vec<usize> = Vec::new();
    offsets.push(0);
    StringColumn { data: Vec::new(), offsets }
}

impl NumberColumn {
    /// The row at `row`, if in range.
    pub fn index(&self, row: usize) -> (r: Option<NumberScalar>)
        ensures
            row < self.vals().len() ==> (r matches Some(s) && self.vals()[row as int]
                == Val::Number(s)),
            row >= self.vals().len() ==> r is None,
    {
        match self {
            NumberColumn::UInt8(v) => if row < v.len() {
                Some(NumberScalar::UInt8(v[row]))
            } else {
                None
            },
            NumberColumn::UInt16(v) => if row < v.len() {
                Some(NumberScalar::UInt16(v[row]))
            } else {
                None
            },
            NumberColumn::UInt32(v) => if row < v.len() {
                Some(NumberScalar::UInt32(v[row]))
            } else {
                None
            },
            NumberColumn::UInt64(v) => if row < v.len() {
                Some(NumberScalar::UInt64(v[row]))
            } else {
                None
            },
            NumberColumn::Int8(v) => if row < v.len() {
                Some(NumberScalar::Int8(v[row]))
            } else {
                None
            },
            NumberColumn::Int16(v) => if row < v.len() {
                Some(NumberScalar::Int16(v[row]))
            } else {
                None
            },
            NumberColumn::Int32(v) => if row < v.len() {
                Some(NumberScalar::Int32(v[row]))
            } else {
                None
            },
            NumberColumn::Int64(v) => if row < v.len() {
                Some(NumberScalar::Int64(v[row]))
            } else {
                None
            },
        }
    }

    /// The rows in `[a, b)` as a new buffer of the same kind.
    pub fn sliced(&self, a: usize, b: usize) -> (r: NumberColumn)
        requires
            a <= b <= self.vals().len(),
        ensures
            r.kind() == self.kind(),
            r.vals() == self.vals().subrange(a as int, b as int),
    {
        let r = match self {
            NumberColumn::UInt8(v) => NumberColumn::UInt8(copy_range(v, a, b)),
            NumberColumn::UInt16(v) => NumberColumn::UInt16(copy_range(v, a, b)),
            NumberColumn::UInt32(v) => NumberColumn::UInt32(copy_range(v, a, b)),
            NumberColumn::UInt64(v) => NumberColumn::UInt64(copy_range(v, a, b)),
            NumberColumn::Int8(v) => NumberColumn::Int8(copy_range(v, a, b)),
            NumberColumn::Int16(v) => NumberColumn::Int16(copy_range(v, a, b)),
            NumberColumn::Int32(v) => NumberColumn::Int32(copy_range(v, a, b)),
            NumberColumn::Int64(v) => NumberColumn::Int64(copy_range(v, a, b)),
        };
        proof {
            assert(r.vals() =~= self.vals().subrange(a as int, b as int));
        }
        r
    }
}

impl DecimalColumn {
    /// The row at `row`, if in range.
    pub fn index(&self, row: usize) -> (r: Option<DecimalScalar>)
        ensures
            row < self.vals().len() ==> (r matches Some(s) && self.vals()[row as int]
                == Val::Decimal(s)),
            row >= self.vals().len() ==> r is None,
    {
        match self {
            DecimalColumn::Decimal128(v, size) => if row < v.len() {
                Some(DecimalScalar::Decimal128(v[row], *size))
            } else {
                None
            },
            DecimalColumn::Decimal256(v, size) => if row < v.len() {
                Some(DecimalScalar::Decimal256(v[row], *size))
            } else {
                None
            },
        }
    }

    /// The rows in `[a, b)` as a new buffer of the same kind.
    pub fn sliced(&self, a: usize, b: usize) -> (r: DecimalColumn)
        requires
            a <= b <= self.vals().len(),
        ensures
            r.kind() == self.kind(),
            r.vals() == self.vals().subrange(a as int, b as int),
    {
        let r = match self {
            DecimalColumn::Decimal128(v, size) => DecimalColumn::Decimal128(
                copy_range(v, a, b),
                *size,
            ),
            DecimalColumn::Decimal256(v, size) => DecimalColumn::Decimal256(
                copy_range(v, a, b),
                *size,
            ),
        };
        proof {
            assert(r.vals() =~= self.vals().subrange(a as int, b as int));
        }
        r
    }
}

impl Column {
    /// A column's type constructor follows its variant.
    pub proof fn lemma_typ_shape(&self)
        ensures
            (self.typ() is Nullable) == (self is Nullable),
            (self.typ() is Tuple) == (self is Tuple),
    {
        match self {
            Column::Null { .. } => {},
            Column::EmptyArray { .. } => {},
            Column::EmptyMap { .. } => {},
            Column::Number(_) => {},
            Column::Decimal(_) => {},
            Column::Boolean(_) => {},
            Column::String(_) => {},
            Column::Timestamp(_) => {},
            Column::Date(_) => {},
            Column::Array(_) => {},
            Column::KvMap(_) => {},
            Column::Nullable(_) => {},
            Column::Tuple { .. } => {},
            Column::Variant(_) => {},
        }
    }

    /// The logical type of a well-formed column is concrete and well formed.
    pub proof fn lemma_typ_wf(&self)
        requires
            self.wf(),
        ensures
            self.typ().concrete(),
            self.typ().wf_type(),
        decreases self,
    {
        match self {
            Column::Array(col) => {
                col.values.lemma_typ_wf();
            }
            Column::KvMap(col) => {
                col.values.lemma_typ_wf();
            }
            Column::Nullable(col) => {
                col.column.lemma_typ_wf();
                col.column.lemma_typ_variant();
            }
            Column::Tuple { fields, len } => {
                lemma_cols_wf_len(fields@, *len as nat);
                lemma_cols_typs_wf(fields@);
                lemma_cols_typs(fields@);
                let ts = cols_typs(fields@);
                assert(self.typ() == TypeV::Tuple(ts));
            }
            _ => {},
        }
    }
}

/// The types of a sequence of well-formed columns are concrete and well
/// formed.
pub proof fn lemma_cols_typs_wf(cs: Seq<Column>)
    requires
        forall|i: int| 0 <= i < cs.len() ==> #[trigger] cs[i].wf(),
    ensures
        crate::types::tys_wf(cols_typs(cs)),
        crate::types::tys_concrete(cols_typs(cs)),
    decreases cs,
{
    lemma_cols_typs(cs);
    if cs.len() > 0 {
        assert forall|i: int| 0 <= i < cs.drop_last().len() implies
            #[trigger] cs.drop_last()[i].wf() by {
            assert(cs.drop_last()[i] == cs[i]);
            assert(cs[i].wf());
        }
        lemma_cols_typs_wf(cs.drop_last());
        cs.last().lemma_typ_wf();
        lemma_cols_typs(cs.drop_last());
        assert forall|i: int| 0 <= i < cols_typs(cs).len() implies
            #[trigger] cols_typs(cs)[i].concrete() by {
            if i < cs.len() - 1 {
                crate::types::lemma_tys_concrete(cols_typs(cs.drop_last()));
                assert(cols_typs(cs.drop_last())[i].concrete());
                assert(cols_typs(cs.drop_last())[i] == cs.drop_last()[i].typ());
                assert(cs.drop_last()[i] == cs[i]);
                assert(cols_typs(cs)[i] == cs[i].typ());
            } else {
                assert(cols_typs(cs)[i] == cs[i].typ());
                assert(cs[i] == cs.last());
            }
        }
        crate::types::lemma_tys_concrete_intro(cols_typs(cs));
        assert forall|i: int| 0 <= i < cols_typs(cs).len() implies
            #[trigger] cols_typs(cs)[i].wf_type() by {
            if i < cs.len() - 1 {
                crate::types::lemma_tys_wf(cols_typs(cs.drop_last()));
                assert(cols_typs(cs.drop_last())[i].wf_type());
                assert(cols_typs(cs.drop_last())[i] == cs.drop_last()[i].typ());
                assert(cs.drop_last()[i] == cs[i]);
                assert(cols_typs(cs)[i] == cs[i].typ());
            } else {
                assert(cols_typs(cs)[i] == cs[i].typ());
                assert(cs[i] == cs.last());
            }
        }
        crate::types::lemma_tys_wf_intro(cols_typs(cs));
    } else {
        crate::types::lemma_tys_wf_intro(cols_typs(cs));
        crate::types::lemma_tys_concrete_intro(cols_typs(cs));
    }
}

impl Column {
    /// The logical data type of this column.
    pub fn data_type(&self) -> (r: DataType)
        ensures
            r@ == self.typ(),
        decreases self,
    {
        match self {
            Column::Null { .. } => DataType::Null,
            Column::EmptyArray { .. } => DataType::EmptyArray,
            Column::EmptyMap { .. } => DataType::EmptyMap,
            Column::Number(col) => DataType::Number(
                match col {
                    NumberColumn::UInt8(_) => NumberDataType::UInt8,
                    NumberColumn::UInt16(_) => NumberDataType::UInt16,
                    NumberColumn::UInt32(_) => NumberDataType::UInt32,
                    NumberColumn::UInt64(_) => NumberDataType::UInt64,
                    NumberColumn::Int8(_) => NumberDataType::Int8,
                    NumberColumn::Int16(_) => NumberDataType::Int16,
                    NumberColumn::Int32(_) => NumberDataType::Int32,
                    NumberColumn::Int64(_) => NumberDataType::Int64,
                },
            ),
            Column::Decimal(col) => DataType::Decimal(
                match col {
                    DecimalColumn::Decimal128(_, size) => DecimalDataType::Decimal128(*size),
                    DecimalColumn::Decimal256(_, size) => DecimalDataType::Decimal256(*size),
                },
            ),
            Column::Boolean(_) => DataType::Boolean,
            Column::String(_) => DataType::String,
            Column::Timestamp(_) => DataType::Timestamp,
            Column::Date(_) => DataType::Date,
            Column::Array(col) => DataType::Array(Box::new(col.values.data_type())),
            Column::KvMap(col) => DataType::KvMap(Box::new(col.values.data_type())),
            Column::Nullable(col) => DataType::Nullable(Box::new(col.column.data_type())),
            Column::Tuple { fields, .. } => {
                let ts = data_types_of(fields);
                let r = DataType::Tuple(ts);
                proof {
                    crate::types::lemma_tyv_seq(r->Tuple_0@);
                    lemma_cols_typs(fields@);
                    assert(crate::types::tyv_seq(r->Tuple_0@) =~= cols_typs(fields@));
                }
                r
            }
            Column::Variant(_) => DataType::Variant,
        }
    }

    /// A fresh zero-row column of the given logical type: the type-driven
    /// empty constructor used for degenerate slices.
    pub fn empty_of(ty: &DataType) -> (r: Column)
        requires
            ty@.concrete(),
            ty@.wf_type(),
        ensures
            r.wf(),
            r.typ() == ty@,
            r.vals().len() == 0,
        decreases ty,
    {
        match ty {
            DataType::Null => Column::Null { len: 0 },
            DataType::EmptyArray => Column::EmptyArray { len: 0 },
            DataType::EmptyMap => Column::EmptyMap { len: 0 },
            DataType::Boolean => Column::Boolean(Vec::new()),
            DataType::String => Column::String(empty_strings()),
            DataType::Number(k) => Column::Number(
                match k {
                    NumberDataType::UInt8 => NumberColumn::UInt8(Vec::new()),
                    NumberDataType::UInt16 => NumberColumn::UInt16(Vec::new()),
                    NumberDataType::UInt32 => NumberColumn::UInt32(Vec::new()),
                    NumberDataType::UInt64 => NumberColumn::UInt64(Vec::new()),
                    NumberDataType::Int8 => NumberColumn::Int8(Vec::new()),
                    NumberDataType::Int16 => NumberColumn::Int16(Vec::new()),
                    NumberDataType::Int32 => NumberColumn::Int32(Vec::new()),
                    NumberDataType::Int64 => NumberColumn::Int64(Vec::new()),
                },
            ),
            DataType::Decimal(d) => Column::Decimal(
                match d {
                    DecimalDataType::Decimal128(size) => DecimalColumn::Decimal128(
                        Vec::new(),
                        *size,
                    ),
                    DecimalDataType::Decimal256(size) => DecimalColumn::Decimal256(
                        Vec::new(),
                        *size,
                    ),
                },
            ),
            DataType::Timestamp => Column::Timestamp(Vec::new()),
            DataType::Date => Column::Date(Vec::new()),
            DataType::Nullable(t) => {
                let inner = Column::empty_of(t);
                proof {
                    inner.lemma_typ_variant();
                }
                Column::Nullable(Box::new(NullableColumn { column: inner, validity: Vec::new() }))
            }
            DataType::Array(t) => {
                let values = Column::empty_of(t);
                let mut offsets: Vec<usize> = Vec::new();
                offsets.push(0);
                Column::Array(Box::new(ArrayColumn { values, offsets }))
            }
            DataType::KvMap(t) => {
                let values = Column::empty_of(t);
                let mut offsets: Vec<usize> = Vec::new();
                offsets.push(0);
                Column::KvMap(Box::new(ArrayColumn { values, offsets }))
            }
            DataType::Tuple(ts) => {
                proof {
                    crate::types::lemma_tyv_seq(ts@);
                    crate::types::lemma_tys_concrete(ty@->Tuple_0);
                    crate::types::lemma_tys_wf(ty@->Tuple_0);
                    assert forall|j: int| 0 <= j < ts@.len() implies
                        (#[trigger] ts@[j].tyv()).concrete() && ts@[j].tyv().wf_type() by {
                        assert(crate::types::tyv_seq(ts@)[j] == ts@[j].tyv());
                        assert(crate::types::tyv_seq(ts@)[j].concrete());
                        assert(crate::types::tyv_seq(ts@)[j].wf_type());
                    }
                }
                let fields = empty_cols(ts);
                let r = Column::Tuple { fields, len: 0 };
                proof {
                    lemma_cols_wf_len_intro(fields@, 0);
                    lemma_cols_typs(fields@);
                    crate::types::lemma_tyv_seq(ts@);
                    assert(cols_typs(fields@) =~= crate::types::tyv_seq(ts@));
                }
                r
            }
            DataType::Variant => Column::Variant(empty_strings()),
            DataType::Generic(_) => vstd::pervasive::unreached(),
        }
    }

    /// The rows in `[a, b)` as a new column of the same type.
    pub fn sliced(&self, a: usize, b: usize) -> (r: Column)
        requires
            self.wf(),
            a <= b <= self.vals().len(),
        ensures
            r.wf(),
            r.typ() == self.typ(),
            r.vals() == self.vals().subrange(a as int, b as int),
        decreases self,
    {
        match self {
            Column::Null { .. } => {
                let r = Column::Null { len: b - a };
                proof {
                    assert(r.vals() =~= self.vals().subrange(a as int, b as int));
                }
                r
            }
            Column::EmptyArray { .. } => {
                let r = Column::EmptyArray { len: b - a };
                proof {
                    assert(r.vals() =~= self.vals().subrange(a as int, b as int));
                }
                r
            }
            Column::EmptyMap { .. } => {
                let r = Column::EmptyMap { len: b - a };
                proof {
                    assert(r.vals() =~= self.vals().subrange(a as int, b as int));
                }
                r
            }
            Column::Number(col) => Column::Number(col.sliced(a, b)),
            Column::Decimal(col) => Column::Decimal(col.sliced(a, b)),
            Column::Boolean(v) => {
                let r = Column::Boolean(copy_range(v, a, b));
                proof {
                    assert(r.vals() =~= self.vals().subrange(a as int, b as int));
                }
                r
            }
            Column::String(col) => {
                let n_off = col.offsets.len();
                proof {
                    assert(self.vals().len() == col.row_count());
                    assert(b + 1 <= n_off as int);
                }
                let offsets = copy_range(&col.offsets, a, b + 1);
                let r = Column::String(StringColumn { data: copy_vec(&col.data), offsets });
                proof {
                    assert(r.vals() =~= self.vals().subrange(a as int, b as int));
                }
                r
            }
            Column::Timestamp(v) => {
                let r = Column::Timestamp(copy_range(v, a, b));
                proof {
                    assert(r.vals() =~= self.vals().subrange(a as int, b as int));
                }
                r
            }
            Column::Date(v) => {
                let r = Column::Date(copy_range(v, a, b));
                proof {
                    assert(r.vals() =~= self.vals().subrange(a as int, b as int));
                }
                r
            }
            Column::Array(col) => {
                let n_off = col.offsets.len();
                proof {
                    assert(self.vals().len() == col.row_count());
                    assert(b + 1 <= n_off as int);
                }
                let values = col.values.clone();
                let offsets = copy_range(&col.offsets, a, b + 1);
                let ac = ArrayColumn { values, offsets };
                let r = Column::Array(Box::new(ac));
                proof {
                    assert forall|i: int| 0 <= i < (b - a) as int implies r.vals()[i]
                        == self.vals().subrange(a as int, b as int)[i] by {
                        assert(ac.offsets@[i] == col.offsets@[a + i]);
                        assert(ac.offsets@[i + 1] == col.offsets@[a + i + 1]);
                        assert(ac.values.vals() == col.values.vals());
                    }
                    assert(r.vals() =~= self.vals().subrange(a as int, b as int));
                }
                r
            }
            Column::KvMap(col) => {
                let n_off = col.offsets.len();
                proof {
                    assert(self.vals().len() == col.row_count());
                    assert(b + 1 <= n_off as int);
                }
                let values = col.values.clone();
                let offsets = copy_range(&col.offsets, a, b + 1);
                let ac = ArrayColumn { values, offsets };
                let r = Column::KvMap(Box::new(ac));
                proof {
                    assert forall|i: int| 0 <= i < (b - a) as int implies r.vals()[i]
                        == self.vals().subrange(a as int, b as int)[i] by {
                        assert(ac.offsets@[i] == col.offsets@[a + i]);
                        assert(ac.offsets@[i + 1] == col.offsets@[a + i + 1]);
                        assert(ac.values.vals() == col.values.vals());
                    }
                    assert(r.vals() =~= self.vals().subrange(a as int, b as int));
                }
                r
            }
            Column::Nullable(col) => {
                proof {
                    assert(self.vals().len() == col.validity@.len());
                }
                let column = col.column.sliced(a, b);
                let validity = copy_range(&col.validity, a, b);
                proof {
                    column.lemma_typ_variant();
                    col.column.lemma_typ_variant();
                }
                let nc = NullableColumn { column, validity };
                let r = Column::Nullable(Box::new(nc));
                proof {
                    assert(r.vals() =~= self.vals().subrange(a as int, b as int));
                }
                r
            }
            Column::Tuple { fields, len } => {
                proof {
                    lemma_cols_wf_len(fields@, *len as nat);
                }
                let new_fields = slice_cols(fields, a, b);
                let r = Column::Tuple { fields: new_fields, len: b - a };
                proof {
                    assert forall|j: int| 0 <= j < new_fields@.len() implies
                        #[trigger] new_fields@[j].vals().len() == (b - a) as nat by {
                        assert(new_fields@[j].vals() == fields@[j].vals().subrange(
                            a as int,
                            b as int,
                        ));
                    }
                    lemma_cols_wf_len_intro(new_fields@, (b - a) as nat);
                    lemma_cols_typs(new_fields@);
                    lemma_cols_typs(fields@);
                    assert(cols_typs(new_fields@) =~= cols_typs(fields@));
                    lemma_cols_vals(new_fields@);
                    lemma_cols_vals(fields@);
                    assert forall|i: int| 0 <= i < (b - a) as int implies r.vals()[i]
                        == self.vals().subrange(a as int, b as int)[i] by {
                        assert(Seq::new(
                            cols_vals(new_fields@).len(),
                            |j: int| cols_vals(new_fields@)[j][i],
                        ) =~= Seq::new(
                            cols_vals(fields@).len(),
                            |j: int| cols_vals(fields@)[j][a + i],
                        ));
                    }
                    assert(r.vals() =~= self.vals().subrange(a as int, b as int));
                }
                r
            }
            Column::Variant(col) => {
                let n_off = col.offsets.len();
                proof {
                    assert(self.vals().len() == col.row_count());
                    assert(b + 1 <= n_off as int);
                }
                let offsets = copy_range(&col.offsets, a, b + 1);
                let sc = StringColumn { data: copy_vec(&col.data), offsets };
                let r = Column::Variant(sc);
                proof {
                    assert(r.vals() =~= self.vals().subrange(a as int, b as int));
                    assert forall|i: int| 0 <= i < sc.row_count() implies crate::ord::jsonb_wf(
                        #[trigger] sc.row(i),
                    ) by {
                        assert(sc.row(i) =~= col.row(a + i));
                        assert(crate::ord::jsonb_wf(col.row(a + i)));
                    }
                }
                r
            }
        }
    }

    /// The rows in `range` as a new column of the same type. The range's end
    /// must be in bounds. An empty range yields a fresh zero-row column of
    /// the same logical type, built by the type-driven empty constructor.
    pub fn slice(&self, range: core::ops::Range<usize>) -> (r: Column)
        requires
            self.wf(),
            range.end <= self.vals().len(),
        ensures
            r.wf(),
            r.typ() == self.typ(),
            range.start <= range.end ==> r.vals() == self.vals().subrange(
                range.start as int,
                range.end as int,
            ),
            range.start > range.end ==> r.vals().len() == 0,
    {
        if range.start >= range.end {
            proof {
                self.lemma_typ_wf();
            }
            let ty = self.data_type();
            Column::empty_of(&ty)
        } else {
            self.sliced(range.start, range.end)
        }
    }

    /// The row at `row`, if in range.
    pub fn index(&self, row: usize) -> (r: Option<ScalarRef>)
        requires
            self.wf(),
        ensures
            row < self.vals().len() ==> (r matches Some(s) && s@ == self.vals()[row as int]
                && s.wf()),
            row >= self.vals().len() ==> r is None,
        decreases self,
    {
        match self {
            Column::Null { len } => if row < *len {
                Some(ScalarRef::Null)
            } else {
                None
            },
            Column::EmptyArray { len } => if row < *len {
                Some(ScalarRef::EmptyArray)
            } else {
                None
            },
            Column::EmptyMap { len } => if row < *len {
                Some(ScalarRef::EmptyMap)
            } else {
                None
            },
            Column::Number(col) => match col.index(row) {
                Some(n) => Some(ScalarRef::Number(n)),
                None => None,
            },
            Column::Decimal(col) => match col.index(row) {
                Some(d) => Some(ScalarRef::Decimal(d)),
                None => None,
            },
            Column::Boolean(v) => if row < v.len() {
                Some(ScalarRef::Boolean(v[row]))
            } else {
                None
            },
            Column::String(col) => if row < col.offsets.len() - 1 {
                let bytes = copy_range(&col.data, col.offsets[row], col.offsets[row + 1]);
                Some(ScalarRef::String(bytes))
            } else {
                None
            },
            Column::Timestamp(v) => if row < v.len() {
                Some(ScalarRef::Timestamp(v[row]))
            } else {
                None
            },
            Column::Date(v) => if row < v.len() {
                Some(ScalarRef::Date(v[row]))
            } else {
                None
            },
            Column::Array(col) => if row < col.offsets.len() - 1 {
                let sub = col.values.sliced(col.offsets[row], col.offsets[row + 1]);
                Some(ScalarRef::Array(sub))
            } else {
                None
            },
            Column::KvMap(col) => if row < col.offsets.len() - 1 {
                let sub = col.values.sliced(col.offsets[row], col.offsets[row + 1]);
                proof {
                    sub.lemma_typ_shape();
                }
                Some(ScalarRef::KvMap(sub))
            } else {
                None
            },
            Column::Nullable(col) => if row < col.validity.len() {
                if col.validity[row] {
                    match col.column.index(row) {
                        Some(s) => Some(s),
                        None => vstd::pervasive::unreached(),
                    }
                } else {
                    Some(ScalarRef::Null)
                }
            } else {
                None
            },
            Column::Tuple { fields, len } => if row < *len {
                proof {
                    lemma_cols_wf_len(fields@, *len as nat);
                }
                let refs = index_cols(fields, row);
                let r = ScalarRef::Tuple(refs);
                proof {
                    crate::scalar::lemma_rvals(r->Tuple_0@);
                    lemma_cols_vals(fields@);
                    assert(crate::scalar::rvals(r->Tuple_0@) =~= Seq::new(
                        cols_vals(fields@).len(),
                        |j: int| cols_vals(fields@)[j][row as int],
                    ));
                    crate::scalar::lemma_refs_wf_intro(r->Tuple_0@);
                }
                Some(r)
            } else {
                None
            },
            Column::Variant(col) => if row < col.offsets.len() - 1 {
                proof {
                    assert(col.offsets@[row as int] <= col.offsets@[row + 1]);
                    assert(col.offsets@[row + 1] <= col.offsets@[col.offsets@.len() - 1]);
                }
                let bytes = copy_range(&col.data, col.offsets[row], col.offsets[row + 1]);
                proof {
                    assert(bytes@ =~= col.row(row as int));
                    assert(crate::ord::jsonb_wf(col.row(row as int)));
                }
                Some(ScalarRef::Variant(bytes))
            } else {
                None
            },
        }
    }

    /// The row at `row`; the caller guarantees that `row` is in range, which
    /// replaces the unchecked fast path of a bounds-skipping accessor.
    pub fn index_unchecked(&self, row: usize) -> (r: ScalarRef)
        requires
            self.wf(),
            row < self.vals().len(),
        ensures
            r@ == self.vals()[row as int],
            r.wf(),
    {
        match self.index(row) {
            Some(s) => s,
            None => vstd::pervasive::unreached(),
        }
    }

    /// Strip one `Nullable` wrapper, if present; the rows of a stripped
    /// column are the stored inner rows.
    pub fn remove_nullable(&self) -> (r: Self)
        requires
            self.wf(),
        ensures
            r.wf(),
            r.typ() == self.typ().unwrap_nullable(),
            self is Nullable ==> r.vals() == self->Nullable_0.column.vals(),
            !(self is Nullable) ==> r.vals() == self.vals(),
    {
        match self {
            Column::Nullable(col) => col.column.clone(),
            _ => self.clone(),
        }
    }

    /// Add one `Nullable` wrapper with an all-true validity bitmap; a no-op
    /// if the column is already nullable. The logical rows are unchanged.
    /// The virtual all-null column cannot be wrapped: under a wrapper its
    /// stored rows would be null values indistinguishable from masked rows,
    /// which the column invariant rules out.
    pub fn wrap_nullable(self) -> (r: Self)
        requires
            self.wf(),
            !(self is Null),
        ensures
            r.wf(),
            r.vals() == self.vals(),
            self is Nullable ==> r.typ() == self.typ(),
            !(self is Nullable) ==> r.typ() == TypeV::Nullable(Box::new(self.typ())),
    {
        match self {
            Column::Nullable(_) => self,
            col => {
                proof {
                    col.lemma_typ_shape();
                }
                let n = col.len();
                let mut validity: Vec<bool> = Vec::new();
                let mut i: usize = 0;
                while i < n
                    invariant
                        i <= n,
                        validity@.len() == i as int,
                        forall|j: int| 0 <= j < i as int ==> validity@[j],
                    decreases n - i,
                {
                    validity.push(true);
                    i = i + 1;
                }
                let nc = NullableColumn { column: col, validity };
                let r = Column::Nullable(Box::new(nc));
                proof {
                    assert forall|j: int| 0 <= j < r.vals().len() implies r.vals()[j]
                        == nc.column.vals()[j] by {
                        assert(nc.validity@[j]);
                    }
                    assert(r.vals() =~= nc.column.vals());
                }
                r
            }
        }
    }

    /// Report `(is_all_null, validity)`: a `Null` column is all null with no
    /// bitmap; a `Nullable` column hands out its bitmap and reports whether
    /// every bit is unset; any other column reports `(false, None)`.
    pub fn validity(&self) -> (r: (bool, Option<&Vec<bool>>))
        requires
            self.wf(),
        ensures
            match *self {
                Column::Null { .. } => r.0 && r.1 is None,
                Column::Nullable(ref col) => (r.1 matches Some(v) && v@ == col.validity@) && (r.0
                    <==> forall|i: int| 0 <= i < col.validity@.len() ==> !col.validity@[i]),
                _ => !r.0 && r.1 is None,
            },
    {
        match self {
            Column::Null { .. } => (true, None),
            Column::Nullable(col) => {
                let mut all_unset = true;
                let mut i: usize = 0;
                while i < col.validity.len()
                    invariant
                        i <= col.validity@.len(),
                        all_unset <==> forall|j: int| 0 <= j < i as int ==> !col.validity@[j],
                    decreases col.validity@.len() - i,
                {
                    if col.validity[i] {
                        all_unset = false;
                    }
                    i = i + 1;
                }
                (all_unset, Some(&col.validity))
            }
            _ => (false, None),
        }
    }
}


/// The data types of a vector of sibling columns.
fn data_types_of(cols: &Vec<Column>) -> (r: Vec<DataType>)
    ensures
        r@.len() == cols@.len(),
        forall|j: int| 0 <= j < cols@.len() ==> #[trigger] r@[j].tyv() == cols@[j].typ(),
    decreases cols@,
{
    let mut ts: Vec<DataType> = Vec::new();
    let mut i: usize = 0;
    while i < cols.len()
        invariant
            i <= cols@.len(),
            ts@.len() == i as int,
            forall|j: int| 0 <= j < i as int ==> #[trigger] ts@[j].tyv() == cols@[j].typ(),
        decreases cols@.len() - i,
    {
        proof {
            assert(decreases_to!(cols@ => cols@[i as int]));
        }
        ts.push(cols[i].data_type());
        i = i + 1;
    }
    ts
}

/// Zero-row columns for each type in a vector of field types.
fn empty_cols(ts: &Vec<DataType>) -> (r: Vec<Column>)
    requires
        forall|j: int| 0 <= j < ts@.len() ==> (#[trigger] ts@[j].tyv()).concrete(),
        forall|j: int| 0 <= j < ts@.len() ==> (#[trigger] ts@[j].tyv()).wf_type(),
    ensures
        r@.len() == ts@.len(),
        forall|j: int| 0 <= j < ts@.len() ==> #[trigger] r@[j].wf(),
        forall|j: int| 0 <= j < ts@.len() ==> #[trigger] r@[j].vals().len() == 0,
        forall|j: int| 0 <= j < ts@.len() ==> #[trigger] r@[j].typ() == ts@[j].tyv(),
    decreases ts@,
{
    let mut fields: Vec<Column> = Vec::new();
    let mut i: usize = 0;
    while i < ts.len()
        invariant
            i <= ts@.len(),
            fields@.len() == i as int,
            forall|j: int| 0 <= j < ts@.len() ==> (#[trigger] ts@[j].tyv()).concrete(),
            forall|j: int| 0 <= j < ts@.len() ==> (#[trigger] ts@[j].tyv()).wf_type(),
            forall|j: int| 0 <= j < i as int ==> #[trigger] fields@[j].wf(),
            forall|j: int| 0 <= j < i as int ==> #[trigger] fields@[j].vals().len() == 0,
            forall|j: int| 0 <= j < i as int ==> #[trigger] fields@[j].typ() == ts@[j].tyv(),
        decreases ts@.len() - i,
    {
        proof {
            assert(decreases_to!(ts@ => ts@[i as int]));
        }
        fields.push(Column::empty_of(&ts[i]));
        i = i + 1;
    }
    fields
}

/// Slices `[a, b)` of each column in a vector of sibling columns.
fn slice_cols(cols: &Vec<Column>, a: usize, b: usize) -> (r: Vec<Column>)
    requires
        a <= b,
        forall|j: int| 0 <= j < cols@.len() ==> #[trigger] cols@[j].wf(),
        forall|j: int| 0 <= j < cols@.len() ==> b <= #[trigger] cols@[j].vals().len(),
    ensures
        r@.len() == cols@.len(),
        forall|j: int| 0 <= j < cols@.len() ==> #[trigger] r@[j].wf(),
        forall|j: int| 0 <= j < cols@.len() ==> #[trigger] r@[j].typ() == cols@[j].typ(),
        forall|j: int|
            0 <= j < cols@.len() ==> #[trigger] r@[j].vals() == cols@[j].vals().subrange(
                a as int,
                b as int,
            ),
    decreases cols@,
{
    let mut out: Vec<Column> = Vec::new();
    let mut i: usize = 0;
    while i < cols.len()
        invariant
            i <= cols@.len(),
            out@.len() == i as int,
            a <= b,
            forall|j: int| 0 <= j < cols@.len() ==> #[trigger] cols@[j].wf(),
            forall|j: int| 0 <= j < cols@.len() ==> b <= #[trigger] cols@[j].vals().len(),
            forall|j: int| 0 <= j < i as int ==> #[trigger] out@[j].wf(),
            forall|j: int| 0 <= j < i as int ==> #[trigger] out@[j].typ() == cols@[j].typ(),
            forall|j: int|
                0 <= j < i as int ==> #[trigger] out@[j].vals() == cols@[j].vals().subrange(
                    a as int,
                    b as int,
                ),
        decreases cols@.len() - i,
    {
        proof {
            assert(decreases_to!(cols@ => cols@[i as int]));
        }
        out.push(cols[i].sliced(a, b));
        i = i + 1;
    }
    out
}

/// The row at `row` of each column in a vector of sibling columns.
fn index_cols(cols: &Vec<Column>, row: usize) -> (r: Vec<ScalarRef>)
    requires
        forall|j: int| 0 <= j < cols@.len() ==> #[trigger] cols@[j].wf(),
        forall|j: int| 0 <= j < cols@.len() ==> row < #[trigger] cols@[j].vals().len(),
    ensures
        r@.len() == cols@.len(),
        forall|j: int| 0 <= j < cols@.len() ==> #[trigger] r@[j].wf(),
        forall|j: int|
            0 <= j < cols@.len() ==> #[trigger] r@[j].sval() == cols@[j].vals()[row as int],
    decreases cols@,
{
    let mut refs: Vec<ScalarRef> = Vec::new();
    let mut i: usize = 0;
    while i < cols.len()
        invariant
            i <= cols@.len(),
            refs@.len() == i as int,
            forall|j: int| 0 <= j < cols@.len() ==> #[trigger] cols@[j].wf(),
            forall|j: int| 0 <= j < cols@.len() ==> row < #[trigger] cols@[j].vals().len(),
            forall|j: int| 0 <= j < i as int ==> #[trigger] refs@[j].wf(),
            forall|j: int|
                0 <= j < i as int ==> #[trigger] refs@[j].sval() == cols@[j].vals()[row as int],
        decreases cols@.len() - i,
    {
        proof {
            assert(decreases_to!(cols@ => cols@[i as int]));
        }
        match cols[i].index(row) {
            Some(s) => refs.push(s),
            None => vstd::pervasive::unreached(),
        }
        i = i + 1;
    }
    refs
}

/// A row of a string column is a string value.
pub proof fn lemma_string_val(c: &Column, i: int)
    requires
        c is String,
        0 <= i < c.vals().len(),
    ensures
        c.vals()[i] is String,
{
}

/// A lazy, restartable cursor over a column's rows; re-created by each call
/// of `Column::iter`. Stepping yields the rows in order by repeated
/// indexing, and the number of remaining rows is known exactly.
#[derive(Debug)]
pub struct ColumnIterator {
    pub column: Column,
    pub index: usize,
}

impl ColumnIterator {
    /// The cursor is over a well-formed column and within its bounds.
    pub open spec fn wf(&self) -> bool {
        self.column.wf() && self.index <= self.column.vals().len()
    }

    /// The next row, advancing the cursor; `None` once exhausted.
    pub fn next(&mut self) -> (r: Option<ScalarRef>)
        requires
            old(self).wf(),
        ensures
            final(self).wf(),
            final(self).column == old(self).column,
            match r {
                Some(s) => old(self).index < old(self).column.vals().len() && s.sval()
                    == old(self).column.vals()[old(self).index as int] && final(self).index == old(
                    self,
                ).index + 1,
                None => old(self).index >= old(self).column.vals().len() && final(self).index
                    == old(self).index,
            },
    {
        let n = self.column.len();
        if self.index < n {
            let item = self.column.index_unchecked(self.index);
            self.index = self.index + 1;
            Some(item)
        } else {
            None
        }
    }

    /// Exactly how many rows remain.
    pub fn size_hint(&self) -> (r: (usize, Option<usize>))
        requires
            self.wf(),
        ensures
            r.0 == self.column.vals().len() - self.index,
            r.1 == Some(r.0),
    {
        let remain = self.column.len() - self.index;
        (remain, Some(remain))
    }
}

impl Column {
    /// A fresh cursor over this column's rows, starting at the first row.
    pub fn iter(&self) -> (r: ColumnIterator)
        requires
            self.wf(),
        ensures
            r.wf(),
            r.column.vals() == self.vals(),
            r.column.typ() == self.typ(),
            r.index == 0,
    {
        ColumnIterator { column: self.clone(), index: 0 }
    }
}

} // verus!
