//! Byte-count estimates of scalars, columns and kernel values, used for
//! memory accounting. Counts saturate at the machine limit.

use vstd::prelude::*;

use crate::column::Column;
use crate::column::DecimalColumn;
use crate::column::NumberColumn;
use crate::scalar::DecimalScalar;
use crate::scalar::NumberScalar;
use crate::scalar::ScalarRef;
use crate::value::ValueRef;

verus! {

/// A byte count clamped to the machine limit.
pub open spec fn cap(n: int) -> int {
    if n > usize::MAX as int {
        usize::MAX as int
    } else {
        n
    }
}

/// The byte estimate of a column: fixed widths per numeric kind, packed
/// bits for bitmaps, payload plus wide offsets for byte rows, and sums for
/// nested variants. The virtual variants count their stored length word.
pub open spec fn col_mem(c: &Column) -> int
    decreases c,
{
    match c {
        Column::Null { .. } => 8,
        Column::EmptyArray { .. } => 8,
        Column::EmptyMap { .. } => 8,
        Column::Number(nc) => match nc {
            NumberColumn::UInt8(v) => v@.len() as int,
            NumberColumn::UInt16(v) => v@.len() * 2int,
            NumberColumn::UInt32(v) => v@.len() * 4int,
            NumberColumn::UInt64(v) => v@.len() * 8int,
            NumberColumn::Int8(v) => v@.len() as int,
            NumberColumn::Int16(v) => v@.len() * 2int,
            NumberColumn::Int32(v) => v@.len() * 4int,
            NumberColumn::Int64(v) => v@.len() * 8int,
        },
        Column::Decimal(dc) => match dc {
            DecimalColumn::Decimal128(v, _) => v@.len() * 16int,
            DecimalColumn::Decimal256(v, _) => v@.len() * 32int,
        },
        Column::Boolean(v) => (v@.len() + 7int) / 8,
        Column::String(sc) => sc.data@.len() + sc.offsets@.len() * 8int,
        Column::Timestamp(v) => v@.len() * 8int,
        Column::Date(v) => v@.len() * 4int,
        Column::Array(ac) => col_mem(&ac.values) + ac.offsets@.len() * 8int,
        Column::KvMap(ac) => col_mem(&ac.values) + ac.offsets@.len() * 8int,
        Column::Nullable(nc) => col_mem(&nc.column) + (nc.validity@.len() + 7int) / 8,
        Column::Tuple { fields, .. } => cols_mem(fields@),
        Column::Variant(sc) => sc.data@.len() + sc.offsets@.len() * 8int,
    }
}

/// The summed byte estimate of sibling columns.
pub open spec fn cols_mem(cs: Seq<Column>) -> int
    decreases cs,
{
    if cs.len() == 0 {
        0
    } else {
        cols_mem(cs.drop_last()) + col_mem(&cs.last())
    }
}

/// The byte estimate of one scalar value.
pub open spec fn scalar_mem(s: &ScalarRef) -> int
    decreases s,
{
    match s {
        ScalarRef::Null => 0,
        ScalarRef::EmptyArray => 0,
        ScalarRef::EmptyMap => 0,
        ScalarRef::Number(n) => match n {
            NumberScalar::UInt8(_) => 1,
            NumberScalar::UInt16(_) => 2,
            NumberScalar::UInt32(_) => 4,
            NumberScalar::UInt64(_) => 8,
            NumberScalar::Int8(_) => 1,
            NumberScalar::Int16(_) => 2,
            NumberScalar::Int32(_) => 4,
            NumberScalar::Int64(_) => 8,
        },
        ScalarRef::Decimal(d) => match d {
            DecimalScalar::Decimal128(_, _) => 16,
            DecimalScalar::Decimal256(_, _) => 32,
        },
        ScalarRef::Boolean(_) => 1,
        ScalarRef::String(bytes) => bytes@.len() as int,
        ScalarRef::Timestamp(_) => 8,
        ScalarRef::Date(_) => 4,
        ScalarRef::Array(col) => col_mem(col),
        ScalarRef::KvMap(col) => col_mem(col),
        ScalarRef::Tuple(fields) => refs_mem(fields@),
        ScalarRef::Variant(bytes) => bytes@.len() as int,
    }
}

/// The summed byte estimate of sibling scalars.
pub open spec fn refs_mem(ss: Seq<ScalarRef>) -> int
    decreases ss,
{
    if ss.len() == 0 {
        0
    } else {
        refs_mem(ss.drop_last()) + scalar_mem(&ss.last())
    }
}

/// Every byte estimate is non-negative.
pub proof fn lemma_col_mem_nonneg(c: &Column)
    ensures
        col_mem(c) >= 0,
    decreases c,
{
    match c {
        Column::Array(ac) => {
            lemma_col_mem_nonneg(&ac.values);
        }
        Column::KvMap(ac) => {
            lemma_col_mem_nonneg(&ac.values);
        }
        Column::Nullable(nc) => {
            lemma_col_mem_nonneg(&nc.column);
        }
        Column::Tuple { fields, .. } => {
            lemma_cols_mem_nonneg(fields@);
        }
        _ => {},
    }
}

/// The summed estimate of siblings is non-negative.
pub proof fn lemma_cols_mem_nonneg(cs: Seq<Column>)
    ensures
        cols_mem(cs) >= 0,
    decreases cs,
{
    if cs.len() > 0 {
        lemma_cols_mem_nonneg(cs.drop_last());
        lemma_col_mem_nonneg(&cs.last());
    }
}

/// A scalar's byte estimate is non-negative.
pub proof fn lemma_scalar_mem_nonneg(s: &ScalarRef)
    ensures
        scalar_mem(s) >= 0,
    decreases s,
{
    match s {
        ScalarRef::Array(col) => {
            lemma_col_mem_nonneg(col);
        }
        ScalarRef::KvMap(col) => {
            lemma_col_mem_nonneg(col);
        }
        ScalarRef::Tuple(fields) => {
            lemma_refs_mem_nonneg(fields@);
        }
        _ => {},
    }
}

/// The summed estimate of sibling scalars is non-negative.
pub proof fn lemma_refs_mem_nonneg(ss: Seq<ScalarRef>)
    ensures
        refs_mem(ss) >= 0,
    decreases ss,
{
    if ss.len() > 0 {
        lemma_refs_mem_nonneg(ss.drop_last());
        lemma_scalar_mem_nonneg(&ss.last());
    }
}

/// Saturating product of two machine words.
fn sat_mul(a: usize, b: usize) -> (r: usize)
    ensures
        r as int == cap(a * b),
{
    match a.checked_mul(b) {
        Some(v) => v,
        None => usize::MAX,
    }
}

/// Saturating sum of two capped counts.
fn sat_add_cap(a: usize, b: usize, x: Ghost<int>, y: Ghost<int>) -> (r: usize)
    requires
        x@ >= 0,
        y@ >= 0,
        a as int == cap(x@),
        b as int == cap(y@),
    ensures
        r as int == cap(x@ + y@),
{
    a.saturating_add(b)
}

impl Column {
    /// The byte estimate of this column's storage, saturating at the
    /// machine limit.
    pub fn memory_size(&self) -> (r: usize)
        ensures
            r as int == cap(col_mem(self)),
        decreases self, 0int,
    {
        match self {
            Column::Null { .. } => 8,
            Column::EmptyArray { .. } => 8,
            Column::EmptyMap { .. } => 8,
            Column::Number(nc) => match nc {
                NumberColumn::UInt8(v) => v.len(),
                NumberColumn::UInt16(v) => sat_mul(v.len(), 2),
                NumberColumn::UInt32(v) => sat_mul(v.len(), 4),
                NumberColumn::UInt64(v) => sat_mul(v.len(), 8),
                NumberColumn::Int8(v) => v.len(),
                NumberColumn::Int16(v) => sat_mul(v.len(), 2),
                NumberColumn::Int32(v) => sat_mul(v.len(), 4),
                NumberColumn::Int64(v) => sat_mul(v.len(), 8),
            },
            Column::Decimal(dc) => match dc {
                DecimalColumn::Decimal128(v, _) => sat_mul(v.len(), 16),
                DecimalColumn::Decimal256(v, _) => sat_mul(v.len(), 32),
            },
            Column::Boolean(v) => v.len() / 8 + (if v.len() % 8 == 0 {
                0
            } else {
                1
            }),
            Column::String(sc) => {
                let off = sat_mul(sc.offsets.len(), 8);
                sat_add_cap(
                    sc.data.len(),
                    off,
                    Ghost(sc.data@.len() as int),
                    Ghost(sc.offsets@.len() * 8int),
                )
            }
            Column::Timestamp(v) => sat_mul(v.len(), 8),
            Column::Date(v) => sat_mul(v.len(), 4),
            Column::Array(ac) => {
                let inner = ac.values.memory_size();
                let off = sat_mul(ac.offsets.len(), 8);
                proof {
                    lemma_col_mem_nonneg(&ac.values);
                }
                sat_add_cap(inner, off, Ghost(col_mem(&ac.values)), Ghost(ac.offsets@.len() * 8int))
            }
            Column::KvMap(ac) => {
                let inner = ac.values.memory_size();
                let off = sat_mul(ac.offsets.len(), 8);
                proof {
                    lemma_col_mem_nonneg(&ac.values);
                }
                sat_add_cap(inner, off, Ghost(col_mem(&ac.values)), Ghost(ac.offsets@.len() * 8int))
            }
            Column::Nullable(nc) => {
                let inner = nc.column.memory_size();
                let n = nc.validity.len();
                let bits = n / 8 + (if n % 8 == 0 {
                    0
                } else {
                    1
                });
                proof {
                    lemma_col_mem_nonneg(&nc.column);
                }
                sat_add_cap(
                    inner,
                    bits,
                    Ghost(col_mem(&nc.column)),
                    Ghost((nc.validity@.len() + 7int) / 8),
                )
            }
            Column::Tuple { fields, .. } => cols_mem_of(fields),
            Column::Variant(sc) => {
                let off = sat_mul(sc.offsets.len(), 8);
                sat_add_cap(
                    sc.data.len(),
                    off,
                    Ghost(sc.data@.len() as int),
                    Ghost(sc.offsets@.len() * 8int),
                )
            }
        }
    }
}

/// The summed byte estimate of the sibling columns of a tuple.
#[verifier::loop_isolation(false)]
fn cols_mem_of(fields: &Vec<Column>) -> (r: usize)
    ensures
        r as int == cap(cols_mem(fields@)),
    decreases fields@, 1int,
{
    let mut acc: usize = 0;
    let mut i: usize = 0;
    proof {
        assert(cols_mem(fields@.subrange(0, 0)) == 0) by {
            assert(fields@.subrange(0, 0).len() == 0);
        }
    }
    while i < fields.len()
        invariant
            i <= fields@.len(),
            acc as int == cap(cols_mem(fields@.subrange(0, i as int))),
            cols_mem(fields@.subrange(0, i as int)) >= 0,
        decreases fields@.len() - i,
    {
        proof {
            assert(decreases_to!(fields@ => fields@[i as int]));
        }
        let part = fields[i].memory_size();
        proof {
            lemma_col_mem_nonneg(&fields@[i as int]);
            assert(fields@.subrange(0, i + 1).drop_last() =~= fields@.subrange(0, i as int));
            assert(fields@.subrange(0, i + 1).last() == fields@[i as int]);
        }
        acc = sat_add_cap(
            acc,
            part,
            Ghost(cols_mem(fields@.subrange(0, i as int))),
            Ghost(col_mem(&fields@[i as int])),
        );
        i = i + 1;
    }
    proof {
        assert(fields@.subrange(0, fields@.len() as int) =~= fields@);
    }
    acc
}

impl ScalarRef {
    /// The byte estimate of this value, saturating at the machine limit:
    /// fixed widths for fixed-width kinds, payload lengths for byte values,
    /// and sums for nested values.
    pub fn memory_size(&self) -> (r: usize)
        ensures
            r as int == cap(scalar_mem(self)),
        decreases self, 0int,
    {
        match self {
            ScalarRef::Null => 0,
            ScalarRef::EmptyArray => 0,
            ScalarRef::EmptyMap => 0,
            ScalarRef::Number(n) => match n {
                NumberScalar::UInt8(_) => 1,
                NumberScalar::UInt16(_) => 2,
                NumberScalar::UInt32(_) => 4,
                NumberScalar::UInt64(_) => 8,
                NumberScalar::Int8(_) => 1,
                NumberScalar::Int16(_) => 2,
                NumberScalar::Int32(_) => 4,
                NumberScalar::Int64(_) => 8,
            },
            ScalarRef::Decimal(d) => match d {
                DecimalScalar::Decimal128(_, _) => 16,
                DecimalScalar::Decimal256(_, _) => 32,
            },
            ScalarRef::Boolean(_) => 1,
            ScalarRef::String(bytes) => bytes.len(),
            ScalarRef::Timestamp(_) => 8,
            ScalarRef::Date(_) => 4,
            ScalarRef::Array(col) => col.memory_size(),
            ScalarRef::KvMap(col) => col.memory_size(),
            ScalarRef::Tuple(fields) => refs_mem_of(fields),
            ScalarRef::Variant(bytes) => bytes.len(),
        }
    }
}

/// The summed byte estimate of the sibling scalars of a tuple.
#[verifier::loop_isolation(false)]
fn refs_mem_of(fields: &Vec<ScalarRef>) -> (r: usize)
    ensures
        r as int == cap(refs_mem(fields@)),
    decreases fields@, 1int,
{
    let mut acc: usize = 0;
    let mut i: usize = 0;
    proof {
        assert(refs_mem(fields@.subrange(0, 0)) == 0) by {
            assert(fields@.subrange(0, 0).len() == 0);
        }
    }
    while i < fields.len()
        invariant
            i <= fields@.len(),
            acc as int == cap(refs_mem(fields@.subrange(0, i as int))),
            refs_mem(fields@.subrange(0, i as int)) >= 0,
        decreases fields@.len() - i,
    {
        proof {
            assert(decreases_to!(fields@ => fields@[i as int]));
        }
        let part = fields[i].memory_size();
        proof {
            lemma_scalar_mem_nonneg(&fields@[i as int]);
            assert(fields@.subrange(0, i + 1).drop_last() =~= fields@.subrange(0, i as int));
            assert(fields@.subrange(0, i + 1).last() == fields@[i as int]);
        }
        acc = sat_add_cap(
            acc,
            part,
            Ghost(refs_mem(fields@.subrange(0, i as int))),
            Ghost(scalar_mem(&fields@[i as int])),
        );
        i = i + 1;
    }
    proof {
        assert(fields@.subrange(0, fields@.len() as int) =~= fields@);
    }
    acc
}

impl ValueRef {
    /// The byte estimate of this kernel value: the scalar's, or the
    /// column's.
    pub fn memory_size(&self) -> (r: usize)
        ensures
            match self {
                ValueRef::Scalar(s) => r as int == cap(scalar_mem(s)),
                ValueRef::Column(c) => r as int == cap(col_mem(c)),
            },
    {
        match self {
            ValueRef::Scalar(scalar) => scalar.memory_size(),
            ValueRef::Column(c) => c.memory_size(),
        }
    }
}

} // verus!
