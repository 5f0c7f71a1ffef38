//! The scalar-or-column union that vectorized kernels take and return: a
//! broadcast scalar stands for every row without materializing a column.

use core::cmp::Ordering;

use vstd::prelude::*;

use crate::builder::ty_fits;
use crate::builder::ColumnBuilder;
use crate::column::Column;
use crate::ord::seq_cmp_nf;
use crate::scalar::Scalar;
use crate::scalar::ScalarRef;
use crate::types::DataType;

verus! {

/// An owned value for a kernel: one scalar broadcast over every row, or a
/// full column.
#[derive(Debug)]
pub enum Value {
    Scalar(Scalar),
    Column(Column),
}

/// A borrowed-view value for a kernel, mirroring `Value`.
#[derive(Debug)]
pub enum ValueRef {
    Scalar(ScalarRef),
    Column(Column),
}

impl ValueRef {
    /// Whether this value and its payload are well formed.
    pub open spec fn wf(&self) -> bool {
        match self {
            ValueRef::Scalar(s) => s.wf(),
            ValueRef::Column(c) => c.wf(),
        }
    }

    /// Take ownership of the view.
    pub fn to_owned(self) -> (r: Value)
        ensures
            self is Scalar ==> (r matches Value::Scalar(s) && s.sval() == self->Scalar_0.sval()
                && (s.wf() <==> self->Scalar_0.wf())),
            self is Column ==> r == Value::Column(self->Column_0),
    {
        match self {
            ValueRef::Scalar(scalar) => Value::Scalar(scalar.to_owned()),
            ValueRef::Column(col) => Value::Column(col),
        }
    }

    /// The number of rows this value stands for: one for a broadcast
    /// scalar, the column's row count otherwise.
    pub fn len(&self) -> (r: usize)
        requires
            self.wf(),
        ensures
            self is Scalar ==> r == 1,
            self is Column ==> r == self->Column_0.vals().len(),
    {
        match self {
            ValueRef::Scalar(_) => 1,
            ValueRef::Column(col) => col.len(),
        }
    }

    /// The value at one row: the scalar itself for a broadcast scalar
    /// (whatever the row), or the column's bounds-checked row.
    pub fn index(&self, index: usize) -> (r: Option<ScalarRef>)
        requires
            self.wf(),
        ensures
            self is Scalar ==> (r matches Some(s) && s.sval() == self->Scalar_0.sval()),
            self is Column ==> match r {
                Some(s) => index < self->Column_0.vals().len() && s.sval()
                    == self->Column_0.vals()[index as int] && s.wf(),
                None => index >= self->Column_0.vals().len(),
            },
    {
        match self {
            ValueRef::Scalar(scalar) => Some(scalar.clone()),
            ValueRef::Column(col) => col.index(index),
        }
    }

    /// The value at one row; the caller guarantees the row is in range.
    pub fn index_unchecked(&self, index: usize) -> (r: ScalarRef)
        requires
            self.wf(),
            self is Column ==> index < self->Column_0.vals().len(),
        ensures
            self is Scalar ==> r.sval() == self->Scalar_0.sval(),
            self is Column ==> r.sval() == self->Column_0.vals()[index as int],
    {
        match self {
            ValueRef::Scalar(scalar) => scalar.clone(),
            ValueRef::Column(col) => col.index_unchecked(index),
        }
    }

    /// Semantic equality treating a scalar as broadcast: scalar against
    /// scalar compares directly, column against column row-wise, and a
    /// scalar equals a column only if the scalar fits the column's type and
    /// every row equals it. Mismatched operands are unequal.
    pub fn semantically_eq(&self, other: &ValueRef) -> (r: bool)
        requires
            self.wf(),
            other.wf(),
        ensures
            match (self, other) {
                (ValueRef::Scalar(s1), ValueRef::Scalar(s2)) => r == (crate::ord::gated_cmp(
                    s1,
                    s2,
                ) == Some(Ordering::Equal)),
                (ValueRef::Column(c1), ValueRef::Column(c2)) => r == (crate::ord::gated_col_cmp(
                    c1,
                    c2,
                ) == Some(Ordering::Equal)),
                (ValueRef::Scalar(s), ValueRef::Column(c)) => r == (if ty_fits(s.rtyp(), c.typ()) {
                    seq_cmp_nf(Seq::new(c.vals().len(), |i: int| s.sval()), c.vals()) == Some(
                        Ordering::Equal,
                    )
                } else {
                    false
                }),
                (ValueRef::Column(c), ValueRef::Scalar(s)) => r == (if ty_fits(s.rtyp(), c.typ()) {
                    seq_cmp_nf(c.vals(), Seq::new(c.vals().len(), |i: int| s.sval())) == Some(
                        Ordering::Equal,
                    )
                } else {
                    false
                }),
            },
    {
        match (self, other) {
            (ValueRef::Scalar(s1), ValueRef::Scalar(s2)) => s1.eq(s2),
            (ValueRef::Column(c1), ValueRef::Column(c2)) => c1.eq(c2),
            (ValueRef::Scalar(s), ValueRef::Column(c)) => {
                let st = s.infer_data_type();
                let ty = c.data_type();
                if !crate::builder::ty_fits_check(&st, &ty) {
                    return false;
                }
                proof {
                    c.lemma_typ_wf();
                    crate::builder::lemma_val_fits_ty(s, c.typ());
                }
                let n = c.len();
                let b = ColumnBuilder::repeat(s, n, &ty);
                let full = b.build();
                full.eq(c)
            }
            (ValueRef::Column(c), ValueRef::Scalar(s)) => {
                let st = s.infer_data_type();
                let ty = c.data_type();
                if !crate::builder::ty_fits_check(&st, &ty) {
                    return false;
                }
                proof {
                    c.lemma_typ_wf();
                    crate::builder::lemma_val_fits_ty(s, c.typ());
                }
                let n = c.len();
                let b = ColumnBuilder::repeat(s, n, &ty);
                let full = b.build();
                c.eq(&full)
            }
        }
    }
}

impl Value {
    /// A borrowed view of this value.
    pub fn as_ref(&self) -> (r: ValueRef)
        ensures
            self is Scalar ==> (r matches ValueRef::Scalar(s) && s.sval()
                == self->Scalar_0.sval() && (s.wf() <==> self->Scalar_0.wf())),
            self is Column ==> (r matches ValueRef::Column(c) && c.vals()
                == self->Column_0.vals() && c.typ() == self->Column_0.typ() && (c.wf()
                <==> self->Column_0.wf())),
    {
        match self {
            Value::Scalar(scalar) => ValueRef::Scalar(scalar.as_ref()),
            Value::Column(col) => ValueRef::Column(col.clone()),
        }
    }

    /// Materialize this value as a full column of `num_rows` rows: a
    /// broadcast scalar is repeated, a column is handed back as is.
    pub fn convert_to_full_column(&self, ty: &DataType, num_rows: usize) -> (r: Column)
        requires
            match self {
                Value::Scalar(s) => s.wf() && ty@.concrete() && ty@.wf_type() && ty_fits(
                    s.styp(),
                    ty@,
                ),
                Value::Column(c) => c.wf(),
            },
        ensures
            self is Scalar ==> (r.wf() && r.typ() == ty@ && r.vals() == Seq::new(
                num_rows as nat,
                |i: int| self->Scalar_0.sval(),
            )),
            self is Column ==> (r.vals() == self->Column_0.vals() && r.typ()
                == self->Column_0.typ() && (r.wf() <==> self->Column_0.wf())),
    {
        match self {
            Value::Scalar(s) => {
                let sr = s.as_ref();
                proof {
                    crate::builder::lemma_val_fits_ty(&sr, ty@);
                }
                let b = ColumnBuilder::repeat(&sr, num_rows, ty);
                let r = b.build();
                proof {
                    assert(r.vals() =~= Seq::new(num_rows as nat, |i: int| s.sval()));
                }
                r
            }
            Value::Column(c) => c.clone(),
        }
    }
}

impl ValueRef {
    /// The domain of this value: a broadcast scalar's domain against the
    /// declared type, or the column's own domain.
    pub fn domain(&self, data_type: &DataType) -> (r: crate::domain::Domain)
        requires
            self.wf(),
            match self {
                ValueRef::Scalar(s) => crate::domain::scalar_domain_defined(s),
                ValueRef::Column(c) => crate::domain::domain_defined(c),
            },
        ensures
            match self {
                ValueRef::Scalar(s) => crate::domain::scalar_domain_ok(&r, s, data_type@),
                ValueRef::Column(c) => crate::domain::domain_ok(&r, c),
            },
    {
        match self {
            ValueRef::Scalar(scalar) => scalar.domain(data_type),
            ValueRef::Column(col) => col.domain(),
        }
    }
}

impl ValueRef {
    /// Narrow this generically-typed value to the declared concrete type:
    /// the dispatch boundary a kernel crosses to recover typed access. The
    /// value is handed back when its runtime type matches the declared
    /// type (a broadcast null matches any nullable type); `None` otherwise.
    pub fn try_downcast(&self, data_type: &DataType) -> (r: Option<ValueRef>)
        requires
            self.wf(),
        ensures
            match self {
                ValueRef::Scalar(s) => if ty_fits(s.rtyp(), data_type@) {
                    r matches Some(v) && (v matches ValueRef::Scalar(s2) && s2.sval() == s.sval()
                        && s2.wf())
                } else {
                    r is None
                },
                ValueRef::Column(c) => if c.typ() == data_type@ {
                    r matches Some(v) && (v matches ValueRef::Column(c2) && c2.vals() == c.vals()
                        && c2.typ() == c.typ() && c2.wf())
                } else {
                    r is None
                },
            },
    {
        match self {
            ValueRef::Scalar(s) => {
                let st = s.infer_data_type();
                if crate::builder::ty_fits_check(&st, data_type) {
                    Some(ValueRef::Scalar(s.clone()))
                } else {
                    None
                }
            }
            ValueRef::Column(c) => {
                let dt = c.data_type();
                if crate::types::ty_eq(&dt, data_type) {
                    Some(ValueRef::Column(c.clone()))
                } else {
                    None
                }
            }
        }
    }
}

impl Value {
    /// Narrow this owned value to the declared concrete type; see
    /// `ValueRef::try_downcast`.
    pub fn try_downcast(&self, data_type: &DataType) -> (r: Option<Value>)
        requires
            match self {
                Value::Scalar(s) => s.wf(),
                Value::Column(c) => c.wf(),
            },
        ensures
            match self {
                Value::Scalar(s) => if ty_fits(s.styp(), data_type@) {
                    r matches Some(v) && (v matches Value::Scalar(s2) && s2.sval() == s.sval()
                        && s2.wf())
                } else {
                    r is None
                },
                Value::Column(c) => if c.typ() == data_type@ {
                    r matches Some(v) && (v matches Value::Column(c2) && c2.vals() == c.vals()
                        && c2.typ() == c.typ() && c2.wf())
                } else {
                    r is None
                },
            },
    {
        match self {
            Value::Scalar(s) => {
                let sr = s.as_ref();
                let st = sr.infer_data_type();
                if crate::builder::ty_fits_check(&st, data_type) {
                    Some(Value::Scalar(s.clone()))
                } else {
                    None
                }
            }
            Value::Column(c) => {
                let dt = c.data_type();
                if crate::types::ty_eq(&dt, data_type) {
                    Some(Value::Column(c.clone()))
                } else {
                    None
                }
            }
        }
    }
}

} // verus!
