//! The closed lattice of logical types that a `Column` or `Scalar` can carry,
//! together with its ghost mirror `TypeV` used by contracts.

use vstd::prelude::*;

verus! {

/// Physical kind of a fixed-width integer number.
#[derive(Clone, Copy, Debug, PartialEq, Eq, Structural)]
pub enum NumberDataType {
    UInt8,
    UInt16,
    UInt32,
    UInt64,
    Int8,
    Int16,
    Int32,
    Int64,
}

/// Precision and scale of a decimal type.
#[derive(Clone, Copy, Debug, PartialEq, Eq, Structural)]
pub struct DecimalSize {
    pub precision: u8,
    pub scale: u8,
}

/// Width of a decimal type: 128-bit or 256-bit.
#[derive(Clone, Copy, Debug, PartialEq, Eq, Structural)]
pub enum DecimalDataType {
    Decimal128(DecimalSize),
    Decimal256(DecimalSize),
}

/// A logical data type. `Generic` is a placeholder used only inside
/// polymorphic kernel signatures and is never materialized in a column.
#[derive(Debug)]
pub enum DataType {
    Null,
    EmptyArray,
    EmptyMap,
    Boolean,
    String,
    Number(NumberDataType),
    Decimal(DecimalDataType),
    Timestamp,
    Date,
    Nullable(Box<DataType>),
    Array(Box<DataType>),
    KvMap(Box<DataType>),
    Tuple(Vec<DataType>),
    Variant,
    Generic(usize),
}

/// Ghost mirror of `DataType`, the value of `DataType::view`.
#[verifier::ext_equal]
pub ghost enum TypeV {
    Null,
    EmptyArray,
    EmptyMap,
    Boolean,
    String,
    Number(NumberDataType),
    Decimal(DecimalDataType),
    Timestamp,
    Date,
    Nullable(Box<TypeV>),
    Array(Box<TypeV>),
    KvMap(Box<TypeV>),
    Tuple(Seq<TypeV>),
    Variant,
    Generic(nat),
}

/// Ghost mirrors of a sequence of types, elementwise.
pub open spec fn tyv_seq(ts: Seq<DataType>) -> Seq<TypeV>
    decreases ts,
{
    if ts.len() == 0 {
        Seq::empty()
    } else {
        tyv_seq(ts.drop_last()).push(ts.last().tyv())
    }
}

/// `tyv_seq` maps the sequence elementwise.
pub proof fn lemma_tyv_seq(ts: Seq<DataType>)
    ensures
        tyv_seq(ts).len() == ts.len(),
        forall|i: int| 0 <= i < ts.len() ==> #[trigger] tyv_seq(ts)[i] == ts[i].tyv(),
    decreases ts.len(),
{
    if ts.len() > 0 {
        lemma_tyv_seq(ts.drop_last());
    }
}

impl DataType {
    /// The ghost mirror of this type.
    pub open spec fn tyv(&self) -> TypeV
        decreases self,
    {
        match self {
            DataType::Null => TypeV::Null,
            DataType::EmptyArray => TypeV::EmptyArray,
            DataType::EmptyMap => TypeV::EmptyMap,
            DataType::Boolean => TypeV::Boolean,
            DataType::String => TypeV::String,
            DataType::Number(n) => TypeV::Number(*n),
            DataType::Decimal(d) => TypeV::Decimal(*d),
            DataType::Timestamp => TypeV::Timestamp,
            DataType::Date => TypeV::Date,
            DataType::Nullable(t) => TypeV::Nullable(Box::new(t.tyv())),
            DataType::Array(t) => TypeV::Array(Box::new(t.tyv())),
            DataType::KvMap(t) => TypeV::KvMap(Box::new(t.tyv())),
            DataType::Tuple(ts) => TypeV::Tuple(tyv_seq(ts@)),
            DataType::Variant => TypeV::Variant,
            DataType::Generic(i) => TypeV::Generic(*i as nat),
        }
    }
}

impl View for DataType {
    type V = TypeV;

    open spec fn view(&self) -> TypeV {
        self.tyv()
    }
}

impl TypeV {
    /// A type is concrete when no `Generic` placeholder occurs anywhere in it.
    pub open spec fn concrete(self) -> bool
        decreases self,
    {
        match self {
            TypeV::Nullable(t) => t.concrete(),
            TypeV::Array(t) => t.concrete(),
            TypeV::KvMap(t) => t.concrete(),
            TypeV::Tuple(ts) => tys_concrete(ts),
            TypeV::Generic(_) => false,
            _ => true,
        }
    }

    /// A type that a column can materialize: a `Nullable` wrapper never
    /// nests directly inside another, and a map's element type is a
    /// two-field tuple.
    pub open spec fn wf_type(self) -> bool
        decreases self,
    {
        match self {
            TypeV::Nullable(t) => t.wf_type() && !(*t is Nullable) && !(*t is Null),
            TypeV::Array(t) => t.wf_type(),
            TypeV::KvMap(t) => t.wf_type() && (*t matches TypeV::Tuple(ts) && ts.len() == 2),
            TypeV::Tuple(ts) => tys_wf(ts),
            _ => true,
        }
    }

    /// Strip one `Nullable` wrapper, if present.
    pub open spec fn unwrap_nullable(self) -> TypeV {
        match self {
            TypeV::Nullable(t) => *t,
            _ => self,
        }
    }
}

/// All types in the sequence are concrete.
pub open spec fn tys_concrete(ts: Seq<TypeV>) -> bool
    decreases ts,
{
    ts.len() == 0 || (tys_concrete(ts.drop_last()) && ts.last().concrete())
}

/// `tys_concrete` holds elementwise.
pub proof fn lemma_tys_concrete(ts: Seq<TypeV>)
    requires
        tys_concrete(ts),
    ensures
        forall|i: int| 0 <= i < ts.len() ==> #[trigger] ts[i].concrete(),
    decreases ts.len(),
{
    if ts.len() > 0 {
        lemma_tys_concrete(ts.drop_last());
        assert forall|i: int| 0 <= i < ts.len() implies #[trigger] ts[i].concrete() by {
            if i < ts.len() - 1 {
                assert(ts.drop_last()[i].concrete());
                assert(ts.drop_last()[i] == ts[i]);
            } else {
                assert(ts[i] == ts.last());
            }
        }
    }
}

/// `tys_concrete` from elementwise facts.
pub proof fn lemma_tys_concrete_intro(ts: Seq<TypeV>)
    requires
        forall|i: int| 0 <= i < ts.len() ==> #[trigger] ts[i].concrete(),
    ensures
        tys_concrete(ts),
    decreases ts.len(),
{
    if ts.len() > 0 {
        assert forall|i: int| 0 <= i < ts.drop_last().len() implies
            #[trigger] ts.drop_last()[i].concrete() by {
            assert(ts.drop_last()[i] == ts[i]);
            assert(ts[i].concrete());
        }
        lemma_tys_concrete_intro(ts.drop_last());
        assert(ts.last() == ts[ts.len() - 1]);
        assert(ts[ts.len() - 1].concrete());
    }
}

/// All types in the sequence satisfy `wf_type`.
pub open spec fn tys_wf(ts: Seq<TypeV>) -> bool
    decreases ts,
{
    ts.len() == 0 || (tys_wf(ts.drop_last()) && ts.last().wf_type())
}

/// `tys_wf` holds elementwise.
pub proof fn lemma_tys_wf(ts: Seq<TypeV>)
    requires
        tys_wf(ts),
    ensures
        forall|i: int| 0 <= i < ts.len() ==> #[trigger] ts[i].wf_type(),
    decreases ts.len(),
{
    if ts.len() > 0 {
        lemma_tys_wf(ts.drop_last());
        assert forall|i: int| 0 <= i < ts.len() implies #[trigger] ts[i].wf_type() by {
            if i < ts.len() - 1 {
                assert(ts.drop_last()[i].wf_type());
                assert(ts.drop_last()[i] == ts[i]);
            } else {
                assert(ts[i] == ts.last());
            }
        }
    }
}

/// `tys_wf` from elementwise facts.
pub proof fn lemma_tys_wf_intro(ts: Seq<TypeV>)
    requires
        forall|i: int| 0 <= i < ts.len() ==> #[trigger] ts[i].wf_type(),
    ensures
        tys_wf(ts),
    decreases ts.len(),
{
    if ts.len() > 0 {
        assert forall|i: int| 0 <= i < ts.drop_last().len() implies
            #[trigger] ts.drop_last()[i].wf_type() by {
            assert(ts.drop_last()[i] == ts[i]);
            assert(ts[i].wf_type());
        }
        lemma_tys_wf_intro(ts.drop_last());
        assert(ts.last() == ts[ts.len() - 1]);
        assert(ts[ts.len() - 1].wf_type());
    }
}

impl DataType {
    /// Whether this type is a `Nullable` wrapper.
    pub fn is_nullable(&self) -> (r: bool)
        ensures
            r == (self@ is Nullable),
    {
        match self {
            DataType::Nullable(_) => true,
            _ => false,
        }
    }
}

/// Deep copy of a vector of types, preserving each element's meaning.
fn clone_types(ts: &Vec<DataType>) -> (r: Vec<DataType>)
    ensures
        r@.len() == ts@.len(),
        forall|j: int| 0 <= j < ts@.len() ==> #[trigger] r@[j].tyv() == ts@[j].tyv(),
    decreases ts@,
{
    let mut fields: Vec<DataType> = Vec::new();
    let mut i: usize = 0;
    while i < ts.len()
        invariant
            i <= ts.len(),
            fields@.len() == i as int,
            forall|j: int| 0 <= j < i as int ==> #[trigger] fields@[j].tyv() == ts@[j].tyv(),
        decreases ts.len() - i,
    {
        proof {
            assert(decreases_to!(ts@ => ts@[i as int]));
        }
        fields.push(ts[i].clone());
        i = i + 1;
    }
    fields
}

impl Clone for DataType {
    /// Deep copy with an identical logical meaning.
    fn clone(&self) -> (r: Self)
        ensures
            r@ == self@,
        decreases self,
    {
        match self {
            DataType::Null => DataType::Null,
            DataType::EmptyArray => DataType::EmptyArray,
            DataType::EmptyMap => DataType::EmptyMap,
            DataType::Boolean => DataType::Boolean,
            DataType::String => DataType::String,
            DataType::Number(n) => DataType::Number(*n),
            DataType::Decimal(d) => DataType::Decimal(*d),
            DataType::Timestamp => DataType::Timestamp,
            DataType::Date => DataType::Date,
            DataType::Nullable(t) => DataType::Nullable(Box::new((**t).clone())),
            DataType::Array(t) => DataType::Array(Box::new((**t).clone())),
            DataType::KvMap(t) => DataType::KvMap(Box::new((**t).clone())),
            DataType::Tuple(ts) => {
                let fields = clone_types(ts);
                proof {
                    lemma_tyv_seq(fields@);
                    lemma_tyv_seq(ts@);
                    assert(tyv_seq(fields@) =~= tyv_seq(ts@));
                }
                DataType::Tuple(fields)
            }
            DataType::Variant => DataType::Variant,
            DataType::Generic(i) => DataType::Generic(*i),
        }
    }
}

/// Whether two data types are the same logical type.
#[verifier::loop_isolation(false)]
pub fn ty_eq(a: &DataType, b: &DataType) -> (r: bool)
    ensures
        r == (a@ == b@),
    decreases a, 1int,
{
    match (a, b) {
        (DataType::Null, DataType::Null) => true,
        (DataType::EmptyArray, DataType::EmptyArray) => true,
        (DataType::EmptyMap, DataType::EmptyMap) => true,
        (DataType::Boolean, DataType::Boolean) => true,
        (DataType::String, DataType::String) => true,
        (DataType::Number(k1), DataType::Number(k2)) => {
            let same = match (k1, k2) {
                (NumberDataType::UInt8, NumberDataType::UInt8) => true,
                (NumberDataType::UInt16, NumberDataType::UInt16) => true,
                (NumberDataType::UInt32, NumberDataType::UInt32) => true,
                (NumberDataType::UInt64, NumberDataType::UInt64) => true,
                (NumberDataType::Int8, NumberDataType::Int8) => true,
                (NumberDataType::Int16, NumberDataType::Int16) => true,
                (NumberDataType::Int32, NumberDataType::Int32) => true,
                (NumberDataType::Int64, NumberDataType::Int64) => true,
                _ => false,
            };
            same
        }
        (DataType::Decimal(d1), DataType::Decimal(d2)) => match (d1, d2) {
            (DecimalDataType::Decimal128(s1), DecimalDataType::Decimal128(s2)) => s1.precision
                == s2.precision && s1.scale == s2.scale,
            (DecimalDataType::Decimal256(s1), DecimalDataType::Decimal256(s2)) => s1.precision
                == s2.precision && s1.scale == s2.scale,
            _ => false,
        },
        (DataType::Timestamp, DataType::Timestamp) => true,
        (DataType::Date, DataType::Date) => true,
        (DataType::Nullable(t1), DataType::Nullable(t2)) => ty_eq(t1, t2),
        (DataType::Array(t1), DataType::Array(t2)) => ty_eq(t1, t2),
        (DataType::KvMap(t1), DataType::KvMap(t2)) => ty_eq(t1, t2),
        (DataType::Tuple(ts1), DataType::Tuple(ts2)) => {
            proof {
                lemma_tyv_seq(ts1@);
                lemma_tyv_seq(ts2@);
            }
            tys_eq(ts1, ts2)
        }
        (DataType::Variant, DataType::Variant) => true,
        (DataType::Generic(i1), DataType::Generic(i2)) => i1 == i2,
        _ => false,
    }
}

/// Whether two field type lists are pairwise the same.
#[verifier::loop_isolation(false)]
fn tys_eq(a: &Vec<DataType>, b: &Vec<DataType>) -> (r: bool)
    ensures
        r == (tyv_seq(a@) == tyv_seq(b@)),
    decreases a@, 0int,
{
    proof {
        lemma_tyv_seq(a@);
        lemma_tyv_seq(b@);
    }
    if a.len() != b.len() {
        proof {
            assert(tyv_seq(a@).len() != tyv_seq(b@).len());
        }
        return false;
    }
    let mut i: usize = 0;
    while i < a.len()
        invariant
            i <= a@.len(),
            a@.len() == b@.len(),
            forall|j: int| 0 <= j < i as int ==> #[trigger] a@[j].tyv() == b@[j].tyv(),
        decreases a@.len() - i,
    {
        proof {
            assert(decreases_to!(a@ => a@[i as int]));
        }
        if !ty_eq(&a[i], &b[i]) {
            proof {
                assert(tyv_seq(a@)[i as int] != tyv_seq(b@)[i as int]);
            }
            return false;
        }
        i = i + 1;
    }
    proof {
        assert(tyv_seq(a@) =~= tyv_seq(b@));
    }
    true
}

} // verus!
