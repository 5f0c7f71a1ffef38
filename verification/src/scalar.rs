//! Owned (`Scalar`) and borrowed-view (`ScalarRef`) logical values, and the
//! ghost value model `Val` that all contracts speak about.

use vstd::prelude::*;

use crate::column::Column;
use crate::types::DataType;
use crate::types::DecimalDataType;
use crate::types::DecimalSize;
use crate::types::NumberDataType;
use crate::types::TypeV;

verus! {

/// A single number value, one variant per physical integer kind.
#[derive(Clone, Copy, Debug, PartialEq, Eq, Structural)]
pub enum NumberScalar {
    UInt8(u8),
    UInt16(u16),
    UInt32(u32),
    UInt64(u64),
    Int8(i8),
    Int16(i16),
    Int32(i32),
    Int64(i64),
}

/// A signed 256-bit integer stored as a high signed half and a low unsigned
/// half; ordered lexicographically by `(hi, lo)`.
#[derive(Clone, Copy, Debug, PartialEq, Eq, Structural)]
pub struct I256 {
    pub hi: i128,
    pub lo: u128,
}

/// A single decimal value with its precision and scale.
#[derive(Clone, Copy, Debug, PartialEq, Eq, Structural)]
pub enum DecimalScalar {
    Decimal128(i128, DecimalSize),
    Decimal256(I256, DecimalSize),
}

/// The ghost model of one logical value. A row of a `Column`, an owned
/// `Scalar` and a borrowed `ScalarRef` all abstract to a `Val`.
#[verifier::ext_equal]
pub ghost enum Val {
    Null,
    EmptyArray,
    EmptyMap,
    Number(NumberScalar),
    Decimal(DecimalScalar),
    Boolean(bool),
    String(Seq<u8>),
    Timestamp(i64),
    Date(i32),
    Array(Seq<Val>),
    KvMap(Seq<Val>),
    Tuple(Seq<Val>),
    Variant(Seq<u8>),
}

impl NumberScalar {
    /// The physical kind of this number.
    pub open spec fn kind(self) -> NumberDataType {
        match self {
            NumberScalar::UInt8(_) => NumberDataType::UInt8,
            NumberScalar::UInt16(_) => NumberDataType::UInt16,
            NumberScalar::UInt32(_) => NumberDataType::UInt32,
            NumberScalar::UInt64(_) => NumberDataType::UInt64,
            NumberScalar::Int8(_) => NumberDataType::Int8,
            NumberScalar::Int16(_) => NumberDataType::Int16,
            NumberScalar::Int32(_) => NumberDataType::Int32,
            NumberScalar::Int64(_) => NumberDataType::Int64,
        }
    }

    /// The mathematical value of this number.
    pub open spec fn ival(self) -> int {
        match self {
            NumberScalar::UInt8(v) => v as int,
            NumberScalar::UInt16(v) => v as int,
            NumberScalar::UInt32(v) => v as int,
            NumberScalar::UInt64(v) => v as int,
            NumberScalar::Int8(v) => v as int,
            NumberScalar::Int16(v) => v as int,
            NumberScalar::Int32(v) => v as int,
            NumberScalar::Int64(v) => v as int,
        }
    }
}

impl I256 {
    /// Lexicographic signed order on `(hi, lo)`.
    pub open spec fn le(self, other: I256) -> bool {
        self.hi < other.hi || (self.hi == other.hi && self.lo <= other.lo)
    }
}

impl DecimalScalar {
    /// The decimal type of this value.
    pub open spec fn kind(self) -> DecimalDataType {
        match self {
            DecimalScalar::Decimal128(_, size) => DecimalDataType::Decimal128(size),
            DecimalScalar::Decimal256(_, size) => DecimalDataType::Decimal256(size),
        }
    }
}

/// One owned logical value.
#[derive(Debug)]
pub enum Scalar {
    Null,
    EmptyArray,
    EmptyMap,
    Number(NumberScalar),
    Decimal(DecimalScalar),
    Timestamp(i64),
    Date(i32),
    Boolean(bool),
    String(Vec<u8>),
    Array(Column),
    KvMap(Column),
    Tuple(Vec<Scalar>),
    Variant(Vec<u8>),
}

/// A read-only view of one logical value, with the same variant shape as
/// `Scalar`. String and variant payloads are materialized byte vectors and
/// nested columns are owned, so the view is self-contained.
#[derive(Debug)]
pub enum ScalarRef {
    Null,
    EmptyArray,
    EmptyMap,
    Number(NumberScalar),
    Decimal(DecimalScalar),
    Boolean(bool),
    String(Vec<u8>),
    Timestamp(i64),
    Date(i32),
    Array(Column),
    KvMap(Column),
    Tuple(Vec<ScalarRef>),
    Variant(Vec<u8>),
}

/// Ghost model of a sequence of owned scalars, elementwise.
pub open spec fn svals(ss: Seq<Scalar>) -> Seq<Val>
    decreases ss,
{
    if ss.len() == 0 {
        Seq::empty()
    } else {
        svals(ss.drop_last()).push(ss.last().sval())
    }
}

/// `svals` maps the sequence elementwise.
pub proof fn lemma_svals(ss: Seq<Scalar>)
    ensures
        svals(ss).len() == ss.len(),
        forall|i: int| 0 <= i < ss.len() ==> #[trigger] svals(ss)[i] == ss[i].sval(),
    decreases ss.len(),
{
    if ss.len() > 0 {
        lemma_svals(ss.drop_last());
    }
}

/// Ghost model of a sequence of scalar views, elementwise.
pub open spec fn rvals(ss: Seq<ScalarRef>) -> Seq<Val>
    decreases ss,
{
    if ss.len() == 0 {
        Seq::empty()
    } else {
        rvals(ss.drop_last()).push(ss.last().sval())
    }
}

/// `rvals` maps the sequence elementwise.
pub proof fn lemma_rvals(ss: Seq<ScalarRef>)
    ensures
        rvals(ss).len() == ss.len(),
        forall|i: int| 0 <= i < ss.len() ==> #[trigger] rvals(ss)[i] == ss[i].sval(),
    decreases ss.len(),
{
    if ss.len() > 0 {
        lemma_rvals(ss.drop_last());
    }
}

impl Scalar {
    /// The ghost value of this scalar.
    pub open spec fn sval(&self) -> Val
        decreases self,
    {
        match self {
            Scalar::Null => Val::Null,
            Scalar::EmptyArray => Val::EmptyArray,
            Scalar::EmptyMap => Val::EmptyMap,
            Scalar::Number(n) => Val::Number(*n),
            Scalar::Decimal(d) => Val::Decimal(*d),
            Scalar::Timestamp(t) => Val::Timestamp(*t),
            Scalar::Date(d) => Val::Date(*d),
            Scalar::Boolean(b) => Val::Boolean(*b),
            Scalar::String(s) => Val::String(s@),
            Scalar::Array(col) => Val::Array(col.vals()),
            Scalar::KvMap(col) => Val::KvMap(col.vals()),
            Scalar::Tuple(fields) => Val::Tuple(svals(fields@)),
            Scalar::Variant(s) => Val::Variant(s@),
        }
    }

    /// Whether the nested columns and payloads of this scalar are well formed.
    pub open spec fn wf(&self) -> bool
        decreases self,
    {
        match self {
            Scalar::Array(col) => col.wf(),
            Scalar::KvMap(col) => col.wf() && (col.typ() matches TypeV::Tuple(ts) && ts.len() == 2),
            Scalar::Tuple(fields) => scalars_wf(fields@),
            Scalar::Variant(s) => crate::ord::jsonb_wf(s@),
            _ => true,
        }
    }
}

/// All scalars in the sequence are well formed.
pub open spec fn scalars_wf(ss: Seq<Scalar>) -> bool
    decreases ss,
{
    ss.len() == 0 || (scalars_wf(ss.drop_last()) && ss.last().wf())
}

/// `scalars_wf` holds elementwise.
pub proof fn lemma_scalars_wf(ss: Seq<Scalar>)
    requires
        scalars_wf(ss),
    ensures
        forall|i: int| 0 <= i < ss.len() ==> #[trigger] ss[i].wf(),
    decreases ss.len(),
{
    if ss.len() > 0 {
        lemma_scalars_wf(ss.drop_last());
        assert forall|i: int| 0 <= i < ss.len() implies #[trigger] ss[i].wf() by {
            if i < ss.len() - 1 {
                assert(ss.drop_last()[i].wf());
                assert(ss.drop_last()[i] == ss[i]);
            } else {
                assert(ss[i] == ss.last());
            }
        }
    }
}

impl ScalarRef {
    /// The ghost value of this scalar view.
    pub open spec fn sval(&self) -> Val
        decreases self,
    {
        match self {
            ScalarRef::Null => Val::Null,
            ScalarRef::EmptyArray => Val::EmptyArray,
            ScalarRef::EmptyMap => Val::EmptyMap,
            ScalarRef::Number(n) => Val::Number(*n),
            ScalarRef::Decimal(d) => Val::Decimal(*d),
            ScalarRef::Boolean(b) => Val::Boolean(*b),
            ScalarRef::String(s) => Val::String(s@),
            ScalarRef::Timestamp(t) => Val::Timestamp(*t),
            ScalarRef::Date(d) => Val::Date(*d),
            ScalarRef::Array(col) => Val::Array(col.vals()),
            ScalarRef::KvMap(col) => Val::KvMap(col.vals()),
            ScalarRef::Tuple(fields) => Val::Tuple(rvals(fields@)),
            ScalarRef::Variant(s) => Val::Variant(s@),
        }
    }

    /// Whether the nested columns and payloads of this view are well formed.
    pub open spec fn wf(&self) -> bool
        decreases self,
    {
        match self {
            ScalarRef::Array(col) => col.wf(),
            ScalarRef::KvMap(col) => col.wf() && (col.typ() matches TypeV::Tuple(ts)
                && ts.len() == 2),
            ScalarRef::Tuple(fields) => refs_wf(fields@),
            ScalarRef::Variant(s) => crate::ord::jsonb_wf(s@),
            _ => true,
        }
    }

    /// Whether this view is the null value.
    pub fn is_null(&self) -> (r: bool)
        ensures
            r == (self.sval() is Null),
    {
        match self {
            ScalarRef::Null => true,
            _ => false,
        }
    }
}

/// All scalar views in the sequence are well formed.
pub open spec fn refs_wf(ss: Seq<ScalarRef>) -> bool
    decreases ss,
{
    ss.len() == 0 || (refs_wf(ss.drop_last()) && ss.last().wf())
}

/// `refs_wf` holds elementwise.
pub proof fn lemma_refs_wf(ss: Seq<ScalarRef>)
    requires
        refs_wf(ss),
    ensures
        forall|i: int| 0 <= i < ss.len() ==> #[trigger] ss[i].wf(),
    decreases ss.len(),
{
    if ss.len() > 0 {
        lemma_refs_wf(ss.drop_last());
        assert forall|i: int| 0 <= i < ss.len() implies #[trigger] ss[i].wf() by {
            if i < ss.len() - 1 {
                assert(ss.drop_last()[i].wf());
                assert(ss.drop_last()[i] == ss[i]);
            } else {
                assert(ss[i] == ss.last());
            }
        }
    }
}

impl View for Scalar {
    type V = Val;

    open spec fn view(&self) -> Val {
        self.sval()
    }
}

impl View for ScalarRef {
    type V = Val;

    open spec fn view(&self) -> Val {
        self.sval()
    }
}

/// `refs_wf` from elementwise facts.
pub proof fn lemma_refs_wf_intro(ss: Seq<ScalarRef>)
    requires
        forall|i: int| 0 <= i < ss.len() ==> #[trigger] ss[i].wf(),
    ensures
        refs_wf(ss),
    decreases ss.len(),
{
    if ss.len() > 0 {
        assert forall|i: int| 0 <= i < ss.drop_last().len() implies
            #[trigger] ss.drop_last()[i].wf() by {
            assert(ss.drop_last()[i] == ss[i]);
            assert(ss[i].wf());
        }
        lemma_refs_wf_intro(ss.drop_last());
        assert(ss.last() == ss[ss.len() - 1]);
        assert(ss[ss.len() - 1].wf());
    }
}

/// `scalars_wf` from elementwise facts.
pub proof fn lemma_scalars_wf_intro(ss: Seq<Scalar>)
    requires
        forall|i: int| 0 <= i < ss.len() ==> #[trigger] ss[i].wf(),
    ensures
        scalars_wf(ss),
    decreases ss.len(),
{
    if ss.len() > 0 {
        assert forall|i: int| 0 <= i < ss.drop_last().len() implies
            #[trigger] ss.drop_last()[i].wf() by {
            assert(ss.drop_last()[i] == ss[i]);
            assert(ss[i].wf());
        }
        lemma_scalars_wf_intro(ss.drop_last());
        assert(ss.last() == ss[ss.len() - 1]);
        assert(ss[ss.len() - 1].wf());
    }
}

/// Borrowed views of a vector of owned scalars, elementwise.
fn refs_of(ss: &Vec<Scalar>) -> (r: Vec<ScalarRef>)
    ensures
        r@.len() == ss@.len(),
        forall|i: int| 0 <= i < ss@.len() ==> #[trigger] r@[i].sval() == ss@[i].sval(),
        forall|i: int| 0 <= i < ss@.len() ==> (#[trigger] r@[i].wf() <==> ss@[i].wf()),
        forall|i: int| 0 <= i < ss@.len() ==> #[trigger] r@[i].rtyp() == ss@[i].styp(),
    decreases ss@,
{
    let mut out: Vec<ScalarRef> = Vec::new();
    let mut i: usize = 0;
    while i < ss.len()
        invariant
            i <= ss@.len(),
            out@.len() == i as int,
            forall|j: int| 0 <= j < i as int ==> #[trigger] out@[j].sval() == ss@[j].sval(),
            forall|j: int| 0 <= j < i as int ==> (#[trigger] out@[j].wf() <==> ss@[j].wf()),
            forall|j: int| 0 <= j < i as int ==> #[trigger] out@[j].rtyp() == ss@[j].styp(),
        decreases ss@.len() - i,
    {
        proof {
            assert(decreases_to!(ss@ => ss@[i as int]));
        }
        out.push(ss[i].as_ref());
        i = i + 1;
    }
    out
}

/// Owned copies of a vector of scalar views, elementwise.
fn owned_of(ss: &Vec<ScalarRef>) -> (r: Vec<Scalar>)
    ensures
        r@.len() == ss@.len(),
        forall|i: int| 0 <= i < ss@.len() ==> #[trigger] r@[i].sval() == ss@[i].sval(),
        forall|i: int| 0 <= i < ss@.len() ==> (#[trigger] r@[i].wf() <==> ss@[i].wf()),
        forall|i: int| 0 <= i < ss@.len() ==> #[trigger] r@[i].styp() == ss@[i].rtyp(),
    decreases ss@,
{
    let mut out: Vec<Scalar> = Vec::new();
    let mut i: usize = 0;
    while i < ss.len()
        invariant
            i <= ss@.len(),
            out@.len() == i as int,
            forall|j: int| 0 <= j < i as int ==> #[trigger] out@[j].sval() == ss@[j].sval(),
            forall|j: int| 0 <= j < i as int ==> (#[trigger] out@[j].wf() <==> ss@[j].wf()),
            forall|j: int| 0 <= j < i as int ==> #[trigger] out@[j].styp() == ss@[j].rtyp(),
        decreases ss@.len() - i,
    {
        proof {
            assert(decreases_to!(ss@ => ss@[i as int]));
        }
        out.push(ss[i].to_owned());
        i = i + 1;
    }
    out
}

impl Scalar {
    /// A read-only view of this scalar; the logical value is unchanged.
    pub fn as_ref(&self) -> (r: ScalarRef)
        ensures
            r.sval() == self.sval(),
            r.wf() <==> self.wf(),
            r.rtyp() == self.styp(),
        decreases self,
    {
        match self {
            Scalar::Null => ScalarRef::Null,
            Scalar::EmptyArray => ScalarRef::EmptyArray,
            Scalar::EmptyMap => ScalarRef::EmptyMap,
            Scalar::Number(n) => ScalarRef::Number(*n),
            Scalar::Decimal(d) => ScalarRef::Decimal(*d),
            Scalar::Boolean(b) => ScalarRef::Boolean(*b),
            Scalar::String(s) => ScalarRef::String(copy_byte_vec(s)),
            Scalar::Timestamp(t) => ScalarRef::Timestamp(*t),
            Scalar::Date(d) => ScalarRef::Date(*d),
            Scalar::Array(col) => ScalarRef::Array(col.clone()),
            Scalar::KvMap(col) => ScalarRef::KvMap(col.clone()),
            Scalar::Tuple(fields) => {
                let refs = refs_of(fields);
                let r = ScalarRef::Tuple(refs);
                proof {
                    lemma_rvals(r->Tuple_0@);
                    lemma_svals(fields@);
                    assert(rvals(r->Tuple_0@) =~= svals(fields@));
                    lemma_rtyps(r->Tuple_0@);
                    lemma_styps(fields@);
                    assert(rtyps(r->Tuple_0@) =~= styps(fields@));
                    if scalars_wf(fields@) {
                        lemma_scalars_wf(fields@);
                        assert forall|k: int| 0 <= k < r->Tuple_0@.len() implies
                            #[trigger] r->Tuple_0@[k].wf() by {
                            assert(fields@[k].wf());
                        }
                        lemma_refs_wf_intro(r->Tuple_0@);
                    }
                    if refs_wf(r->Tuple_0@) {
                        lemma_refs_wf(r->Tuple_0@);
                        assert forall|k: int| 0 <= k < fields@.len() implies
                            #[trigger] fields@[k].wf() by {
                            assert(r->Tuple_0@[k].wf());
                        }
                        lemma_scalars_wf_intro(fields@);
                    }
                }
                r
            }
            Scalar::Variant(s) => ScalarRef::Variant(copy_byte_vec(s)),
        }
    }
}

impl ScalarRef {
    /// An owned scalar with the same logical value, copying only what needs
    /// independent ownership.
    pub fn to_owned(&self) -> (r: Scalar)
        ensures
            r.sval() == self.sval(),
            r.wf() <==> self.wf(),
            r.styp() == self.rtyp(),
        decreases self,
    {
        match self {
            ScalarRef::Null => Scalar::Null,
            ScalarRef::EmptyArray => Scalar::EmptyArray,
            ScalarRef::EmptyMap => Scalar::EmptyMap,
            ScalarRef::Number(n) => Scalar::Number(*n),
            ScalarRef::Decimal(d) => Scalar::Decimal(*d),
            ScalarRef::Boolean(b) => Scalar::Boolean(*b),
            ScalarRef::String(s) => Scalar::String(copy_byte_vec(s)),
            ScalarRef::Timestamp(t) => Scalar::Timestamp(*t),
            ScalarRef::Date(d) => Scalar::Date(*d),
            ScalarRef::Array(col) => Scalar::Array(col.clone()),
            ScalarRef::KvMap(col) => Scalar::KvMap(col.clone()),
            ScalarRef::Tuple(fields) => {
                let owned = owned_of(fields);
                let r = Scalar::Tuple(owned);
                proof {
                    lemma_svals(r->Tuple_0@);
                    lemma_rvals(fields@);
                    assert(svals(r->Tuple_0@) =~= rvals(fields@));
                    lemma_styps(r->Tuple_0@);
                    lemma_rtyps(fields@);
                    assert(styps(r->Tuple_0@) =~= rtyps(fields@));
                    if refs_wf(fields@) {
                        lemma_refs_wf(fields@);
                        assert forall|k: int| 0 <= k < r->Tuple_0@.len() implies
                            #[trigger] r->Tuple_0@[k].wf() by {
                            assert(fields@[k].wf());
                        }
                        lemma_scalars_wf_intro(r->Tuple_0@);
                    }
                    if scalars_wf(r->Tuple_0@) {
                        lemma_scalars_wf(r->Tuple_0@);
                        assert forall|k: int| 0 <= k < fields@.len() implies
                            #[trigger] fields@[k].wf() by {
                            assert(r->Tuple_0@[k].wf());
                        }
                        lemma_refs_wf_intro(fields@);
                    }
                }
                r
            }
            ScalarRef::Variant(s) => Scalar::Variant(copy_byte_vec(s)),
        }
    }
}

/// Copy of an owned byte payload.
fn copy_byte_vec(v: &Vec<u8>) -> (r: Vec<u8>)
    ensures
        r@ == v@,
{
    let mut out: Vec<u8> = Vec::new();
    let mut i: usize = 0;
    while i < v.len()
        invariant
            i <= v@.len(),
            out@ == v@.subrange(0, i as int),
        decreases v@.len() - i,
    {
        out.push(v[i]);
        proof {
            assert(out@ =~= v@.subrange(0, i + 1));
        }
        i = i + 1;
    }
    proof {
        assert(v@.subrange(0, v@.len() as int) =~= v@);
    }
    out
}

impl Clone for Scalar {
    /// Deep copy with the same logical value and inferred type.
    fn clone(&self) -> (r: Self)
        ensures
            r.sval() == self.sval(),
            r.wf() <==> self.wf(),
            r.styp() == self.styp(),
    {
        self.as_ref().to_owned()
    }
}

impl Clone for ScalarRef {
    /// Deep copy with the same logical value and inferred type.
    fn clone(&self) -> (r: Self)
        ensures
            r.sval() == self.sval(),
            r.wf() <==> self.wf(),
            r.rtyp() == self.rtyp(),
    {
        self.to_owned().as_ref()
    }
}

/// The inferred ghost types of a sequence of scalar views, elementwise.
pub open spec fn rtyps(ss: Seq<ScalarRef>) -> Seq<TypeV>
    decreases ss,
{
    if ss.len() == 0 {
        Seq::empty()
    } else {
        rtyps(ss.drop_last()).push(ss.last().rtyp())
    }
}

/// `rtyps` maps the sequence elementwise.
pub proof fn lemma_rtyps(ss: Seq<ScalarRef>)
    ensures
        rtyps(ss).len() == ss.len(),
        forall|i: int| 0 <= i < ss.len() ==> #[trigger] rtyps(ss)[i] == ss[i].rtyp(),
    decreases ss.len(),
{
    if ss.len() > 0 {
        lemma_rtyps(ss.drop_last());
    }
}

/// The inferred ghost types of a sequence of owned scalars, elementwise.
pub open spec fn styps(ss: Seq<Scalar>) -> Seq<TypeV>
    decreases ss,
{
    if ss.len() == 0 {
        Seq::empty()
    } else {
        styps(ss.drop_last()).push(ss.last().styp())
    }
}

/// `styps` maps the sequence elementwise.
pub proof fn lemma_styps(ss: Seq<Scalar>)
    ensures
        styps(ss).len() == ss.len(),
        forall|i: int| 0 <= i < ss.len() ==> #[trigger] styps(ss)[i] == ss[i].styp(),
    decreases ss.len(),
{
    if ss.len() > 0 {
        lemma_styps(ss.drop_last());
    }
}

impl ScalarRef {
    /// The inferred logical type of this view: null maps to the `Null` type
    /// and the result is never `Nullable`.
    pub open spec fn rtyp(&self) -> TypeV
        decreases self,
    {
        match self {
            ScalarRef::Null => TypeV::Null,
            ScalarRef::EmptyArray => TypeV::EmptyArray,
            ScalarRef::EmptyMap => TypeV::EmptyMap,
            ScalarRef::Number(n) => TypeV::Number(n.kind()),
            ScalarRef::Decimal(d) => TypeV::Decimal(d.kind()),
            ScalarRef::Boolean(_) => TypeV::Boolean,
            ScalarRef::String(_) => TypeV::String,
            ScalarRef::Timestamp(_) => TypeV::Timestamp,
            ScalarRef::Date(_) => TypeV::Date,
            ScalarRef::Array(col) => TypeV::Array(Box::new(col.typ())),
            ScalarRef::KvMap(col) => TypeV::KvMap(Box::new(col.typ())),
            ScalarRef::Tuple(fields) => TypeV::Tuple(rtyps(fields@)),
            ScalarRef::Variant(_) => TypeV::Variant,
        }
    }
}

impl Scalar {
    /// The inferred logical type of this scalar: null maps to the `Null`
    /// type and the result is never `Nullable`.
    pub open spec fn styp(&self) -> TypeV
        decreases self,
    {
        match self {
            Scalar::Null => TypeV::Null,
            Scalar::EmptyArray => TypeV::EmptyArray,
            Scalar::EmptyMap => TypeV::EmptyMap,
            Scalar::Number(n) => TypeV::Number(n.kind()),
            Scalar::Decimal(d) => TypeV::Decimal(d.kind()),
            Scalar::Boolean(_) => TypeV::Boolean,
            Scalar::String(_) => TypeV::String,
            Scalar::Timestamp(_) => TypeV::Timestamp,
            Scalar::Date(_) => TypeV::Date,
            Scalar::Array(col) => TypeV::Array(Box::new(col.typ())),
            Scalar::KvMap(col) => TypeV::KvMap(Box::new(col.typ())),
            Scalar::Tuple(fields) => TypeV::Tuple(styps(fields@)),
            Scalar::Variant(_) => TypeV::Variant,
        }
    }
}

/// The inferred data types of a vector of sibling scalar views.
fn infer_types_of(ss: &Vec<ScalarRef>) -> (r: Vec<crate::types::DataType>)
    ensures
        r@.len() == ss@.len(),
        forall|i: int| 0 <= i < ss@.len() ==> #[trigger] r@[i].tyv() == ss@[i].rtyp(),
    decreases ss@,
{
    let mut out: Vec<crate::types::DataType> = Vec::new();
    let mut i: usize = 0;
    while i < ss.len()
        invariant
            i <= ss@.len(),
            out@.len() == i as int,
            forall|j: int| 0 <= j < i as int ==> #[trigger] out@[j].tyv() == ss@[j].rtyp(),
        decreases ss@.len() - i,
    {
        proof {
            assert(decreases_to!(ss@ => ss@[i as int]));
        }
        out.push(ss[i].infer_data_type());
        i = i + 1;
    }
    out
}

impl ScalarRef {
    /// The inferred logical type of this value: null maps to the `Null`
    /// type, and the inferred type is never nullable.
    pub fn infer_data_type(&self) -> (r: crate::types::DataType)
        ensures
            r@ == self.rtyp(),
        decreases self,
    {
        match self {
            ScalarRef::Null => crate::types::DataType::Null,
            ScalarRef::EmptyArray => crate::types::DataType::EmptyArray,
            ScalarRef::EmptyMap => crate::types::DataType::EmptyMap,
            ScalarRef::Number(n) => crate::types::DataType::Number(
                match n {
                    NumberScalar::UInt8(_) => NumberDataType::UInt8,
                    NumberScalar::UInt16(_) => NumberDataType::UInt16,
                    NumberScalar::UInt32(_) => NumberDataType::UInt32,
                    NumberScalar::UInt64(_) => NumberDataType::UInt64,
                    NumberScalar::Int8(_) => NumberDataType::Int8,
                    NumberScalar::Int16(_) => NumberDataType::Int16,
                    NumberScalar::Int32(_) => NumberDataType::Int32,
                    NumberScalar::Int64(_) => NumberDataType::Int64,
                },
            ),
            ScalarRef::Decimal(d) => crate::types::DataType::Decimal(
                match d {
                    DecimalScalar::Decimal128(_, size) => DecimalDataType::Decimal128(*size),
                    DecimalScalar::Decimal256(_, size) => DecimalDataType::Decimal256(*size),
                },
            ),
            ScalarRef::Boolean(_) => crate::types::DataType::Boolean,
            ScalarRef::String(_) => crate::types::DataType::String,
            ScalarRef::Timestamp(_) => crate::types::DataType::Timestamp,
            ScalarRef::Date(_) => crate::types::DataType::Date,
            ScalarRef::Array(col) => crate::types::DataType::Array(Box::new(col.data_type())),
            ScalarRef::KvMap(col) => crate::types::DataType::KvMap(Box::new(col.data_type())),
            ScalarRef::Tuple(fields) => {
                let ts = infer_types_of(fields);
                let r = crate::types::DataType::Tuple(ts);
                proof {
                    crate::types::lemma_tyv_seq(r->Tuple_0@);
                    lemma_rtyps(fields@);
                    assert(crate::types::tyv_seq(r->Tuple_0@) =~= rtyps(fields@));
                }
                r
            }
            ScalarRef::Variant(_) => crate::types::DataType::Variant,
        }
    }
}

} // verus!
