//! Partial ordering, total-order fallback and equality for scalars and
//! columns. Ordering is defined within a matching variant pair; across
//! variants there is no ordering and equality is false. Variant payloads
//! compare by JSON value, not by raw bytes.

use core::cmp::Ordering;

use vstd::prelude::*;

use crate::column::Column;
use crate::column::DecimalColumn;
use crate::column::NumberColumn;
use crate::scalar::Scalar;
use crate::scalar::ScalarRef;
use crate::scalar::DecimalScalar;
use crate::scalar::NumberScalar;
use crate::scalar::Val;
use crate::types::TypeV;

verus! {

/// Whether a byte sequence is a structurally valid binary JSON payload:
/// one the `jsonb` crate's own encoders produce and its readers accept
/// without fault. Every variant payload the library holds satisfies it.
pub uninterp spec fn jsonb_wf(s: Seq<u8>) -> bool;

/// What the JSON-value comparison of two valid binary JSON payloads
/// returns: a function of the two byte sequences alone.
pub uninterp spec fn jsonb_cmp(a: Seq<u8>, b: Seq<u8>) -> Option<Ordering>;

/// Relies on `jsonb`'s `RawJsonb` ordering: the JSON-value comparison of
/// the two payloads, which depends on the bytes alone. The reader asserts
/// on malformed payloads, so only valid payloads are admitted.
#[verifier::external_body]
fn jsonb_compare(a: &Vec<u8>, b: &Vec<u8>) -> (r: Option<Ordering>)
    requires
        jsonb_wf(a@),
        jsonb_wf(b@),
    ensures
        r == jsonb_cmp(a@, b@),
{
    let left = jsonb::RawJsonb::new(a.as_slice());
    let right = jsonb::RawJsonb::new(b.as_slice());
    left.partial_cmp(&right)
}

/// Relies on `jsonb`'s text parser (`OwnedJsonb::from_str`): a successfully
/// parsed payload is a valid binary JSON encoding.
#[verifier::external_body]
pub fn parse_jsonb_text(s: &str) -> (r: Option<Vec<u8>>)
    ensures
        r matches Some(v) ==> jsonb_wf(v@),
{
    match s.parse::<jsonb::OwnedJsonb>() {
        Ok(owned) => Some(owned.to_vec()),
        Err(_) => None,
    }
}

/// Relies on `jsonb`'s value encoder (`Value::to_vec`): the encoding of the
/// JSON null value is the valid eight-byte payload of a scalar container
/// header followed by a null entry header.
#[verifier::external_body]
pub fn jsonb_null() -> (r: Vec<u8>)
    ensures
        jsonb_wf(r@),
        r@ == crate::builder::jsonb_null_bytes(),
{
    jsonb::Value::Null.to_vec()
}

/// Lexicographic order on byte sequences, shorter prefix first.
pub open spec fn bytes_cmp(a: Seq<u8>, b: Seq<u8>) -> Ordering
    decreases a.len(),
{
    if a.len() == 0 && b.len() == 0 {
        Ordering::Equal
    } else if a.len() == 0 {
        Ordering::Less
    } else if b.len() == 0 {
        Ordering::Greater
    } else if a[0] < b[0] {
        Ordering::Less
    } else if a[0] > b[0] {
        Ordering::Greater
    } else {
        bytes_cmp(a.skip(1), b.skip(1))
    }
}

/// The partial comparison of two logical values. Defined within a matching
/// variant pair (and, for numbers and decimals, a matching kind); `None`
/// otherwise.
pub open spec fn val_cmp(a: Val, b: Val) -> Option<Ordering>
    decreases a, 0int,
{
    match (a, b) {
        (Val::Null, Val::Null) => Some(Ordering::Equal),
        (Val::EmptyArray, Val::EmptyArray) => Some(Ordering::Equal),
        (Val::EmptyMap, Val::EmptyMap) => Some(Ordering::Equal),
        (Val::Number(n1), Val::Number(n2)) => if n1.kind() == n2.kind() {
            Some(int_cmp(n1.ival(), n2.ival()))
        } else {
            None
        },
        (Val::Decimal(d1), Val::Decimal(d2)) => if d1.kind() == d2.kind() {
            Some(dec_cmp_spec(d1, d2))
        } else {
            None
        },
        (Val::Boolean(b1), Val::Boolean(b2)) => Some(
            if b1 == b2 {
                Ordering::Equal
            } else if !b1 {
                Ordering::Less
            } else {
                Ordering::Greater
            },
        ),
        (Val::String(s1), Val::String(s2)) => Some(bytes_cmp(s1, s2)),
        (Val::Timestamp(t1), Val::Timestamp(t2)) => Some(int_cmp(t1 as int, t2 as int)),
        (Val::Date(d1), Val::Date(d2)) => Some(int_cmp(d1 as int, d2 as int)),
        (Val::Array(x), Val::Array(y)) => seq_cmp_nf(x, y),
        (Val::KvMap(x), Val::KvMap(y)) => seq_cmp_nf(x, y),
        (Val::Tuple(x), Val::Tuple(y)) => seq_cmp_strict(x, y),
        (Val::Variant(v1), Val::Variant(v2)) => jsonb_cmp(v1, v2),
        _ => None,
    }
}

/// Comparison of two integers as an `Ordering`.
pub open spec fn int_cmp(a: int, b: int) -> Ordering {
    if a < b {
        Ordering::Less
    } else if a == b {
        Ordering::Equal
    } else {
        Ordering::Greater
    }
}

/// Comparison of two decimals of the same kind by value.
pub open spec fn dec_cmp_spec(a: DecimalScalar, b: DecimalScalar) -> Ordering {
    match (a, b) {
        (DecimalScalar::Decimal128(x, _), DecimalScalar::Decimal128(y, _)) => int_cmp(
            x as int,
            y as int,
        ),
        (DecimalScalar::Decimal256(x, _), DecimalScalar::Decimal256(y, _)) => if x.hi == y.hi
            && x.lo == y.lo {
            Ordering::Equal
        } else if x.le(y) {
            Ordering::Less
        } else {
            Ordering::Greater
        },
        _ => Ordering::Equal,
    }
}

/// Element comparison inside a vectorized sequence: a masked (null) row
/// orders before any value, as a missing element does.
pub open spec fn nf_cmp(a: Val, b: Val) -> Option<Ordering>
    decreases a, 1int,
{
    if a is Null && b is Null {
        Some(Ordering::Equal)
    } else if a is Null {
        Some(Ordering::Less)
    } else if b is Null {
        Some(Ordering::Greater)
    } else {
        val_cmp(a, b)
    }
}

/// Lexicographic comparison of two row sequences with null-first elements;
/// a shorter sequence that is a prefix of the other orders first.
pub open spec fn seq_cmp_nf(x: Seq<Val>, y: Seq<Val>) -> Option<Ordering>
    decreases x, 2int,
{
    if x.len() == 0 && y.len() == 0 {
        Some(Ordering::Equal)
    } else if x.len() == 0 {
        Some(Ordering::Less)
    } else if y.len() == 0 {
        Some(Ordering::Greater)
    } else {
        match nf_cmp(x[0], y[0]) {
            Some(Ordering::Equal) => seq_cmp_nf(x.skip(1), y.skip(1)),
            r => r,
        }
    }
}

/// Lexicographic comparison of two field sequences with strict elements.
pub open spec fn seq_cmp_strict(x: Seq<Val>, y: Seq<Val>) -> Option<Ordering>
    decreases x, 2int,
{
    if x.len() == 0 && y.len() == 0 {
        Some(Ordering::Equal)
    } else if x.len() == 0 {
        Some(Ordering::Less)
    } else if y.len() == 0 {
        Some(Ordering::Greater)
    } else {
        match val_cmp(x[0], y[0]) {
            Some(Ordering::Equal) => seq_cmp_strict(x.skip(1), y.skip(1)),
            r => r,
        }
    }
}

/// The nested columns of two compared values must carry the same logical
/// type: comparison across differently-typed nested columns is not offered.
pub open spec fn cmp_ok_t(at: TypeV, bt: TypeV) -> bool
    decreases at,
{
    match (at, bt) {
        (TypeV::Array(x), TypeV::Array(y)) => *x == *y,
        (TypeV::KvMap(x), TypeV::KvMap(y)) => *x == *y,
        (TypeV::Tuple(xs), TypeV::Tuple(ys)) => tys_cmp_ok(xs, ys),
        _ => true,
    }
}

/// Pairwise `cmp_ok_t` over the common prefix of two field type sequences.
pub open spec fn tys_cmp_ok(xs: Seq<TypeV>, ys: Seq<TypeV>) -> bool
    decreases xs,
{
    xs.len() == 0 || ys.len() == 0 || (cmp_ok_t(xs[0], ys[0]) && tys_cmp_ok(
        xs.skip(1),
        ys.skip(1),
    ))
}

/// `tys_cmp_ok` holds pairwise on the common prefix.
pub proof fn lemma_tys_cmp_ok(xs: Seq<TypeV>, ys: Seq<TypeV>)
    requires
        tys_cmp_ok(xs, ys),
    ensures
        forall|i: int|
            0 <= i < xs.len() && i < ys.len() ==> #[trigger] cmp_ok_t(xs[i], ys[i]),
    decreases xs.len(),
{
    if xs.len() > 0 && ys.len() > 0 {
        lemma_tys_cmp_ok(xs.skip(1), ys.skip(1));
        assert forall|i: int| 0 <= i < xs.len() && i < ys.len() implies #[trigger] cmp_ok_t(
            xs[i],
            ys[i],
        ) by {
            if i > 0 {
                assert(cmp_ok_t(xs.skip(1)[i - 1], ys.skip(1)[i - 1]));
                assert(xs.skip(1)[i - 1] == xs[i]);
                assert(ys.skip(1)[i - 1] == ys[i]);
            }
        }
    }
}

/// Comparison of two byte payloads, lexicographically.
pub fn cmp_bytes(a: &Vec<u8>, b: &Vec<u8>) -> (r: Ordering)
    ensures
        r == bytes_cmp(a@, b@),
{
    let mut i: usize = 0;
    let na = a.len();
    let nb = b.len();
    proof {
        assert(a@.skip(0) =~= a@);
        assert(b@.skip(0) =~= b@);
    }
    while i < na && i < nb
        invariant
            i <= na <= a@.len(),
            i <= nb <= b@.len(),
            na == a@.len(),
            nb == b@.len(),
            bytes_cmp(a@, b@) == bytes_cmp(a@.skip(i as int), b@.skip(i as int)),
            forall|j: int| 0 <= j < i as int ==> a@[j] == b@[j],
        decreases na - i,
    {
        let ca = a[i];
        let cb = b[i];
        if ca < cb {
            proof {
                assert(a@.skip(i as int)[0] == ca);
                assert(b@.skip(i as int)[0] == cb);
            }
            return Ordering::Less;
        }
        if ca > cb {
            proof {
                assert(a@.skip(i as int)[0] == ca);
                assert(b@.skip(i as int)[0] == cb);
            }
            return Ordering::Greater;
        }
        proof {
            assert(a@.skip(i as int)[0] == ca);
            assert(b@.skip(i as int)[0] == cb);
            assert(a@.skip(i as int).skip(1) =~= a@.skip(i + 1));
            assert(b@.skip(i as int).skip(1) =~= b@.skip(i + 1));
        }
        i = i + 1;
    }
    proof {
        assert(a@.skip(i as int).len() == na - i);
        assert(b@.skip(i as int).len() == nb - i);
    }
    if na == nb {
        Ordering::Equal
    } else if na < nb {
        Ordering::Less
    } else {
        Ordering::Greater
    }
}

/// Comparison of two numbers: by value within a kind, unordered across
/// kinds.
pub fn num_cmp(a: NumberScalar, b: NumberScalar) -> (r: Option<Ordering>)
    ensures
        r == val_cmp(Val::Number(a), Val::Number(b)),
{
    match (a, b) {
        (NumberScalar::UInt8(x), NumberScalar::UInt8(y)) => Some(
            if x < y {
                Ordering::Less
            } else if x == y {
                Ordering::Equal
            } else {
                Ordering::Greater
            },
        ),
        (NumberScalar::UInt16(x), NumberScalar::UInt16(y)) => Some(
            if x < y {
                Ordering::Less
            } else if x == y {
                Ordering::Equal
            } else {
                Ordering::Greater
            },
        ),
        (NumberScalar::UInt32(x), NumberScalar::UInt32(y)) => Some(
            if x < y {
                Ordering::Less
            } else if x == y {
                Ordering::Equal
            } else {
                Ordering::Greater
            },
        ),
        (NumberScalar::UInt64(x), NumberScalar::UInt64(y)) => Some(
            if x < y {
                Ordering::Less
            } else if x == y {
                Ordering::Equal
            } else {
                Ordering::Greater
            },
        ),
        (NumberScalar::Int8(x), NumberScalar::Int8(y)) => Some(
            if x < y {
                Ordering::Less
            } else if x == y {
                Ordering::Equal
            } else {
                Ordering::Greater
            },
        ),
        (NumberScalar::Int16(x), NumberScalar::Int16(y)) => Some(
            if x < y {
                Ordering::Less
            } else if x == y {
                Ordering::Equal
            } else {
                Ordering::Greater
            },
        ),
        (NumberScalar::Int32(x), NumberScalar::Int32(y)) => Some(
            if x < y {
                Ordering::Less
            } else if x == y {
                Ordering::Equal
            } else {
                Ordering::Greater
            },
        ),
        (NumberScalar::Int64(x), NumberScalar::Int64(y)) => Some(
            if x < y {
                Ordering::Less
            } else if x == y {
                Ordering::Equal
            } else {
                Ordering::Greater
            },
        ),
        _ => None,
    }
}

/// Comparison of two decimals: by value within a kind, unordered across
/// kinds.
fn dec_cmp(a: DecimalScalar, b: DecimalScalar) -> (r: Option<Ordering>)
    ensures
        r == val_cmp(Val::Decimal(a), Val::Decimal(b)),
{
    match (a, b) {
        (DecimalScalar::Decimal128(x, s1), DecimalScalar::Decimal128(y, s2)) => if s1.precision
            == s2.precision && s1.scale == s2.scale {
            Some(
                if x < y {
                    Ordering::Less
                } else if x == y {
                    Ordering::Equal
                } else {
                    Ordering::Greater
                },
            )
        } else {
            None
        },
        (DecimalScalar::Decimal256(x, s1), DecimalScalar::Decimal256(y, s2)) => if s1.precision
            == s2.precision && s1.scale == s2.scale {
            Some(
                if x.hi == y.hi && x.lo == y.lo {
                    Ordering::Equal
                } else if x.hi < y.hi || (x.hi == y.hi && x.lo <= y.lo) {
                    Ordering::Less
                } else {
                    Ordering::Greater
                },
            )
        } else {
            None
        },
        _ => None,
    }
}

/// A value of a nested (vectorized) variant.
pub open spec fn vnested(v: Val) -> bool {
    v is Array || v is KvMap || v is Tuple
}

/// A scalar view's value constructor names its variant.
pub proof fn lemma_sval_variant(s: &ScalarRef)
    ensures
        (s.sval() is Null) == (s is Null),
        (s.sval() is EmptyArray) == (s is EmptyArray),
        (s.sval() is EmptyMap) == (s is EmptyMap),
        (s.sval() is Number) == (s is Number),
        (s.sval() is Decimal) == (s is Decimal),
        (s.sval() is Boolean) == (s is Boolean),
        (s.sval() is String) == (s is String),
        (s.sval() is Timestamp) == (s is Timestamp),
        (s.sval() is Date) == (s is Date),
        (s.sval() is Array) == (s is Array),
        (s.sval() is KvMap) == (s is KvMap),
        (s.sval() is Tuple) == (s is Tuple),
        (s.sval() is Variant) == (s is Variant),
{
    match s {
        ScalarRef::Null => {},
        ScalarRef::EmptyArray => {},
        ScalarRef::EmptyMap => {},
        ScalarRef::Number(_) => {},
        ScalarRef::Decimal(_) => {},
        ScalarRef::Boolean(_) => {},
        ScalarRef::String(_) => {},
        ScalarRef::Timestamp(_) => {},
        ScalarRef::Date(_) => {},
        ScalarRef::Array(_) => {},
        ScalarRef::KvMap(_) => {},
        ScalarRef::Tuple(_) => {},
        ScalarRef::Variant(_) => {},
    }
}

/// Null-first comparison of two flat (non-vectorized) values.
fn flat_cmp(x: &ScalarRef, y: &ScalarRef) -> (r: Option<Ordering>)
    requires
        x.wf(),
        y.wf(),
    ensures
        !vnested(x.sval()) && !vnested(y.sval()) ==> r == nf_cmp(x.sval(), y.sval()),
{
    proof {
        lemma_sval_variant(x);
        lemma_sval_variant(y);
    }
    match (x, y) {
        (ScalarRef::Null, ScalarRef::Null) => Some(Ordering::Equal),
        (ScalarRef::Null, _) => Some(Ordering::Less),
        (_, ScalarRef::Null) => Some(Ordering::Greater),
        (ScalarRef::EmptyArray, ScalarRef::EmptyArray) => Some(Ordering::Equal),
        (ScalarRef::EmptyMap, ScalarRef::EmptyMap) => Some(Ordering::Equal),
        (ScalarRef::Number(n1), ScalarRef::Number(n2)) => num_cmp(*n1, *n2),
        (ScalarRef::Decimal(d1), ScalarRef::Decimal(d2)) => dec_cmp(*d1, *d2),
        (ScalarRef::Boolean(b1), ScalarRef::Boolean(b2)) => Some(
            if *b1 == *b2 {
                Ordering::Equal
            } else if !*b1 {
                Ordering::Less
            } else {
                Ordering::Greater
            },
        ),
        (ScalarRef::String(s1), ScalarRef::String(s2)) => Some(cmp_bytes(s1, s2)),
        (ScalarRef::Timestamp(t1), ScalarRef::Timestamp(t2)) => Some(
            if *t1 < *t2 {
                Ordering::Less
            } else if *t1 == *t2 {
                Ordering::Equal
            } else {
                Ordering::Greater
            },
        ),
        (ScalarRef::Date(d1), ScalarRef::Date(d2)) => Some(
            if *d1 < *d2 {
                Ordering::Less
            } else if *d1 == *d2 {
                Ordering::Equal
            } else {
                Ordering::Greater
            },
        ),
        (ScalarRef::Variant(v1), ScalarRef::Variant(v2)) => jsonb_compare(v1, v2),
        _ => None,
    }
}

/// Null-first lexicographic comparison of two windows of flat rows.
#[verifier::loop_isolation(false)]
fn cmp_flat_rows(
    a: &Column,
    alo: usize,
    ahi: usize,
    b: &Column,
    blo: usize,
    bhi: usize,
) -> (r: Option<Ordering>)
    requires
        a.wf(),
        b.wf(),
        alo <= ahi <= a.vals().len(),
        blo <= bhi <= b.vals().len(),
        forall|i: int| alo <= i < ahi ==> !vnested(#[trigger] a.vals()[i]),
        forall|i: int| blo <= i < bhi ==> !vnested(#[trigger] b.vals()[i]),
    ensures
        r == seq_cmp_nf(
            a.vals().subrange(alo as int, ahi as int),
            b.vals().subrange(blo as int, bhi as int),
        ),
{
    let ghost pa = a.vals().subrange(alo as int, ahi as int);
    let ghost pb = b.vals().subrange(blo as int, bhi as int);
    let wa = ahi - alo;
    let wb = bhi - blo;
    let mut k: usize = 0;
    proof {
        assert(pa.skip(0) =~= pa);
        assert(pb.skip(0) =~= pb);
    }
    while k < wa && k < wb
        invariant
            a.wf(),
            b.wf(),
            alo <= ahi <= a.vals().len(),
            blo <= bhi <= b.vals().len(),
            wa == ahi - alo,
            wb == bhi - blo,
            k <= wa,
            k <= wb,
            pa == a.vals().subrange(alo as int, ahi as int),
            pb == b.vals().subrange(blo as int, bhi as int),
            seq_cmp_nf(pa, pb) == seq_cmp_nf(pa.skip(k as int), pb.skip(k as int)),
        decreases wa - k,
    {
        let xa = a.index_unchecked(alo + k);
        let xb = b.index_unchecked(blo + k);
        proof {
            assert(pa.skip(k as int)[0] == a.vals()[alo + k]);
            assert(pb.skip(k as int)[0] == b.vals()[blo + k]);
        }
        match flat_cmp(&xa, &xb) {
            Some(Ordering::Equal) => {
                proof {
                    assert(pa.skip(k as int).skip(1) =~= pa.skip(k + 1));
                    assert(pb.skip(k as int).skip(1) =~= pb.skip(k + 1));
                }
            }
            r => {
                return r;
            }
        }
        k = k + 1;
    }
    proof {
        assert(pa.skip(k as int).len() == wa - k);
        assert(pb.skip(k as int).len() == wb - k);
    }
    if wa == wb {
        Some(Ordering::Equal)
    } else if wa < wb {
        Some(Ordering::Less)
    } else {
        Some(Ordering::Greater)
    }
}

/// Null-first lexicographic comparison of two windows of rows of two
/// same-typed columns.
#[verifier::loop_isolation(false)]
#[verifier::rlimit(60)]
fn cmp_cols_range(
    a: &Column,
    alo: usize,
    ahi: usize,
    b: &Column,
    blo: usize,
    bhi: usize,
) -> (r: Option<Ordering>)
    requires
        a.wf(),
        b.wf(),
        a.typ() == b.typ(),
        alo <= ahi <= a.vals().len(),
        blo <= bhi <= b.vals().len(),
    ensures
        r == seq_cmp_nf(
            a.vals().subrange(alo as int, ahi as int),
            b.vals().subrange(blo as int, bhi as int),
        ),
    decreases a, 0int,
{
    let ghost pa = a.vals().subrange(alo as int, ahi as int);
    let ghost pb = b.vals().subrange(blo as int, bhi as int);
    proof {
        a.lemma_typ_variant();
        b.lemma_typ_variant();
    }
    match (a, b) {
        (Column::Nullable(na), Column::Nullable(nb)) => {
            let wa = ahi - alo;
            let wb = bhi - blo;
            let mut k: usize = 0;
            proof {
                assert(pa.skip(0) =~= pa);
                assert(pb.skip(0) =~= pb);
            }
            while k < wa && k < wb
                invariant
                    k <= wa,
                    k <= wb,
                    seq_cmp_nf(pa, pb) == seq_cmp_nf(pa.skip(k as int), pb.skip(k as int)),
                decreases wa - k,
            {
                let va = na.validity[alo + k];
                let vb = nb.validity[blo + k];
                proof {
                    assert(pa.skip(k as int)[0] == a.vals()[alo + k]);
                    assert(pb.skip(k as int)[0] == b.vals()[blo + k]);
                    na.column.lemma_typ_variant();
                    nb.column.lemma_typ_variant();
                    assert(a.vals()[alo + k] == (if na.validity@[alo + k] {
                        na.column.vals()[alo + k]
                    } else {
                        Val::Null
                    }));
                    assert(b.vals()[blo + k] == (if nb.validity@[blo + k] {
                        nb.column.vals()[blo + k]
                    } else {
                        Val::Null
                    }));
                }
                if !va && !vb {
                    proof {
                        assert(nf_cmp(pa.skip(k as int)[0], pb.skip(k as int)[0]) == Some(
                            Ordering::Equal,
                        ));
                        assert(pa.skip(k as int).skip(1) =~= pa.skip(k + 1));
                        assert(pb.skip(k as int).skip(1) =~= pb.skip(k + 1));
                    }
                } else if !va {
                    proof {
                        lemma_inner_not_null(&nb.column, (blo + k) as int);
                        assert(nf_cmp(pa.skip(k as int)[0], pb.skip(k as int)[0]) == Some(
                            Ordering::Less,
                        ));
                    }
                    return Some(Ordering::Less);
                } else if !vb {
                    proof {
                        lemma_inner_not_null(&na.column, (alo + k) as int);
                        assert(nf_cmp(pa.skip(k as int)[0], pb.skip(k as int)[0]) == Some(
                            Ordering::Greater,
                        ));
                    }
                    return Some(Ordering::Greater);
                } else {
                    let r = cmp_cols_range(
                        &na.column,
                        alo + k,
                        alo + k + 1,
                        &nb.column,
                        blo + k,
                        blo + k + 1,
                    );
                    proof {
                        lemma_inner_not_null(&na.column, (alo + k) as int);
                        lemma_inner_not_null(&nb.column, (blo + k) as int);
                        lemma_single_nf(
                            na.column.vals()[alo + k],
                            nb.column.vals()[blo + k],
                            na.column.vals().subrange(alo + k, alo + k + 1),
                            nb.column.vals().subrange(blo + k, blo + k + 1),
                        );
                    }
                    match r {
                        Some(Ordering::Equal) => {
                            proof {
                                assert(pa.skip(k as int).skip(1) =~= pa.skip(k + 1));
                                assert(pb.skip(k as int).skip(1) =~= pb.skip(k + 1));
                            }
                        }
                        other => {
                            return other;
                        }
                    }
                }
                k = k + 1;
            }
            proof {
                assert(pa.skip(k as int).len() == wa - k);
                assert(pb.skip(k as int).len() == wb - k);
            }
            if wa == wb {
                Some(Ordering::Equal)
            } else if wa < wb {
                Some(Ordering::Less)
            } else {
                Some(Ordering::Greater)
            }
        }
        (Column::Array(aa), Column::Array(ba)) => {
            cmp_nested_windows(
                &aa.values,
                &aa.offsets,
                alo,
                ahi,
                &ba.values,
                &ba.offsets,
                blo,
                bhi,
                Ghost(pa),
                Ghost(pb),
                Ghost(false),
            )
        }
        (Column::KvMap(aa), Column::KvMap(ba)) => {
            cmp_nested_windows(
                &aa.values,
                &aa.offsets,
                alo,
                ahi,
                &ba.values,
                &ba.offsets,
                blo,
                bhi,
                Ghost(pa),
                Ghost(pb),
                Ghost(true),
            )
        }
        (Column::Tuple { fields: fa, .. }, Column::Tuple { fields: fb, .. }) => {
            proof {
                crate::column::lemma_cols_typs(fa@);
                crate::column::lemma_cols_typs(fb@);
                crate::column::lemma_cols_wf_len(fa@, a.vals().len());
                crate::column::lemma_cols_wf_len(fb@, b.vals().len());
                assert forall|j: int| 0 <= j < fa@.len() implies #[trigger] fa@[j].typ()
                    == fb@[j].typ() by {
                    assert(crate::column::cols_typs(fa@)[j] == fa@[j].typ());
                    assert(crate::column::cols_typs(fb@)[j] == fb@[j].typ());
                }
            }
            proof {
                crate::column::lemma_cols_vals(fa@);
                crate::column::lemma_cols_vals(fb@);
                assert forall|k: int| 0 <= k < pa.len() implies #[trigger] pa[k] == Val::Tuple(
                    Seq::new(fa@.len(), |j: int| fa@[j].vals()[alo + k]),
                ) by {
                    assert(pa[k] == a.vals()[alo + k]);
                    assert(Seq::new(
                        crate::column::cols_vals(fa@).len(),
                        |j: int| crate::column::cols_vals(fa@)[j][alo + k],
                    ) =~= Seq::new(fa@.len(), |j: int| fa@[j].vals()[alo + k]));
                }
                assert forall|k: int| 0 <= k < pb.len() implies #[trigger] pb[k] == Val::Tuple(
                    Seq::new(fb@.len(), |j: int| fb@[j].vals()[blo + k]),
                ) by {
                    assert(pb[k] == b.vals()[blo + k]);
                    assert(Seq::new(
                        crate::column::cols_vals(fb@).len(),
                        |j: int| crate::column::cols_vals(fb@)[j][blo + k],
                    ) =~= Seq::new(fb@.len(), |j: int| fb@[j].vals()[blo + k]));
                }
            }
            cmp_tuple_windows(fa, fb, alo, ahi, blo, bhi, Ghost(pa), Ghost(pb))
        }
        _ => {
            proof {
                lemma_flat_vals(a);
                lemma_flat_vals(b);
            }
            cmp_flat_rows(a, alo, ahi, b, blo, bhi)
        }
    }
}

/// The rows of a non-nested, non-nullable column are flat values, and the
/// rows of a column that is not `Null` or `Nullable` are never null.
pub proof fn lemma_flat_vals(c: &Column)
    requires
        !(c is Array),
        !(c is KvMap),
        !(c is Tuple),
        !(c is Nullable),
    ensures
        forall|i: int| 0 <= i < c.vals().len() ==> !vnested(#[trigger] c.vals()[i]),
{
    assert forall|i: int| 0 <= i < c.vals().len() implies !vnested(#[trigger] c.vals()[i]) by {
        lemma_flat_val_at(c, i);
    }
}

/// One row of a flat column is a flat value.
pub proof fn lemma_flat_val_at(c: &Column, i: int)
    requires
        !(c is Array),
        !(c is KvMap),
        !(c is Tuple),
        !(c is Nullable),
        0 <= i < c.vals().len(),
    ensures
        !vnested(c.vals()[i]),
{
    match c {
        Column::Null { .. } => {},
        Column::EmptyArray { .. } => {},
        Column::EmptyMap { .. } => {},
        Column::Number(col) => {
            match col {
                NumberColumn::UInt8(_) => {},
                NumberColumn::UInt16(_) => {},
                NumberColumn::UInt32(_) => {},
                NumberColumn::UInt64(_) => {},
                NumberColumn::Int8(_) => {},
                NumberColumn::Int16(_) => {},
                NumberColumn::Int32(_) => {},
                NumberColumn::Int64(_) => {},
            }
        }
        Column::Decimal(col) => {
            match col {
                DecimalColumn::Decimal128(_, _) => {},
                DecimalColumn::Decimal256(_, _) => {},
            }
        }
        _ => {},
    }
}

/// A row of a column that is neither `Null` nor `Nullable` is never the
/// null value.
pub proof fn lemma_inner_not_null(c: &Column, i: int)
    requires
        !(c is Null),
        !(c is Nullable),
        0 <= i < c.vals().len(),
    ensures
        !(c.vals()[i] is Null),
{
    match c {
        Column::Null { .. } => {},
        Column::EmptyArray { .. } => {},
        Column::EmptyMap { .. } => {},
        Column::Number(col) => {
            match col {
                NumberColumn::UInt8(_) => {},
                NumberColumn::UInt16(_) => {},
                NumberColumn::UInt32(_) => {},
                NumberColumn::UInt64(_) => {},
                NumberColumn::Int8(_) => {},
                NumberColumn::Int16(_) => {},
                NumberColumn::Int32(_) => {},
                NumberColumn::Int64(_) => {},
            }
        }
        Column::Decimal(col) => {
            match col {
                DecimalColumn::Decimal128(_, _) => {},
                DecimalColumn::Decimal256(_, _) => {},
            }
        }
        _ => {},
    }
}

/// A single-element null-first sequence comparison is the null-first
/// element comparison.
pub proof fn lemma_single_nf(u: Val, v: Val, su: Seq<Val>, sv: Seq<Val>)
    requires
        su.len() == 1,
        sv.len() == 1,
        su[0] == u,
        sv[0] == v,
    ensures
        seq_cmp_nf(su, sv) == nf_cmp(u, v),
{
    assert(su.skip(1).len() == 0);
    assert(sv.skip(1).len() == 0);
    if nf_cmp(u, v) == Some(Ordering::Equal) {
        assert(seq_cmp_nf(su.skip(1), sv.skip(1)) == Some(Ordering::Equal));
    }
}

/// Whether one row of a column is the null value.
fn row_is_null(c: &Column, i: usize) -> (r: bool)
    requires
        c.wf(),
        i < c.vals().len(),
    ensures
        r == (c.vals()[i as int] is Null),
{
    match c {
        Column::Null { .. } => true,
        Column::Nullable(nc) => {
            proof {
                if nc.validity@[i as int] {
                    nc.column.lemma_typ_variant();
                    lemma_inner_not_null(&nc.column, i as int);
                }
            }
            !nc.validity[i]
        }
        _ => {
            proof {
                lemma_inner_not_null(c, i as int);
            }
            false
        }
    }
}

/// Null-first lexicographic comparison of windows of two array-like
/// columns: each row is the window of the flattened inner values between
/// two offsets.
#[verifier::loop_isolation(false)]
#[verifier::rlimit(60)]
fn cmp_nested_windows(
    av: &Column,
    aoff: &Vec<usize>,
    alo: usize,
    ahi: usize,
    bv: &Column,
    boff: &Vec<usize>,
    blo: usize,
    bhi: usize,
    pa: Ghost<Seq<Val>>,
    pb: Ghost<Seq<Val>>,
    iskv: Ghost<bool>,
) -> (r: Option<Ordering>)
    requires
        av.wf(),
        bv.wf(),
        av.typ() == bv.typ(),
        alo <= ahi < aoff@.len(),
        blo <= bhi < boff@.len(),
        forall|i: int, j: int| 0 <= i <= j < aoff@.len() ==> aoff@[i] <= aoff@[j],
        forall|i: int, j: int| 0 <= i <= j < boff@.len() ==> boff@[i] <= boff@[j],
        aoff@[aoff@.len() - 1] <= av.vals().len(),
        boff@[boff@.len() - 1] <= bv.vals().len(),
        pa@.len() == ahi - alo,
        pb@.len() == bhi - blo,
        forall|k: int|
            0 <= k < pa@.len() ==> #[trigger] pa@[k] == (if iskv@ {
                Val::KvMap(
                    av.vals().subrange(aoff@[alo + k] as int, aoff@[alo + k + 1] as int),
                )
            } else {
                Val::Array(
                    av.vals().subrange(aoff@[alo + k] as int, aoff@[alo + k + 1] as int),
                )
            }),
        forall|k: int|
            0 <= k < pb@.len() ==> #[trigger] pb@[k] == (if iskv@ {
                Val::KvMap(
                    bv.vals().subrange(boff@[blo + k] as int, boff@[blo + k + 1] as int),
                )
            } else {
                Val::Array(
                    bv.vals().subrange(boff@[blo + k] as int, boff@[blo + k + 1] as int),
                )
            }),
    ensures
        r == seq_cmp_nf(pa@, pb@),
    decreases av, 1int,
{
    let wa = ahi - alo;
    let wb = bhi - blo;
    let mut k: usize = 0;
    proof {
        assert(pa@.skip(0) =~= pa@);
        assert(pb@.skip(0) =~= pb@);
    }
    while k < wa && k < wb
        invariant
            k <= wa,
            k <= wb,
            seq_cmp_nf(pa@, pb@) == seq_cmp_nf(pa@.skip(k as int), pb@.skip(k as int)),
        decreases wa - k,
    {
        proof {
            assert(aoff@[alo + k] <= aoff@[alo + k + 1]);
            assert(aoff@[alo + k + 1] <= aoff@[aoff@.len() - 1]);
            assert(boff@[blo + k] <= boff@[blo + k + 1]);
            assert(boff@[blo + k + 1] <= boff@[boff@.len() - 1]);
            assert(pa@.skip(k as int)[0] == pa@[k as int]);
            assert(pb@.skip(k as int)[0] == pb@[k as int]);
        }
        let r = cmp_cols_range(av, aoff[alo + k], aoff[alo + k + 1], bv, boff[blo + k], boff[blo
            + k + 1]);
        proof {
            let wina = av.vals().subrange(aoff@[alo + k] as int, aoff@[alo + k + 1] as int);
            let winb = bv.vals().subrange(boff@[blo + k] as int, boff@[blo + k + 1] as int);
            assert(nf_cmp(pa@[k as int], pb@[k as int]) == seq_cmp_nf(wina, winb));
        }
        match r {
            Some(Ordering::Equal) => {
                proof {
                    assert(pa@.skip(k as int).skip(1) =~= pa@.skip(k + 1));
                    assert(pb@.skip(k as int).skip(1) =~= pb@.skip(k + 1));
                }
            }
            other => {
                return other;
            }
        }
        k = k + 1;
    }
    proof {
        assert(pa@.skip(k as int).len() == wa - k);
        assert(pb@.skip(k as int).len() == wb - k);
    }
    if wa == wb {
        Some(Ordering::Equal)
    } else if wa < wb {
        Some(Ordering::Less)
    } else {
        Some(Ordering::Greater)
    }
}

/// Null-first lexicographic comparison of row windows of two tuple columns;
/// each row compares its sibling fields in order, strictly.
#[verifier::loop_isolation(false)]
#[verifier::rlimit(60)]
fn cmp_tuple_windows(
    fa: &Vec<Column>,
    fb: &Vec<Column>,
    alo: usize,
    ahi: usize,
    blo: usize,
    bhi: usize,
    pa: Ghost<Seq<Val>>,
    pb: Ghost<Seq<Val>>,
) -> (r: Option<Ordering>)
    requires
        fa@.len() == fb@.len(),
        forall|j: int| 0 <= j < fa@.len() ==> #[trigger] fa@[j].wf(),
        forall|j: int| 0 <= j < fb@.len() ==> #[trigger] fb@[j].wf(),
        forall|j: int| 0 <= j < fa@.len() ==> #[trigger] fa@[j].typ() == fb@[j].typ(),
        forall|j: int| 0 <= j < fa@.len() ==> ahi <= #[trigger] fa@[j].vals().len(),
        forall|j: int| 0 <= j < fb@.len() ==> bhi <= #[trigger] fb@[j].vals().len(),
        alo <= ahi,
        blo <= bhi,
        pa@.len() == ahi - alo,
        pb@.len() == bhi - blo,
        forall|k: int|
            0 <= k < pa@.len() ==> #[trigger] pa@[k] == Val::Tuple(
                Seq::new(fa@.len(), |j: int| fa@[j].vals()[alo + k]),
            ),
        forall|k: int|
            0 <= k < pb@.len() ==> #[trigger] pb@[k] == Val::Tuple(
                Seq::new(fb@.len(), |j: int| fb@[j].vals()[blo + k]),
            ),
    ensures
        r == seq_cmp_nf(pa@, pb@),
    decreases fa@, 1int,
{
    let wa = ahi - alo;
    let wb = bhi - blo;
    let mut k: usize = 0;
    proof {
        assert(pa@.skip(0) =~= pa@);
        assert(pb@.skip(0) =~= pb@);
    }
    while k < wa && k < wb
        invariant
            k <= wa,
            k <= wb,
            seq_cmp_nf(pa@, pb@) == seq_cmp_nf(pa@.skip(k as int), pb@.skip(k as int)),
        decreases wa - k,
    {
        let ghost rowa = Seq::new(fa@.len(), |j: int| fa@[j].vals()[alo + k]);
        let ghost rowb = Seq::new(fb@.len(), |j: int| fb@[j].vals()[blo + k]);
        proof {
            assert(pa@.skip(k as int)[0] == pa@[k as int]);
            assert(pb@.skip(k as int)[0] == pb@[k as int]);
            assert(rowa.skip(0) =~= rowa);
            assert(rowb.skip(0) =~= rowb);
        }
        let nf = fa.len();
        let mut j: usize = 0;
        let mut row_cmp: Option<Ordering> = Some(Ordering::Equal);
        let mut decided = false;
        while j < nf
            invariant
                j <= nf,
                nf == fa@.len(),
                k < wa,
                k < wb,
                !decided ==> row_cmp == Some(Ordering::Equal),
                !decided ==> seq_cmp_strict(rowa, rowb) == seq_cmp_strict(
                    rowa.skip(j as int),
                    rowb.skip(j as int),
                ),
                decided ==> !(row_cmp is Some && row_cmp->0 is Equal),
                decided ==> row_cmp == seq_cmp_strict(rowa, rowb),
            decreases nf - j,
        {
            if !decided {
                proof {
                    assert(rowa.skip(j as int)[0] == rowa[j as int]);
                    assert(rowb.skip(j as int)[0] == rowb[j as int]);
                }
                let a_null = row_is_null(&fa[j], alo + k);
                let b_null = row_is_null(&fb[j], blo + k);
                if a_null && b_null {
                    proof {
                        assert(rowa[j as int] is Null);
                        assert(rowb[j as int] is Null);
                        assert(val_cmp(rowa.skip(j as int)[0], rowb.skip(j as int)[0]) == Some(
                            Ordering::Equal,
                        ));
                        assert(rowa.skip(j as int).skip(1) =~= rowa.skip(j + 1));
                        assert(rowb.skip(j as int).skip(1) =~= rowb.skip(j + 1));
                    }
                } else if a_null || b_null {
                    proof {
                        assert(val_cmp(rowa.skip(j as int)[0], rowb.skip(j as int)[0]) is None);
                        assert(seq_cmp_strict(rowa, rowb) is None);
                    }
                    row_cmp = None;
                    decided = true;
                } else {
                    proof {
                        assert(decreases_to!(fa@ => fa@[j as int]));
                    }
                    let r = cmp_cols_range(
                        &fa[j],
                        alo + k,
                        alo + k + 1,
                        &fb[j],
                        blo + k,
                        blo + k + 1,
                    );
                    proof {
                        lemma_single_nf(
                            fa@[j as int].vals()[alo + k],
                            fb@[j as int].vals()[blo + k],
                            fa@[j as int].vals().subrange(alo + k, alo + k + 1),
                            fb@[j as int].vals().subrange(blo + k, blo + k + 1),
                        );
                        assert(nf_cmp(rowa[j as int], rowb[j as int]) == val_cmp(
                            rowa[j as int],
                            rowb[j as int],
                        ));
                    }
                    match r {
                        Some(Ordering::Equal) => {
                            proof {
                                assert(rowa.skip(j as int).skip(1) =~= rowa.skip(j + 1));
                                assert(rowb.skip(j as int).skip(1) =~= rowb.skip(j + 1));
                            }
                        }
                        other => {
                            proof {
                                assert(seq_cmp_strict(rowa, rowb) == val_cmp(
                                    rowa[j as int],
                                    rowb[j as int],
                                ));
                            }
                            row_cmp = other;
                            decided = true;
                        }
                    }
                }
            }
            j = j + 1;
        }
        proof {
            if !decided {
                assert(rowa.skip(nf as int).len() == 0);
                assert(rowb.skip(nf as int).len() == 0);
            }
            assert(val_cmp(pa@[k as int], pb@[k as int]) == seq_cmp_strict(rowa, rowb));
            assert(nf_cmp(pa@[k as int], pb@[k as int]) == seq_cmp_strict(rowa, rowb));
        }
        match row_cmp {
            Some(Ordering::Equal) => {
                proof {
                    assert(pa@.skip(k as int).skip(1) =~= pa@.skip(k + 1));
                    assert(pb@.skip(k as int).skip(1) =~= pb@.skip(k + 1));
                }
            }
            other => {
                return other;
            }
        }
        k = k + 1;
    }
    proof {
        assert(pa@.skip(k as int).len() == wa - k);
        assert(pb@.skip(k as int).len() == wb - k);
    }
    if wa == wb {
        Some(Ordering::Equal)
    } else if wa < wb {
        Some(Ordering::Less)
    } else {
        Some(Ordering::Greater)
    }
}

/// The total-order fallback: an incomparable pair collapses to `Equal`, so
/// sorting and grouping stay deterministic.
pub open spec fn total_cmp(a: Val, b: Val) -> Ordering {
    match val_cmp(a, b) {
        Some(o) => o,
        None => Ordering::Equal,
    }
}

impl ScalarRef {
    /// Partial comparison of a pair whose nested types agree.
    fn cmp_compatible(&self, other: &ScalarRef) -> (r: Option<Ordering>)
        requires
            self.wf(),
            other.wf(),
            cmp_ok_t(self.rtyp(), other.rtyp()),
        ensures
            r == val_cmp(self.sval(), other.sval()),
        decreases self, 0int,
    {
        proof {
            lemma_sval_variant(self);
            lemma_sval_variant(other);
        }
        match (self, other) {
            (ScalarRef::Null, ScalarRef::Null) => Some(Ordering::Equal),
            (ScalarRef::EmptyArray, ScalarRef::EmptyArray) => Some(Ordering::Equal),
            (ScalarRef::EmptyMap, ScalarRef::EmptyMap) => Some(Ordering::Equal),
            (ScalarRef::Number(n1), ScalarRef::Number(n2)) => num_cmp(*n1, *n2),
            (ScalarRef::Decimal(d1), ScalarRef::Decimal(d2)) => dec_cmp(*d1, *d2),
            (ScalarRef::Boolean(b1), ScalarRef::Boolean(b2)) => Some(
                if *b1 == *b2 {
                    Ordering::Equal
                } else if !*b1 {
                    Ordering::Less
                } else {
                    Ordering::Greater
                },
            ),
            (ScalarRef::String(s1), ScalarRef::String(s2)) => Some(cmp_bytes(s1, s2)),
            (ScalarRef::Timestamp(t1), ScalarRef::Timestamp(t2)) => Some(
                if *t1 < *t2 {
                    Ordering::Less
                } else if *t1 == *t2 {
                    Ordering::Equal
                } else {
                    Ordering::Greater
                },
            ),
            (ScalarRef::Date(d1), ScalarRef::Date(d2)) => Some(
                if *d1 < *d2 {
                    Ordering::Less
                } else if *d1 == *d2 {
                    Ordering::Equal
                } else {
                    Ordering::Greater
                },
            ),
            (ScalarRef::Array(x), ScalarRef::Array(y)) => {
                let nx = x.len();
                let ny = y.len();
                let r = cmp_cols_range(x, 0, nx, y, 0, ny);
                proof {
                    assert(x.vals().subrange(0, x.vals().len() as int) =~= x.vals());
                    assert(y.vals().subrange(0, y.vals().len() as int) =~= y.vals());
                }
                r
            }
            (ScalarRef::KvMap(x), ScalarRef::KvMap(y)) => {
                let nx = x.len();
                let ny = y.len();
                let r = cmp_cols_range(x, 0, nx, y, 0, ny);
                proof {
                    assert(x.vals().subrange(0, x.vals().len() as int) =~= x.vals());
                    assert(y.vals().subrange(0, y.vals().len() as int) =~= y.vals());
                }
                r
            }
            (ScalarRef::Tuple(f1), ScalarRef::Tuple(f2)) => {
                proof {
                    crate::scalar::lemma_rtyps(f1@);
                    crate::scalar::lemma_rtyps(f2@);
                    lemma_tys_cmp_ok(
                        crate::scalar::rtyps(f1@),
                        crate::scalar::rtyps(f2@),
                    );
                    crate::scalar::lemma_refs_wf(f1@);
                    crate::scalar::lemma_refs_wf(f2@);
                    assert forall|i: int| 0 <= i < f1@.len() && i < f2@.len() implies
                        #[trigger] cmp_ok_t(f1@[i].rtyp(), f2@[i].rtyp()) by {
                        assert(cmp_ok_t(
                            crate::scalar::rtyps(f1@)[i],
                            crate::scalar::rtyps(f2@)[i],
                        ));
                        assert(crate::scalar::rtyps(f1@)[i] == f1@[i].rtyp());
                        assert(crate::scalar::rtyps(f2@)[i] == f2@[i].rtyp());
                    }
                }
                cmp_ref_seqs(f1, f2)
            }
            (ScalarRef::Variant(v1), ScalarRef::Variant(v2)) => jsonb_compare(v1, v2),
            _ => None,
        }
    }

    /// Partial comparison: defined within a matching variant pair with
    /// matching nested types, `None` otherwise. Variant payloads compare by
    /// JSON value.
    pub fn partial_cmp(&self, other: &ScalarRef) -> (r: Option<Ordering>)
        requires
            self.wf(),
            other.wf(),
        ensures
            r == gated_cmp(self, other),
    {
        if cmp_ok_check(self, other) {
            self.cmp_compatible(other)
        } else {
            None
        }
    }

    /// Total-order comparison: the partial order with incomparable pairs
    /// collapsed to `Equal`, so sorting and grouping stay deterministic.
    pub fn cmp(&self, other: &ScalarRef) -> (r: Ordering)
        requires
            self.wf(),
            other.wf(),
        ensures
            r == (match gated_cmp(self, other) {
                Some(o) => o,
                None => Ordering::Equal,
            }),
    {
        match self.partial_cmp(other) {
            Some(o) => o,
            None => Ordering::Equal,
        }
    }

    /// Semantic equality: comparison yields `Equal`. Across variants and
    /// across mismatched nested types this is false.
    pub fn eq(&self, other: &ScalarRef) -> (r: bool)
        requires
            self.wf(),
            other.wf(),
        ensures
            r == (gated_cmp(self, other) == Some(Ordering::Equal)),
    {
        match self.partial_cmp(other) {
            Some(Ordering::Equal) => true,
            _ => false,
        }
    }
}

/// The exposed comparison: the value comparison where the pair's nested
/// types agree, no ordering otherwise.
pub open spec fn gated_cmp(a: &ScalarRef, b: &ScalarRef) -> Option<Ordering> {
    if cmp_ok_t(a.rtyp(), b.rtyp()) {
        val_cmp(a.sval(), b.sval())
    } else {
        None
    }
}

/// Whether the nested types of two scalars agree.
fn cmp_ok_check(x: &ScalarRef, y: &ScalarRef) -> (r: bool)
    ensures
        r == cmp_ok_t(x.rtyp(), y.rtyp()),
    decreases x, 0int,
{
    match (x, y) {
        (ScalarRef::Array(cx), ScalarRef::Array(cy)) => {
            let dx = cx.data_type();
            let dy = cy.data_type();
            crate::types::ty_eq(&dx, &dy)
        }
        (ScalarRef::KvMap(cx), ScalarRef::KvMap(cy)) => {
            let dx = cx.data_type();
            let dy = cy.data_type();
            crate::types::ty_eq(&dx, &dy)
        }
        (ScalarRef::Tuple(f1), ScalarRef::Tuple(f2)) => {
            proof {
                crate::scalar::lemma_rtyps(f1@);
                crate::scalar::lemma_rtyps(f2@);
            }
            cmp_ok_seq_check(f1, f2)
        }
        _ => {
            proof {
                lemma_rtyp_flat_ok(x, y);
            }
            true
        }
    }
}

/// Nested-type agreement over the common prefix of two field lists.
#[verifier::loop_isolation(false)]
fn cmp_ok_seq_check(f1: &Vec<ScalarRef>, f2: &Vec<ScalarRef>) -> (r: bool)
    ensures
        r == tys_cmp_ok(crate::scalar::rtyps(f1@), crate::scalar::rtyps(f2@)),
    decreases f1@, 1int,
{
    let ghost rt1 = crate::scalar::rtyps(f1@);
    let ghost rt2 = crate::scalar::rtyps(f2@);
    proof {
        crate::scalar::lemma_rtyps(f1@);
        crate::scalar::lemma_rtyps(f2@);
        assert(rt1.skip(0) =~= rt1);
        assert(rt2.skip(0) =~= rt2);
    }
    let n1 = f1.len();
    let n2 = f2.len();
    let mut k: usize = 0;
    while k < n1 && k < n2
        invariant
            k <= n1,
            k <= n2,
            tys_cmp_ok(rt1, rt2) == tys_cmp_ok(rt1.skip(k as int), rt2.skip(k as int)),
        decreases n1 - k,
    {
        proof {
            assert(decreases_to!(f1@ => f1@[k as int]));
            assert(rt1.skip(k as int)[0] == rt1[k as int]);
            assert(rt2.skip(k as int)[0] == rt2[k as int]);
        }
        let ok = cmp_ok_check(&f1[k], &f2[k]);
        if !ok {
            return false;
        }
        proof {
            assert(rt1.skip(k as int).skip(1) =~= rt1.skip(k + 1));
            assert(rt2.skip(k as int).skip(1) =~= rt2.skip(k + 1));
        }
        k = k + 1;
    }
    proof {
        assert(rt1.skip(k as int).len() == n1 - k);
        assert(rt2.skip(k as int).len() == n2 - k);
    }
    true
}

/// Flat or mismatched-constructor pairs always agree on nested types.
proof fn lemma_rtyp_flat_ok(x: &ScalarRef, y: &ScalarRef)
    requires
        !(x is Array && y is Array),
        !(x is KvMap && y is KvMap),
        !(x is Tuple && y is Tuple),
    ensures
        cmp_ok_t(x.rtyp(), y.rtyp()),
{
    crate::builder::lemma_rtyp_variant(x);
    crate::builder::lemma_rtyp_variant(y);
}

/// Lexicographic strict comparison of two vectors of sibling scalar views.
fn cmp_ref_seqs(f1: &Vec<ScalarRef>, f2: &Vec<ScalarRef>) -> (r: Option<Ordering>)
    requires
        forall|i: int| 0 <= i < f1@.len() ==> #[trigger] f1@[i].wf(),
        forall|i: int| 0 <= i < f2@.len() ==> #[trigger] f2@[i].wf(),
        forall|i: int|
            0 <= i < f1@.len() && i < f2@.len() ==> #[trigger] cmp_ok_t(
                f1@[i].rtyp(),
                f2@[i].rtyp(),
            ),
    ensures
        r == seq_cmp_strict(crate::scalar::rvals(f1@), crate::scalar::rvals(f2@)),
    decreases f1@, 1int,
{
    let ghost pa = crate::scalar::rvals(f1@);
    let ghost pb = crate::scalar::rvals(f2@);
    proof {
        crate::scalar::lemma_rvals(f1@);
        crate::scalar::lemma_rvals(f2@);
        assert(pa.skip(0) =~= pa);
        assert(pb.skip(0) =~= pb);
    }
    let na = f1.len();
    let nb = f2.len();
    let mut k: usize = 0;
    while k < na && k < nb
        invariant
            k <= na,
            k <= nb,
            na == f1@.len(),
            nb == f2@.len(),
            pa == crate::scalar::rvals(f1@),
            pb == crate::scalar::rvals(f2@),
            pa.len() == na,
            pb.len() == nb,
            forall|i: int| 0 <= i < f1@.len() ==> #[trigger] f1@[i].wf(),
            forall|i: int| 0 <= i < f2@.len() ==> #[trigger] f2@[i].wf(),
            forall|i: int|
                0 <= i < f1@.len() && i < f2@.len() ==> #[trigger] cmp_ok_t(
                    f1@[i].rtyp(),
                    f2@[i].rtyp(),
                ),
            forall|i: int| 0 <= i < na ==> #[trigger] pa[i] == f1@[i].sval(),
            forall|i: int| 0 <= i < nb ==> #[trigger] pb[i] == f2@[i].sval(),
            seq_cmp_strict(pa, pb) == seq_cmp_strict(pa.skip(k as int), pb.skip(k as int)),
        decreases na - k,
    {
        proof {
            assert(decreases_to!(f1@ => f1@[k as int]));
            assert(pa.skip(k as int)[0] == pa[k as int]);
            assert(pb.skip(k as int)[0] == pb[k as int]);
        }
        let r = f1[k].cmp_compatible(&f2[k]);
        match r {
            Some(Ordering::Equal) => {
                proof {
                    assert(pa.skip(k as int).skip(1) =~= pa.skip(k + 1));
                    assert(pb.skip(k as int).skip(1) =~= pb.skip(k + 1));
                }
            }
            other => {
                return other;
            }
        }
        k = k + 1;
    }
    proof {
        assert(pa.skip(k as int).len() == na - k);
        assert(pb.skip(k as int).len() == nb - k);
    }
    if na == nb {
        Some(Ordering::Equal)
    } else if na < nb {
        Some(Ordering::Less)
    } else {
        Some(Ordering::Greater)
    }
}

/// The exposed comparison of owned scalars: the value comparison where the
/// pair's nested types agree, no ordering otherwise.
pub open spec fn gated_cmp_s(a: &Scalar, b: &Scalar) -> Option<Ordering> {
    if cmp_ok_t(a.styp(), b.styp()) {
        val_cmp(a.sval(), b.sval())
    } else {
        None
    }
}

impl Scalar {
    /// Partial comparison of owned scalars; see `ScalarRef::partial_cmp`.
    pub fn partial_cmp(&self, other: &Scalar) -> (r: Option<Ordering>)
        requires
            self.wf(),
            other.wf(),
        ensures
            r == gated_cmp_s(self, other),
    {
        let a = self.as_ref();
        let b = other.as_ref();
        a.partial_cmp(&b)
    }

    /// Total-order comparison; incomparable pairs collapse to `Equal`.
    pub fn cmp(&self, other: &Scalar) -> (r: Ordering)
        requires
            self.wf(),
            other.wf(),
        ensures
            r == (match gated_cmp_s(self, other) {
                Some(o) => o,
                None => Ordering::Equal,
            }),
    {
        match self.partial_cmp(other) {
            Some(o) => o,
            None => Ordering::Equal,
        }
    }

    /// Semantic equality of owned scalars.
    pub fn eq(&self, other: &Scalar) -> (r: bool)
        requires
            self.wf(),
            other.wf(),
        ensures
            r == (gated_cmp_s(self, other) == Some(Ordering::Equal)),
    {
        match self.partial_cmp(other) {
            Some(Ordering::Equal) => true,
            _ => false,
        }
    }
}

/// The exposed column comparison: the row-wise comparison where the two
/// columns carry the same logical type, no ordering otherwise.
pub open spec fn gated_col_cmp(a: &Column, b: &Column) -> Option<Ordering> {
    if a.typ() == b.typ() {
        seq_cmp_nf(a.vals(), b.vals())
    } else {
        None
    }
}

impl Column {
    /// Row-wise lexicographic partial comparison; masked (null) rows order
    /// first, and differently-typed columns have no ordering.
    pub fn partial_cmp(&self, other: &Column) -> (r: Option<Ordering>)
        requires
            self.wf(),
            other.wf(),
        ensures
            r == gated_col_cmp(self, other),
    {
        let dx = self.data_type();
        let dy = other.data_type();
        if !crate::types::ty_eq(&dx, &dy) {
            return None;
        }
        let na = self.len();
        let nb = other.len();
        let r = cmp_cols_range(self, 0, na, other, 0, nb);
        proof {
            assert(self.vals().subrange(0, self.vals().len() as int) =~= self.vals());
            assert(other.vals().subrange(0, other.vals().len() as int) =~= other.vals());
        }
        r
    }

    /// Semantic row-wise equality; differently-typed columns are unequal.
    pub fn eq(&self, other: &Column) -> (r: bool)
        requires
            self.wf(),
            other.wf(),
        ensures
            r == (gated_col_cmp(self, other) == Some(Ordering::Equal)),
    {
        match self.partial_cmp(other) {
            Some(Ordering::Equal) => true,
            _ => false,
        }
    }
}

/// A byte sequence compares equal to itself.
pub proof fn lemma_bytes_cmp_refl(a: Seq<u8>)
    ensures
        bytes_cmp(a, a) == Ordering::Equal,
    decreases a.len(),
{
    if a.len() > 0 {
        lemma_bytes_cmp_refl(a.skip(1));
    }
}

/// Swapping the operands of a byte comparison reverses the order.
pub proof fn lemma_bytes_cmp_flip(a: Seq<u8>, b: Seq<u8>)
    ensures
        (bytes_cmp(a, b) is Less) == (bytes_cmp(b, a) is Greater),
        (bytes_cmp(a, b) is Equal) == (bytes_cmp(b, a) is Equal),
    decreases a.len(),
{
    if a.len() > 0 && b.len() > 0 {
        lemma_bytes_cmp_flip(a.skip(1), b.skip(1));
    }
}

/// The at-most order of the byte comparison is transitive.
pub proof fn lemma_bytes_cmp_trans(a: Seq<u8>, b: Seq<u8>, c: Seq<u8>)
    ensures
        bytes_cmp(a, b) != Ordering::Greater && bytes_cmp(b, c) != Ordering::Greater
            ==> bytes_cmp(a, c) != Ordering::Greater,
        bytes_cmp(a, b) != Ordering::Less && bytes_cmp(b, c) != Ordering::Less ==> bytes_cmp(
            a,
            c,
        ) != Ordering::Less,
    decreases a.len() + b.len() + c.len(),
{
    if a.len() > 0 && b.len() > 0 && c.len() > 0 {
        lemma_bytes_cmp_trans(a.skip(1), b.skip(1), c.skip(1));
    }
}

} // verus!
