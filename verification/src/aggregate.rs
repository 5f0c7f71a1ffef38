//! Aggregate reduction over one column: minimum, maximum and sum.

use core::cmp::Ordering;

use vstd::prelude::*;

use crate::column::Column;
use crate::column::NumberColumn;
use crate::ord::bytes_cmp;
use crate::scalar::NumberScalar;
use crate::scalar::Scalar;
use crate::scalar::Val;
use crate::types::NumberDataType;

verus! {

/// The aggregate operation to apply.
#[derive(Clone, Copy, Debug, PartialEq, Eq, Structural)]
pub enum DataValueAggregateOperator {
    Min,
    Max,
    Sum,
}

/// Why an aggregation was refused.
#[derive(Clone, Copy, Debug, PartialEq, Eq, Structural)]
pub enum AggregateError {
    /// The operation is not defined for the column's data type.
    Unsupported,
    /// The exact sum does not fit the column's number kind.
    Overflow,
}

/// The mathematical sum of the numeric rows.
pub open spec fn sum_ivals(s: Seq<Val>) -> int
    decreases s,
{
    if s.len() == 0 {
        0
    } else {
        sum_ivals(s.drop_last()) + s.last()->Number_0.ival()
    }
}

/// The inclusive value range of a number kind.
pub open spec fn kind_min(k: NumberDataType) -> int {
    match k {
        NumberDataType::UInt8 => 0,
        NumberDataType::UInt16 => 0,
        NumberDataType::UInt32 => 0,
        NumberDataType::UInt64 => 0,
        NumberDataType::Int8 => i8::MIN as int,
        NumberDataType::Int16 => i16::MIN as int,
        NumberDataType::Int32 => i32::MIN as int,
        NumberDataType::Int64 => i64::MIN as int,
    }
}

/// The inclusive upper bound of a number kind.
pub open spec fn kind_max(k: NumberDataType) -> int {
    match k {
        NumberDataType::UInt8 => u8::MAX as int,
        NumberDataType::UInt16 => u16::MAX as int,
        NumberDataType::UInt32 => u32::MAX as int,
        NumberDataType::UInt64 => u64::MAX as int,
        NumberDataType::Int8 => i8::MAX as int,
        NumberDataType::Int16 => i16::MAX as int,
        NumberDataType::Int32 => i32::MAX as int,
        NumberDataType::Int64 => i64::MAX as int,
    }
}

/// One numeric row's value and kind.
pub proof fn lemma_number_vals(nc: &NumberColumn, i: int)
    requires
        0 <= i < nc.vals().len(),
    ensures
        nc.vals()[i] is Number,
        nc.vals()[i]->Number_0.kind() == nc.kind(),
        kind_min(nc.kind()) <= nc.vals()[i]->Number_0.ival() <= kind_max(nc.kind()),
{
    match nc {
        NumberColumn::UInt8(_) => {},
        NumberColumn::UInt16(_) => {},
        NumberColumn::UInt32(_) => {},
        NumberColumn::UInt64(_) => {},
        NumberColumn::Int8(_) => {},
        NumberColumn::Int16(_) => {},
        NumberColumn::Int32(_) => {},
        NumberColumn::Int64(_) => {},
    }
}

/// Minimum or maximum of a non-empty number buffer, by value.
pub(crate) fn number_min_max(nc: &NumberColumn, want_min: bool) -> (r: NumberScalar)
    requires
        nc.vals().len() > 0,
    ensures
        r.kind() == nc.kind(),
        exists|j: int| 0 <= j < nc.vals().len() && nc.vals()[j]->Number_0 == r,
        want_min ==> forall|j: int|
            0 <= j < nc.vals().len() ==> r.ival() <= #[trigger] nc.vals()[j]->Number_0.ival(),
        !want_min ==> forall|j: int|
            0 <= j < nc.vals().len() ==> r.ival() >= #[trigger] nc.vals()[j]->Number_0.ival(),
{
    let n = nc.len();
    let mut best = match nc.index(0) {
        Some(s) => s,
        None => vstd::pervasive::unreached(),
    };
    proof {
        lemma_number_vals(nc, 0);
        assert(nc.vals()[0] == Val::Number(best));
    }
    let mut i: usize = 1;
    while i < n
        invariant
            1 <= i <= n,
            n == nc.vals().len(),
            best.kind() == nc.kind(),
            exists|j: int| 0 <= j < i as int && nc.vals()[j]->Number_0 == best,
            want_min ==> forall|j: int|
                0 <= j < i as int ==> best.ival() <= #[trigger] nc.vals()[j]->Number_0.ival(),
            !want_min ==> forall|j: int|
                0 <= j < i as int ==> best.ival() >= #[trigger] nc.vals()[j]->Number_0.ival(),
        decreases n - i,
    {
        let cur = match nc.index(i) {
            Some(s) => s,
            None => vstd::pervasive::unreached(),
        };
        proof {
            lemma_number_vals(nc, i as int);
            assert(nc.vals()[i as int] == Val::Number(cur));
        }
        let take = match crate::ord::num_cmp(cur, best) {
            Some(Ordering::Less) => want_min,
            Some(Ordering::Greater) => !want_min,
            _ => false,
        };
        if take {
            best = cur;
        }
        i = i + 1;
    }
    best
}

/// Exact sum of a number buffer whose kind is not the widest unsigned one,
/// accumulated in a signed 128-bit integer, which the sum of machine-many
/// such values always fits.
fn number_sum(nc: &NumberColumn) -> (r: i128)
    requires
        !(nc is UInt64),
    ensures
        r == sum_ivals(nc.vals()),
{
    let n = nc.len();
    let mut acc: i128 = 0;
    let mut i: usize = 0;
    proof {
        assert(nc.vals().subrange(0, 0) =~= Seq::<Val>::empty());
    }
    while i < n
        invariant
            i <= n,
            !(nc is UInt64),
            n == nc.vals().len(),
            n <= usize::MAX,
            acc == sum_ivals(nc.vals().subrange(0, i as int)),
            -(i as int) * 9223372036854775808int <= acc <= (i as int) * 9223372036854775808int,
        decreases n - i,
    {
        let cur = match nc.index(i) {
            Some(s) => s,
            None => vstd::pervasive::unreached(),
        };
        proof {
            lemma_number_vals(nc, i as int);
            lemma_number_vals_kind_variant(nc, cur, i as int);
            assert(nc.vals()[i as int] == Val::Number(cur));
        }
        let v: i128 = match cur {
            NumberScalar::UInt8(x) => x as i128,
            NumberScalar::UInt16(x) => x as i128,
            NumberScalar::UInt32(x) => x as i128,
            NumberScalar::UInt64(_) => vstd::pervasive::unreached(),
            NumberScalar::Int8(x) => x as i128,
            NumberScalar::Int16(x) => x as i128,
            NumberScalar::Int32(x) => x as i128,
            NumberScalar::Int64(x) => x as i128,
        };
        proof {
            assert(v == cur.ival());
            assert(-9223372036854775808int <= v <= 9223372036854775808int);
            assert(nc.vals().subrange(0, i + 1).drop_last() =~= nc.vals().subrange(0, i as int));
            assert(nc.vals().subrange(0, i + 1).last() == nc.vals()[i as int]);
        }
        acc = acc + v;
        i = i + 1;
    }
    proof {
        assert(nc.vals().subrange(0, n as int) =~= nc.vals());
    }
    acc
}

/// A row of a non-widest-unsigned buffer is not of the widest unsigned
/// kind.
proof fn lemma_number_vals_kind_variant(nc: &NumberColumn, cur: NumberScalar, i: int)
    requires
        !(nc is UInt64),
        0 <= i < nc.vals().len(),
        nc.vals()[i] == Val::Number(cur),
    ensures
        !(cur is UInt64),
{
    lemma_number_vals(nc, i);
    match nc {
        NumberColumn::UInt8(_) => {},
        NumberColumn::UInt16(_) => {},
        NumberColumn::UInt32(_) => {},
        NumberColumn::UInt64(_) => {},
        NumberColumn::Int8(_) => {},
        NumberColumn::Int16(_) => {},
        NumberColumn::Int32(_) => {},
        NumberColumn::Int64(_) => {},
    }
    match cur {
        NumberScalar::UInt8(_) => {},
        NumberScalar::UInt16(_) => {},
        NumberScalar::UInt32(_) => {},
        NumberScalar::UInt64(_) => {},
        NumberScalar::Int8(_) => {},
        NumberScalar::Int16(_) => {},
        NumberScalar::Int32(_) => {},
        NumberScalar::Int64(_) => {},
    }
}

/// Exact sum of the widest unsigned buffer, accumulated in an unsigned
/// 128-bit integer, which the sum of machine-many such values always fits.
fn number_sum_u64(vec: &Vec<u64>, nc: &NumberColumn) -> (r: u128)
    requires
        *nc == NumberColumn::UInt64(*vec),
    ensures
        r == sum_ivals(nc.vals()),
{
    let n = vec.len();
    let mut acc: u128 = 0;
    let mut i: usize = 0;
    proof {
        assert(nc.vals().subrange(0, 0) =~= Seq::<Val>::empty());
        assert(nc.vals().len() == vec@.len());
    }
    while i < n
        invariant
            i <= n,
            *nc == NumberColumn::UInt64(*vec),
            n == vec@.len(),
            nc.vals().len() == n,
            n <= usize::MAX,
            acc == sum_ivals(nc.vals().subrange(0, i as int)),
            acc <= (i as int) * 18446744073709551615int,
        decreases n - i,
    {
        let x = vec[i];
        proof {
            assert(nc.vals()[i as int] == Val::Number(NumberScalar::UInt64(vec@[i as int])));
            assert(nc.vals().subrange(0, i + 1).drop_last() =~= nc.vals().subrange(0, i as int));
            assert(nc.vals().subrange(0, i + 1).last() == nc.vals()[i as int]);
        }
        acc = acc + (x as u128);
        i = i + 1;
    }
    proof {
        assert(nc.vals().subrange(0, n as int) =~= nc.vals());
    }
    acc
}

/// The sum as a number of the buffer's kind, if the exact sum fits it.
fn sum_to_kind(nc: &NumberColumn, acc: i128) -> (r: Result<NumberScalar, AggregateError>)
    ensures
        match r {
            Ok(s) => s.kind() == nc.kind() && s.ival() == acc && kind_min(nc.kind()) <= acc
                <= kind_max(nc.kind()),
            Err(e) => e == AggregateError::Overflow && !(kind_min(nc.kind()) <= acc <= kind_max(
                nc.kind(),
            )),
        },
{
    match nc {
        NumberColumn::UInt8(_) => if 0 <= acc && acc <= u8::MAX as i128 {
            Ok(NumberScalar::UInt8(acc as u8))
        } else {
            Err(AggregateError::Overflow)
        },
        NumberColumn::UInt16(_) => if 0 <= acc && acc <= u16::MAX as i128 {
            Ok(NumberScalar::UInt16(acc as u16))
        } else {
            Err(AggregateError::Overflow)
        },
        NumberColumn::UInt32(_) => if 0 <= acc && acc <= u32::MAX as i128 {
            Ok(NumberScalar::UInt32(acc as u32))
        } else {
            Err(AggregateError::Overflow)
        },
        NumberColumn::UInt64(_) => if 0 <= acc && acc <= u64::MAX as i128 {
            Ok(NumberScalar::UInt64(acc as u64))
        } else {
            Err(AggregateError::Overflow)
        },
        NumberColumn::Int8(_) => if i8::MIN as i128 <= acc && acc <= i8::MAX as i128 {
            Ok(NumberScalar::Int8(acc as i8))
        } else {
            Err(AggregateError::Overflow)
        },
        NumberColumn::Int16(_) => if i16::MIN as i128 <= acc && acc <= i16::MAX as i128 {
            Ok(NumberScalar::Int16(acc as i16))
        } else {
            Err(AggregateError::Overflow)
        },
        NumberColumn::Int32(_) => if i32::MIN as i128 <= acc && acc <= i32::MAX as i128 {
            Ok(NumberScalar::Int32(acc as i32))
        } else {
            Err(AggregateError::Overflow)
        },
        NumberColumn::Int64(_) => if i64::MIN as i128 <= acc && acc <= i64::MAX as i128 {
            Ok(NumberScalar::Int64(acc as i64))
        } else {
            Err(AggregateError::Overflow)
        },
    }
}

/// Lexicographic minimum or maximum of the rows of a non-empty string
/// column.
pub(crate) fn string_min_max(c: &Column, want_min: bool) -> (r: Vec<u8>)
    requires
        c.wf(),
        c is String,
        c.vals().len() > 0,
    ensures
        exists|j: int| 0 <= j < c.vals().len() && c.vals()[j] == Val::String(r@),
        want_min ==> forall|j: int|
            0 <= j < c.vals().len() ==> bytes_cmp(r@, #[trigger] c.vals()[j]->String_0)
                != Ordering::Greater,
        !want_min ==> forall|j: int|
            0 <= j < c.vals().len() ==> bytes_cmp(r@, #[trigger] c.vals()[j]->String_0)
                != Ordering::Less,
{
    let n = c.len();
    let first = c.index_unchecked(0);
    let mut best: Vec<u8> = match first {
        crate::scalar::ScalarRef::String(b) => b,
        _ => vstd::pervasive::unreached(),
    };
    proof {
        crate::ord::lemma_sval_variant(&first);
        assert(c.vals()[0] == Val::String(best@));
        crate::ord::lemma_bytes_cmp_refl(best@);
    }
    let mut i: usize = 1;
    while i < n
        invariant
            1 <= i <= n,
            c.wf(),
            c is String,
            n == c.vals().len(),
            exists|j: int| 0 <= j < i as int && c.vals()[j] == Val::String(best@),
            want_min ==> forall|j: int|
                0 <= j < i as int ==> bytes_cmp(best@, #[trigger] c.vals()[j]->String_0)
                    != Ordering::Greater,
            !want_min ==> forall|j: int|
                0 <= j < i as int ==> bytes_cmp(best@, #[trigger] c.vals()[j]->String_0)
                    != Ordering::Less,
        decreases n - i,
    {
        let curs = c.index_unchecked(i);
        let cur: Vec<u8> = match curs {
            crate::scalar::ScalarRef::String(b) => b,
            _ => {
                proof {
                    crate::ord::lemma_sval_variant(&curs);
                    crate::column::lemma_string_val(c, i as int);
                }
                vstd::pervasive::unreached()
            }
        };
        proof {
            crate::ord::lemma_sval_variant(&curs);
            assert(c.vals()[i as int] == Val::String(cur@));
        }
        let ord = crate::ord::cmp_bytes(&cur, &best);
        let take = match ord {
            Ordering::Less => want_min,
            Ordering::Greater => !want_min,
            Ordering::Equal => false,
        };
        if take {
            proof {
                crate::ord::lemma_bytes_cmp_refl(cur@);
                crate::ord::lemma_bytes_cmp_flip(cur@, best@);
                assert forall|j: int| 0 <= j < i as int implies (want_min ==> bytes_cmp(
                    cur@,
                    #[trigger] c.vals()[j]->String_0,
                ) != Ordering::Greater) && (!want_min ==> bytes_cmp(
                    cur@,
                    c.vals()[j]->String_0,
                ) != Ordering::Less) by {
                    crate::ord::lemma_bytes_cmp_trans(cur@, best@, c.vals()[j]->String_0);
                }
            }
            best = cur;
        } else {
            proof {
                crate::ord::lemma_bytes_cmp_flip(cur@, best@);
                crate::ord::lemma_bytes_cmp_flip(best@, cur@);
            }
        }
        i = i + 1;
    }
    best
}

/// Aggregate one column into a single scalar. Minimum and maximum are
/// defined for number and string columns, the sum for number columns; an
/// empty column aggregates to null. Any other combination is unsupported.
/// The sum is computed exactly; a sum that no value of the column's kind
/// can hold is reported as an overflow rather than wrapped, a deliberate
/// choice: a silently wrapped aggregate would corrupt the pruning and
/// aggregation decisions built on it.
pub fn data_array_aggregate_op(
    op: DataValueAggregateOperator,
    value: &Column,
) -> (r: Result<Scalar, AggregateError>)
    requires
        value.wf(),
    ensures
        match *value {
            Column::Number(ref nc) => {
                if nc.vals().len() == 0 {
                    r == Ok::<Scalar, AggregateError>(Scalar::Null)
                } else {
                    match op {
                        DataValueAggregateOperator::Min => r matches Ok(s) && (
                        s matches Scalar::Number(m) && m.kind() == nc.kind() && (exists|j: int|
                            0 <= j < nc.vals().len() && nc.vals()[j]->Number_0 == m) && (forall|
                            j: int,
                        |
                            0 <= j < nc.vals().len() ==> m.ival()
                                <= #[trigger] nc.vals()[j]->Number_0.ival())),
                        DataValueAggregateOperator::Max => r matches Ok(s) && (
                        s matches Scalar::Number(m) && m.kind() == nc.kind() && (exists|j: int|
                            0 <= j < nc.vals().len() && nc.vals()[j]->Number_0 == m) && (forall|
                            j: int,
                        |
                            0 <= j < nc.vals().len() ==> m.ival()
                                >= #[trigger] nc.vals()[j]->Number_0.ival())),
                        DataValueAggregateOperator::Sum => match r {
                            Ok(s) => s matches Scalar::Number(m) && m.kind() == nc.kind()
                                && m.ival() == sum_ivals(nc.vals()),
                            Err(e) => e == AggregateError::Overflow && !(kind_min(nc.kind())
                                <= sum_ivals(nc.vals()) <= kind_max(nc.kind())),
                        },
                    }
                }
            },
            Column::String(_) => {
                if value.vals().len() == 0 {
                    r == if op == DataValueAggregateOperator::Sum {
                        Err::<Scalar, AggregateError>(AggregateError::Unsupported)
                    } else {
                        Ok::<Scalar, AggregateError>(Scalar::Null)
                    }
                } else {
                    match op {
                        DataValueAggregateOperator::Min => r matches Ok(s) && (
                        s matches Scalar::String(b) && (exists|j: int|
                            0 <= j < value.vals().len() && value.vals()[j] == Val::String(b@)) && (
                        forall|j: int|
                            0 <= j < value.vals().len() ==> bytes_cmp(
                                b@,
                                #[trigger] value.vals()[j]->String_0,
                            ) != Ordering::Greater)),
                        DataValueAggregateOperator::Max => r matches Ok(s) && (
                        s matches Scalar::String(b) && (exists|j: int|
                            0 <= j < value.vals().len() && value.vals()[j] == Val::String(b@)) && (
                        forall|j: int|
                            0 <= j < value.vals().len() ==> bytes_cmp(
                                b@,
                                #[trigger] value.vals()[j]->String_0,
                            ) != Ordering::Less)),
                        DataValueAggregateOperator::Sum => r == Err::<Scalar, AggregateError>(
                            AggregateError::Unsupported,
                        ),
                    }
                }
            },
            _ => r == Err::<Scalar, AggregateError>(AggregateError::Unsupported),
        },
{
    match value {
        Column::Number(nc) => {
            let n = nc.len();
            if n == 0 {
                return Ok(Scalar::Null);
            }
            match op {
                DataValueAggregateOperator::Min => Ok(Scalar::Number(number_min_max(nc, true))),
                DataValueAggregateOperator::Max => Ok(Scalar::Number(number_min_max(nc, false))),
                DataValueAggregateOperator::Sum => match nc {
                    NumberColumn::UInt64(vec) => {
                        let acc = number_sum_u64(vec, nc);
                        if acc <= u64::MAX as u128 {
                            Ok(Scalar::Number(NumberScalar::UInt64(acc as u64)))
                        } else {
                            Err(AggregateError::Overflow)
                        }
                    }
                    _ => {
                        let acc = number_sum(nc);
                        match sum_to_kind(nc, acc) {
                            Ok(m) => Ok(Scalar::Number(m)),
                            Err(e) => Err(e),
                        }
                    }
                },
            }
        }
        Column::String(_) => {
            let n = value.len();
            match op {
                DataValueAggregateOperator::Sum => Err(AggregateError::Unsupported),
                DataValueAggregateOperator::Min => {
                    if n == 0 {
                        return Ok(Scalar::Null);
                    }
                    Ok(Scalar::String(string_min_max(value, true)))
                }
                DataValueAggregateOperator::Max => {
                    if n == 0 {
                        return Ok(Scalar::Null);
                    }
                    Ok(Scalar::String(string_min_max(value, false)))
                }
            }
        }
        _ => Err(AggregateError::Unsupported),
    }
}

} // verus!
