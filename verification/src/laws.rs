//! The library's stated laws, as proof functions over the contracts that
//! the executable functions carry.

use core::cmp::Ordering;

use vstd::prelude::*;

use crate::column::Column;
use crate::ord::val_cmp;
use crate::scalar::Val;

verus! {

/// Whether two values are built by the same constructor.
pub open spec fn same_variant(a: Val, b: Val) -> bool {
    ||| (a is Null && b is Null)
    ||| (a is EmptyArray && b is EmptyArray)
    ||| (a is EmptyMap && b is EmptyMap)
    ||| (a is Number && b is Number)
    ||| (a is Decimal && b is Decimal)
    ||| (a is Boolean && b is Boolean)
    ||| (a is String && b is String)
    ||| (a is Timestamp && b is Timestamp)
    ||| (a is Date && b is Date)
    ||| (a is Array && b is Array)
    ||| (a is KvMap && b is KvMap)
    ||| (a is Tuple && b is Tuple)
    ||| (a is Variant && b is Variant)
}

/// Cross-variant ordering law: for values of differing variants the partial
/// comparison returns no ordering, and equality is false.
pub proof fn lemma_cross_variant_ordering(a: Val, b: Val)
    requires
        !same_variant(a, b),
    ensures
        val_cmp(a, b) is None,
        val_cmp(a, b) != Some(Ordering::Equal),
{
}

/// Slice composition law: slicing a slice reads the same rows as one slice
/// with composed bounds. The columns are related exactly as `Column::slice`
/// relates its result to its input.
pub proof fn lemma_slice_composition(
    c: &Column,
    c1: &Column,
    c2: &Column,
    a: int,
    b: int,
    x: int,
    y: int,
)
    requires
        0 <= a <= b <= c.vals().len(),
        0 <= x <= y <= b - a,
        c1.vals() == c.vals().subrange(a, b),
        c2.vals() == c1.vals().subrange(x, y),
    ensures
        c2.vals() == c.vals().subrange(a + x, a + y),
{
    assert(c.vals().subrange(a, b).subrange(x, y) =~= c.vals().subrange(a + x, a + y));
}

/// Builder law: a builder that accumulated exactly the values `vs` and was
/// finalized yields a column that reads back exactly `vs`, row for row.
pub proof fn lemma_builder_law(b: &crate::builder::ColumnBuilder, c: &Column, vs: Seq<Val>)
    requires
        b.bvals() == vs,
        c.vals() == b.bvals(),
    ensures
        c.vals().len() == vs.len(),
        forall|i: int| 0 <= i < vs.len() ==> c.vals()[i] == vs[i],
{
}

/// Nullable semantics law: pushing the null scalar into a nullable builder
/// appends exactly a null row, whatever the inner builder's default row
/// holds.
pub proof fn lemma_nullable_push(b0: Seq<Val>, b1: Seq<Val>)
    requires
        b1 == b0.push(Val::Null),
    ensures
        b1.len() == b0.len() + 1,
        b1[b0.len() as int] is Null,
{
}

/// Domain containment law: every row of a non-empty column lies within the
/// bounds its domain states — between min and max for numbers, timestamps
/// and dates, and between the lexicographic bounds for strings.
pub proof fn lemma_domain_containment(d: &crate::domain::Domain, c: &Column, i: int)
    requires
        crate::domain::domain_ok(d, c),
        0 <= i < c.vals().len(),
    ensures
        c matches Column::Number(nc) ==> (d matches crate::domain::Domain::Number(nd)
            && crate::domain::nd_min(&nd) <= nc.vals()[i]->Number_0.ival()
            <= crate::domain::nd_max(&nd)),
        c matches Column::Timestamp(v) ==> (d matches crate::domain::Domain::Timestamp(sd)
            && sd.min <= v@[i] <= sd.max),
        c matches Column::Date(v) ==> (d matches crate::domain::Domain::Date(sd) && sd.min <= v@[i]
            <= sd.max),
        c is String ==> (d matches crate::domain::Domain::String(sd) && crate::ord::bytes_cmp(
            sd.min@,
            c.vals()[i]->String_0,
        ) != core::cmp::Ordering::Greater && (sd.max matches Some(mx) && crate::ord::bytes_cmp(
            mx@,
            c.vals()[i]->String_0,
        ) != core::cmp::Ordering::Less)),
{
}

/// Domain containment law for nullable columns: every valid row of a
/// nullable column over a flat numeric, date, timestamp or string encoding
/// lies within the bounds its inner summary states, and `has_null` reports
/// exactly whether a masked row exists.
pub proof fn lemma_nullable_domain_containment(d: &crate::domain::Domain, c: &Column, i: int)
    requires
        c.wf(),
        crate::domain::domain_ok(d, c),
        c matches Column::Nullable(nc) && 0 <= i < nc.validity@.len() && nc.validity@[i],
    ensures
        d matches crate::domain::Domain::Nullable(nd) && (nd.has_null <==> exists|j: int|
            0 <= j < c->Nullable_0.validity@.len() && !(#[trigger] c->Nullable_0.validity@[j])),
        c->Nullable_0.column matches Column::Number(nc2)
            ==> (d->Nullable_0.value matches Some(inner) && (
        *inner matches crate::domain::Domain::Number(nd2) && crate::domain::nd_min(&nd2)
            <= nc2.vals()[i]->Number_0.ival() <= crate::domain::nd_max(&nd2))),
        c->Nullable_0.column matches Column::Timestamp(v)
            ==> (d->Nullable_0.value matches Some(inner) && (
        *inner matches crate::domain::Domain::Timestamp(sd) && sd.min <= v@[i] <= sd.max)),
        c->Nullable_0.column matches Column::Date(v)
            ==> (d->Nullable_0.value matches Some(inner) && (
        *inner matches crate::domain::Domain::Date(sd) && sd.min <= v@[i] <= sd.max)),
        c->Nullable_0.column is String ==> (d->Nullable_0.value matches Some(inner) && (
        *inner matches crate::domain::Domain::String(sd) && crate::ord::bytes_cmp(
            sd.min@,
            c->Nullable_0.column.vals()[i]->String_0,
        ) != core::cmp::Ordering::Greater && (sd.max matches Some(mx) && crate::ord::bytes_cmp(
            mx@,
            c->Nullable_0.column.vals()[i]->String_0,
        ) != core::cmp::Ordering::Less))),
{
    let nc = c->Nullable_0;
    assert(0 <= i < nc.validity@.len() && nc.validity@[i]);
    assert(nc.validity@.len() == nc.column.vals().len());
    assert(exists|j: int| 0 <= j < nc.validity@.len() && #[trigger] nc.validity@[j]);
    assert(d->Nullable_0.value matches Some(inner) && crate::domain::nullable_inner_ok(
        &inner,
        &nc.column,
        nc.validity@,
    ));
}

} // verus!
