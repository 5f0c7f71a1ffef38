//! The canonical binary codec for columns: a dedicated, versionless
//! length-prefixed encoding, defined as a specification function, with a
//! serializer proved to emit exactly that encoding and a decoder that
//! accepts exactly byte strings it can re-encode to the letter.

use vstd::prelude::*;

use crate::column::cols_vals;
use crate::column::Column;
use crate::column::DecimalColumn;
use crate::column::NumberColumn;
use crate::column::StringColumn;
use crate::scalar::I256;

verus! {

/// The eight little-endian bytes of one 64-bit word.
pub open spec fn enc_u64(v: u64) -> Seq<u8> {
    seq![
        (v & 0xff) as u8,
        ((v >> 8) & 0xff) as u8,
        ((v >> 16) & 0xff) as u8,
        ((v >> 24) & 0xff) as u8,
        ((v >> 32) & 0xff) as u8,
        ((v >> 40) & 0xff) as u8,
        ((v >> 48) & 0xff) as u8,
        ((v >> 56) & 0xff) as u8,
    ]
}

/// The sixteen little-endian bytes of one 128-bit word.
pub open spec fn enc_u128(v: u128) -> Seq<u8> {
    enc_u64((v & 0xffffffffffffffff) as u64) + enc_u64((v >> 64) as u64)
}

/// The words of a sequence, each as eight bytes.
pub open spec fn enc_words(s: Seq<u64>) -> Seq<u8>
    decreases s,
{
    if s.len() == 0 {
        Seq::empty()
    } else {
        enc_words(s.drop_last()) + enc_u64(s.last())
    }
}

/// One byte per flag.
pub open spec fn enc_bools(s: Seq<bool>) -> Seq<u8> {
    Seq::new(
        s.len(),
        |i: int| if s[i] {
            1u8
        } else {
            0u8
        },
    )
}

/// The rows of a number buffer as 64-bit words, signed kinds by their
/// two's-complement image.
pub open spec fn num_words(nc: &NumberColumn) -> Seq<u64> {
    match nc {
        NumberColumn::UInt8(v) => Seq::new(v@.len(), |i: int| v@[i] as u64),
        NumberColumn::UInt16(v) => Seq::new(v@.len(), |i: int| v@[i] as u64),
        NumberColumn::UInt32(v) => Seq::new(v@.len(), |i: int| v@[i] as u64),
        NumberColumn::UInt64(v) => Seq::new(v@.len(), |i: int| v@[i]),
        NumberColumn::Int8(v) => Seq::new(v@.len(), |i: int| v@[i] as u64),
        NumberColumn::Int16(v) => Seq::new(v@.len(), |i: int| v@[i] as u64),
        NumberColumn::Int32(v) => Seq::new(v@.len(), |i: int| v@[i] as u64),
        NumberColumn::Int64(v) => Seq::new(v@.len(), |i: int| v@[i] as u64),
    }
}

/// A number kind's tag byte.
pub open spec fn num_tag(nc: &NumberColumn) -> u8 {
    match nc {
        NumberColumn::UInt8(_) => 0,
        NumberColumn::UInt16(_) => 1,
        NumberColumn::UInt32(_) => 2,
        NumberColumn::UInt64(_) => 3,
        NumberColumn::Int8(_) => 4,
        NumberColumn::Int16(_) => 5,
        NumberColumn::Int32(_) => 6,
        NumberColumn::Int64(_) => 7,
    }
}

/// A machine-width buffer as 64-bit words.
pub open spec fn usize_words(s: Seq<usize>) -> Seq<u64> {
    Seq::new(s.len(), |i: int| s[i] as u64)
}

/// The 128-bit words of a decimal buffer.
pub open spec fn dec_words(dc: &DecimalColumn) -> Seq<u8>
    decreases dc,
{
    match dc {
        DecimalColumn::Decimal128(v, _) => enc_i128s(v@),
        DecimalColumn::Decimal256(v, _) => enc_i256s(v@),
    }
}

/// 128-bit signed values, each as sixteen bytes.
pub open spec fn enc_i128s(s: Seq<i128>) -> Seq<u8>
    decreases s,
{
    if s.len() == 0 {
        Seq::empty()
    } else {
        enc_i128s(s.drop_last()) + enc_u128(s.last() as u128)
    }
}

/// 256-bit values, each as thirty-two bytes, high half first.
pub open spec fn enc_i256s(s: Seq<I256>) -> Seq<u8>
    decreases s,
{
    if s.len() == 0 {
        Seq::empty()
    } else {
        enc_i256s(s.drop_last()) + enc_u128(s.last().hi as u128) + enc_u128(s.last().lo)
    }
}

/// A shared byte buffer with its offsets: data length, data, offsets
/// length, offsets.
pub open spec fn enc_strings(sc: &StringColumn) -> Seq<u8> {
    enc_u64(sc.data@.len() as u64) + sc.data@ + enc_u64(sc.offsets@.len() as u64) + enc_words(
        usize_words(sc.offsets@),
    )
}

/// The canonical encoding of a column: a tag byte, then the variant's
/// payload, nested columns recursively.
pub open spec fn enc_col(c: &Column) -> Seq<u8>
    decreases c,
{
    match c {
        Column::Null { len } => seq![0u8] + enc_u64(*len as u64),
        Column::EmptyArray { len } => seq![1u8] + enc_u64(*len as u64),
        Column::EmptyMap { len } => seq![2u8] + enc_u64(*len as u64),
        Column::Number(nc) => seq![3u8, num_tag(nc)] + enc_u64(num_words(nc).len() as u64)
            + enc_words(num_words(nc)),
        Column::Decimal(dc) => match dc {
            DecimalColumn::Decimal128(v, size) => seq![4u8, 0u8, size.precision, size.scale]
                + enc_u64(v@.len() as u64) + enc_i128s(v@),
            DecimalColumn::Decimal256(v, size) => seq![4u8, 1u8, size.precision, size.scale]
                + enc_u64(v@.len() as u64) + enc_i256s(v@),
        },
        Column::Boolean(v) => seq![5u8] + enc_u64(v@.len() as u64) + enc_bools(v@),
        Column::String(sc) => seq![6u8] + enc_strings(sc),
        Column::Timestamp(v) => seq![7u8] + enc_u64(v@.len() as u64) + enc_words(
            Seq::new(v@.len(), |i: int| v@[i] as u64),
        ),
        Column::Date(v) => seq![8u8] + enc_u64(v@.len() as u64) + enc_words(
            Seq::new(v@.len(), |i: int| v@[i] as u64),
        ),
        Column::Array(ac) => seq![9u8] + enc_col(&ac.values) + enc_u64(ac.offsets@.len() as u64)
            + enc_words(usize_words(ac.offsets@)),
        Column::KvMap(ac) => seq![10u8] + enc_col(&ac.values) + enc_u64(ac.offsets@.len() as u64)
            + enc_words(usize_words(ac.offsets@)),
        Column::Nullable(nc) => seq![11u8] + enc_col(&nc.column) + enc_u64(
            nc.validity@.len() as u64,
        ) + enc_bools(nc.validity@),
        Column::Tuple { fields, len } => seq![12u8] + enc_u64(*len as u64) + enc_u64(
            fields@.len() as u64,
        ) + enc_cols(fields@),
        Column::Variant(sc) => seq![13u8] + enc_strings(sc),
    }
}

/// The concatenated encodings of sibling columns.
pub open spec fn enc_cols(cs: Seq<Column>) -> Seq<u8>
    decreases cs,
{
    if cs.len() == 0 {
        Seq::empty()
    } else {
        enc_cols(cs.drop_last()) + enc_col(&cs.last())
    }
}

/// Append the eight little-endian bytes of one word.
fn push_u64(out: &mut Vec<u8>, v: u64)
    ensures
        final(out)@ == old(out)@ + enc_u64(v),
{
    let ghost base = out@;
    out.push((v & 0xff) as u8);
    out.push(((v >> 8) & 0xff) as u8);
    out.push(((v >> 16) & 0xff) as u8);
    out.push(((v >> 24) & 0xff) as u8);
    out.push(((v >> 32) & 0xff) as u8);
    out.push(((v >> 40) & 0xff) as u8);
    out.push(((v >> 48) & 0xff) as u8);
    out.push(((v >> 56) & 0xff) as u8);
    proof {
        assert(out@ =~= base + enc_u64(v));
    }
}

/// Append the sixteen little-endian bytes of one 128-bit word.
fn push_u128(out: &mut Vec<u8>, v: u128)
    ensures
        final(out)@ == old(out)@ + enc_u128(v),
{
    let ghost base = out@;
    push_u64(out, (v & 0xffffffffffffffff) as u64);
    push_u64(out, (v >> 64) as u64);
    proof {
        assert(out@ =~= base + enc_u128(v));
    }
}

/// Append each word of a sequence.
#[verifier::loop_isolation(false)]
fn push_words_of(out: &mut Vec<u8>, words: Ghost<Seq<u64>>, get: &Vec<u64>)
    requires
        words@ == get@,
    ensures
        final(out)@ == old(out)@ + enc_words(words@),
{
    let ghost base = out@;
    let mut i: usize = 0;
    proof {
        assert(enc_words(words@.subrange(0, 0)) =~= Seq::<u8>::empty());
        assert(out@ =~= base + enc_words(words@.subrange(0, 0)));
    }
    while i < get.len()
        invariant
            i <= get@.len(),
            out@ == base + enc_words(words@.subrange(0, i as int)),
        decreases get@.len() - i,
    {
        push_u64(out, get[i]);
        proof {
            assert(words@.subrange(0, i + 1).drop_last() =~= words@.subrange(0, i as int));
            assert(words@.subrange(0, i + 1).last() == words@[i as int]);
            assert(out@ =~= base + enc_words(words@.subrange(0, i + 1)));
        }
        i = i + 1;
    }
    proof {
        assert(words@.subrange(0, words@.len() as int) =~= words@);
    }
}

/// Append a shared byte buffer with its offsets.
#[verifier::loop_isolation(false)]
fn push_strings(out: &mut Vec<u8>, sc: &StringColumn)
    ensures
        final(out)@ == old(out)@ + enc_strings(sc),
{
    let ghost base = out@;
    push_u64(out, sc.data.len() as u64);
    let mut i: usize = 0;
    let ghost mid = out@;
    while i < sc.data.len()
        invariant
            i <= sc.data@.len(),
            out@ == mid + sc.data@.subrange(0, i as int),
        decreases sc.data@.len() - i,
    {
        out.push(sc.data[i]);
        proof {
            assert(out@ =~= mid + sc.data@.subrange(0, i + 1));
        }
        i = i + 1;
    }
    proof {
        assert(sc.data@.subrange(0, sc.data@.len() as int) =~= sc.data@);
    }
    push_u64(out, sc.offsets.len() as u64);
    let mut offs: Vec<u64> = Vec::new();
    let mut j: usize = 0;
    while j < sc.offsets.len()
        invariant
            j <= sc.offsets@.len(),
            offs@.len() == j as int,
            forall|k: int| 0 <= k < j as int ==> #[trigger] offs@[k] == sc.offsets@[k] as u64,
        decreases sc.offsets@.len() - j,
    {
        offs.push(sc.offsets[j] as u64);
        j = j + 1;
    }
    proof {
        assert(offs@ =~= usize_words(sc.offsets@));
    }
    push_words_of(out, Ghost(usize_words(sc.offsets@)), &offs);
    proof {
        assert(out@ =~= base + enc_strings(sc));
    }
}

/// Append the offsets tail of an array-like column.
#[verifier::loop_isolation(false)]
fn push_offsets(out: &mut Vec<u8>, offsets: &Vec<usize>)
    ensures
        final(out)@ == old(out)@ + enc_u64(offsets@.len() as u64) + enc_words(
            usize_words(offsets@),
        ),
{
    let ghost base = out@;
    push_u64(out, offsets.len() as u64);
    let mut offs: Vec<u64> = Vec::new();
    let mut j: usize = 0;
    while j < offsets.len()
        invariant
            j <= offsets@.len(),
            offs@.len() == j as int,
            forall|k: int| 0 <= k < j as int ==> #[trigger] offs@[k] == offsets@[k] as u64,
        decreases offsets@.len() - j,
    {
        offs.push(offsets[j] as u64);
        j = j + 1;
    }
    proof {
        assert(offs@ =~= usize_words(offsets@));
    }
    push_words_of(out, Ghost(usize_words(offsets@)), &offs);
    proof {
        assert(out@ =~= base + enc_u64(offsets@.len() as u64) + enc_words(
            usize_words(offsets@),
        ));
    }
}

/// Append one byte per flag.
#[verifier::loop_isolation(false)]
fn push_bools(out: &mut Vec<u8>, flags: &Vec<bool>)
    ensures
        final(out)@ == old(out)@ + enc_u64(flags@.len() as u64) + enc_bools(flags@),
{
    let ghost base = out@;
    push_u64(out, flags.len() as u64);
    let ghost mid = out@;
    let mut i: usize = 0;
    proof {
        assert(out@ =~= mid + enc_bools(flags@.subrange(0, 0)));
    }
    while i < flags.len()
        invariant
            i <= flags@.len(),
            out@ == mid + enc_bools(flags@.subrange(0, i as int)),
        decreases flags@.len() - i,
    {
        out.push(if flags[i] {
            1
        } else {
            0
        });
        proof {
            assert(enc_bools(flags@.subrange(0, i + 1)) =~= enc_bools(
                flags@.subrange(0, i as int),
            ).push(
                if flags@[i as int] {
                    1u8
                } else {
                    0u8
                },
            ));
            assert(out@ =~= mid + enc_bools(flags@.subrange(0, i + 1)));
        }
        i = i + 1;
    }
    proof {
        assert(flags@.subrange(0, flags@.len() as int) =~= flags@);
        assert(out@ =~= base + enc_u64(flags@.len() as u64) + enc_bools(flags@));
    }
}

/// Serialize a column into its canonical binary chunk.
#[verifier::loop_isolation(false)]
#[verifier::rlimit(90)]
pub fn serialize_column(c: &Column) -> (r: Vec<u8>)
    ensures
        r@ == enc_col(c),
    decreases c, 1int,
{
    let mut out: Vec<u8> = Vec::new();
    match c {
        Column::Null { len } => {
            out.push(0);
            push_u64(&mut out, *len as u64);
            proof {
                assert(out@ =~= enc_col(c));
            }
        }
        Column::EmptyArray { len } => {
            out.push(1);
            push_u64(&mut out, *len as u64);
            proof {
                assert(out@ =~= enc_col(c));
            }
        }
        Column::EmptyMap { len } => {
            out.push(2);
            push_u64(&mut out, *len as u64);
            proof {
                assert(out@ =~= enc_col(c));
            }
        }
        Column::Number(nc) => {
            out.push(3);
            let mut words: Vec<u64> = Vec::new();
            match nc {
                NumberColumn::UInt8(v) => {
                    out.push(0);
                    let mut i: usize = 0;
                    while i < v.len()
                        invariant
                            i <= v@.len(),
                            words@.len() == i as int,
                            forall|k: int|
                                0 <= k < i as int ==> #[trigger] words@[k] == v@[k] as u64,
                        decreases v@.len() - i,
                    {
                        words.push(v[i] as u64);
                        i = i + 1;
                    }
                }
                NumberColumn::UInt16(v) => {
                    out.push(1);
                    let mut i: usize = 0;
                    while i < v.len()
                        invariant
                            i <= v@.len(),
                            words@.len() == i as int,
                            forall|k: int|
                                0 <= k < i as int ==> #[trigger] words@[k] == v@[k] as u64,
                        decreases v@.len() - i,
                    {
                        words.push(v[i] as u64);
                        i = i + 1;
                    }
                }
                NumberColumn::UInt32(v) => {
                    out.push(2);
                    let mut i: usize = 0;
                    while i < v.len()
                        invariant
                            i <= v@.len(),
                            words@.len() == i as int,
                            forall|k: int|
                                0 <= k < i as int ==> #[trigger] words@[k] == v@[k] as u64,
                        decreases v@.len() - i,
                    {
                        words.push(v[i] as u64);
                        i = i + 1;
                    }
                }
                NumberColumn::UInt64(v) => {
                    out.push(3);
                    let mut i: usize = 0;
                    while i < v.len()
                        invariant
                            i <= v@.len(),
                            words@.len() == i as int,
                            forall|k: int| 0 <= k < i as int ==> #[trigger] words@[k] == v@[k],
                        decreases v@.len() - i,
                    {
                        words.push(v[i]);
                        i = i + 1;
                    }
                }
                NumberColumn::Int8(v) => {
                    out.push(4);
                    let mut i: usize = 0;
                    while i < v.len()
                        invariant
                            i <= v@.len(),
                            words@.len() == i as int,
                            forall|k: int|
                                0 <= k < i as int ==> #[trigger] words@[k] == v@[k] as u64,
                        decreases v@.len() - i,
                    {
                        words.push(v[i] as u64);
                        i = i + 1;
                    }
                }
                NumberColumn::Int16(v) => {
                    out.push(5);
                    let mut i: usize = 0;
                    while i < v.len()
                        invariant
                            i <= v@.len(),
                            words@.len() == i as int,
                            forall|k: int|
                                0 <= k < i as int ==> #[trigger] words@[k] == v@[k] as u64,
                        decreases v@.len() - i,
                    {
                        words.push(v[i] as u64);
                        i = i + 1;
                    }
                }
                NumberColumn::Int32(v) => {
                    out.push(6);
                    let mut i: usize = 0;
                    while i < v.len()
                        invariant
                            i <= v@.len(),
                            words@.len() == i as int,
                            forall|k: int|
                                0 <= k < i as int ==> #[trigger] words@[k] == v@[k] as u64,
                        decreases v@.len() - i,
                    {
                        words.push(v[i] as u64);
                        i = i + 1;
                    }
                }
                NumberColumn::Int64(v) => {
                    out.push(7);
                    let mut i: usize = 0;
                    while i < v.len()
                        invariant
                            i <= v@.len(),
                            words@.len() == i as int,
                            forall|k: int|
                                0 <= k < i as int ==> #[trigger] words@[k] == v@[k] as u64,
                        decreases v@.len() - i,
                    {
                        words.push(v[i] as u64);
                        i = i + 1;
                    }
                }
            }
            proof {
                assert(words@ =~= num_words(nc));
            }
            push_u64(&mut out, words.len() as u64);
            push_words_of(&mut out, Ghost(num_words(nc)), &words);
            proof {
                assert(out@ =~= enc_col(c));
            }
        }
        Column::Decimal(dc) => {
            out.push(4);
            match dc {
                DecimalColumn::Decimal128(v, size) => {
                    out.push(0);
                    out.push(size.precision);
                    out.push(size.scale);
                    push_u64(&mut out, v.len() as u64);
                    let ghost mid = out@;
                    let mut i: usize = 0;
                    proof {
                        assert(enc_i128s(v@.subrange(0, 0)) =~= Seq::<u8>::empty());
                        assert(out@ =~= mid + enc_i128s(v@.subrange(0, 0)));
                    }
                    while i < v.len()
                        invariant
                            i <= v@.len(),
                            out@ == mid + enc_i128s(v@.subrange(0, i as int)),
                        decreases v@.len() - i,
                    {
                        push_u128(&mut out, v[i] as u128);
                        proof {
                            assert(v@.subrange(0, i + 1).drop_last() =~= v@.subrange(0, i as int));
                            assert(v@.subrange(0, i + 1).last() == v@[i as int]);
                            assert(out@ =~= mid + enc_i128s(v@.subrange(0, i + 1)));
                        }
                        i = i + 1;
                    }
                    proof {
                        assert(v@.subrange(0, v@.len() as int) =~= v@);
                        assert(out@ =~= enc_col(c));
                    }
                }
                DecimalColumn::Decimal256(v, size) => {
                    out.push(1);
                    out.push(size.precision);
                    out.push(size.scale);
                    push_u64(&mut out, v.len() as u64);
                    let ghost mid = out@;
                    let mut i: usize = 0;
                    proof {
                        assert(enc_i256s(v@.subrange(0, 0)) =~= Seq::<u8>::empty());
                        assert(out@ =~= mid + enc_i256s(v@.subrange(0, 0)));
                    }
                    while i < v.len()
                        invariant
                            i <= v@.len(),
                            out@ == mid + enc_i256s(v@.subrange(0, i as int)),
                        decreases v@.len() - i,
                    {
                        push_u128(&mut out, v[i].hi as u128);
                        push_u128(&mut out, v[i].lo);
                        proof {
                            assert(v@.subrange(0, i + 1).drop_last() =~= v@.subrange(0, i as int));
                            assert(v@.subrange(0, i + 1).last() == v@[i as int]);
                            assert(out@ =~= mid + enc_i256s(v@.subrange(0, i + 1)));
                        }
                        i = i + 1;
                    }
                    proof {
                        assert(v@.subrange(0, v@.len() as int) =~= v@);
                        assert(out@ =~= enc_col(c));
                    }
                }
            }
        }
        Column::Boolean(v) => {
            out.push(5);
            push_bools(&mut out, v);
            proof {
                assert(out@ =~= enc_col(c));
            }
        }
        Column::String(sc) => {
            out.push(6);
            push_strings(&mut out, sc);
            proof {
                assert(out@ =~= enc_col(c));
            }
        }
        Column::Timestamp(v) => {
            out.push(7);
            let mut words: Vec<u64> = Vec::new();
            let mut i: usize = 0;
            while i < v.len()
                invariant
                    i <= v@.len(),
                    words@.len() == i as int,
                    forall|k: int| 0 <= k < i as int ==> #[trigger] words@[k] == v@[k] as u64,
                decreases v@.len() - i,
            {
                words.push(v[i] as u64);
                i = i + 1;
            }
            proof {
                assert(words@ =~= Seq::new(v@.len(), |k: int| v@[k] as u64));
            }
            push_u64(&mut out, words.len() as u64);
            push_words_of(&mut out, Ghost(Seq::new(v@.len(), |k: int| v@[k] as u64)), &words);
            proof {
                assert(out@ =~= enc_col(c));
            }
        }
        Column::Date(v) => {
            out.push(8);
            let mut words: Vec<u64> = Vec::new();
            let mut i: usize = 0;
            while i < v.len()
                invariant
                    i <= v@.len(),
                    words@.len() == i as int,
                    forall|k: int| 0 <= k < i as int ==> #[trigger] words@[k] == v@[k] as u64,
                decreases v@.len() - i,
            {
                words.push(v[i] as u64);
                i = i + 1;
            }
            proof {
                assert(words@ =~= Seq::new(v@.len(), |k: int| v@[k] as u64));
            }
            push_u64(&mut out, words.len() as u64);
            push_words_of(&mut out, Ghost(Seq::new(v@.len(), |k: int| v@[k] as u64)), &words);
            proof {
                assert(out@ =~= enc_col(c));
            }
        }
        Column::Array(ac) => {
            out.push(9);
            let inner = serialize_column(&ac.values);
            out = crate::builder::extend_vec(out, &inner);
            push_offsets(&mut out, &ac.offsets);
            proof {
                assert(out@ =~= enc_col(c));
            }
        }
        Column::KvMap(ac) => {
            out.push(10);
            let inner = serialize_column(&ac.values);
            out = crate::builder::extend_vec(out, &inner);
            push_offsets(&mut out, &ac.offsets);
            proof {
                assert(out@ =~= enc_col(c));
            }
        }
        Column::Nullable(nc) => {
            out.push(11);
            let inner = serialize_column(&nc.column);
            out = crate::builder::extend_vec(out, &inner);
            push_bools(&mut out, &nc.validity);
            proof {
                assert(out@ =~= enc_col(c));
            }
        }
        Column::Tuple { fields, len } => {
            out.push(12);
            push_u64(&mut out, *len as u64);
            push_u64(&mut out, fields.len() as u64);
            let tail = serialize_cols(fields);
            out = crate::builder::extend_vec(out, &tail);
            proof {
                assert(out@ =~= enc_col(c));
            }
        }
        Column::Variant(sc) => {
            out.push(13);
            push_strings(&mut out, sc);
            proof {
                assert(out@ =~= enc_col(c));
            }
        }
    }
    out
}

/// The concatenated serializations of sibling columns.
#[verifier::loop_isolation(false)]
fn serialize_cols(cs: &Vec<Column>) -> (r: Vec<u8>)
    ensures
        r@ == enc_cols(cs@),
    decreases cs@, 0int,
{
    let mut out: Vec<u8> = Vec::new();
    let mut i: usize = 0;
    proof {
        assert(enc_cols(cs@.subrange(0, 0)) =~= Seq::<u8>::empty());
        assert(out@ =~= enc_cols(cs@.subrange(0, 0)));
    }
    while i < cs.len()
        invariant
            i <= cs@.len(),
            out@ == enc_cols(cs@.subrange(0, i as int)),
        decreases cs@.len() - i,
    {
        proof {
            assert(decreases_to!(cs@ => cs@[i as int]));
        }
        let piece = serialize_column(&cs[i]);
        out = crate::builder::extend_vec(out, &piece);
        proof {
            assert(cs@.subrange(0, i + 1).drop_last() =~= cs@.subrange(0, i as int));
            assert(cs@.subrange(0, i + 1).last() == cs@[i as int]);
            assert(out@ =~= enc_cols(cs@.subrange(0, i + 1)));
        }
        i = i + 1;
    }
    proof {
        assert(cs@.subrange(0, cs@.len() as int) =~= cs@);
    }
    out
}

/// The structural invariant a decoded column is guaranteed to satisfy: all
/// of `Column::wf` except the validity of variant payloads, which cannot be
/// re-established from raw bytes because the binary JSON reader offers no
/// fault-free validator.
pub open spec fn codec_wf(c: &Column) -> bool
    decreases c,
{
    match c {
        Column::String(sc) => sc.wf(),
        Column::Variant(sc) => sc.wf(),
        Column::Array(ac) => ac.offsets_wf() && codec_wf(&ac.values),
        Column::KvMap(ac) => {
            &&& ac.offsets_wf()
            &&& codec_wf(&ac.values)
            &&& ac.values.typ() matches crate::types::TypeV::Tuple(ts) && ts.len() == 2
        }
        Column::Nullable(nc) => {
            &&& codec_wf(&nc.column)
            &&& nc.validity@.len() == nc.column.vals().len()
            &&& !(nc.column is Nullable)
            &&& !(nc.column is Null)
        }
        Column::Tuple { fields, len } => cols_codec_wf(fields@, *len as nat),
        _ => true,
    }
}

/// `codec_wf` with a shared row count, over sibling columns.
pub open spec fn cols_codec_wf(cs: Seq<Column>, n: nat) -> bool
    decreases cs,
{
    cs.len() == 0 || (cols_codec_wf(cs.drop_last(), n) && codec_wf(&cs.last())
        && cs.last().vals().len() == n)
}

/// `cols_codec_wf` from elementwise facts.
pub proof fn lemma_cols_codec_wf_intro(cs: Seq<Column>, n: nat)
    requires
        forall|i: int| 0 <= i < cs.len() ==> #[trigger] codec_wf(&cs[i]),
        forall|i: int| 0 <= i < cs.len() ==> #[trigger] cs[i].vals().len() == n,
    ensures
        cols_codec_wf(cs, n),
    decreases cs.len(),
{
    if cs.len() > 0 {
        assert forall|i: int| 0 <= i < cs.drop_last().len() implies #[trigger] codec_wf(
            &cs.drop_last()[i],
        ) by {
            assert(cs.drop_last()[i] == cs[i]);
            assert(codec_wf(&cs[i]));
        }
        assert forall|i: int| 0 <= i < cs.drop_last().len() implies
            #[trigger] cs.drop_last()[i].vals().len() == n by {
            assert(cs.drop_last()[i] == cs[i]);
            assert(cs[i].vals().len() == n);
        }
        lemma_cols_codec_wf_intro(cs.drop_last(), n);
        assert(cs.last() == cs[cs.len() - 1]);
        assert(codec_wf(&cs[cs.len() - 1]));
        assert(cs[cs.len() - 1].vals().len() == n);
    }
}

/// A fully well-formed column meets the decoder's structural invariant.
pub proof fn lemma_wf_codec_wf(c: &Column)
    requires
        c.wf(),
    ensures
        codec_wf(c),
    decreases c,
{
    match c {
        Column::Array(ac) => {
            lemma_wf_codec_wf(&ac.values);
        }
        Column::KvMap(ac) => {
            lemma_wf_codec_wf(&ac.values);
        }
        Column::Nullable(nc) => {
            lemma_wf_codec_wf(&nc.column);
        }
        Column::Tuple { fields, len } => {
            crate::column::lemma_cols_wf_len(fields@, *len as nat);
            assert forall|i: int| 0 <= i < fields@.len() implies #[trigger] codec_wf(
                &fields@[i],
            ) by {
                assert(fields@[i].wf());
                assert(decreases_to!(fields@ => fields@[i]));
                lemma_wf_codec_wf(&fields@[i]);
            }
            lemma_cols_codec_wf_intro(fields@, *len as nat);
        }
        _ => {},
    }
}

/// The little-endian word spelled by eight bytes at a position.
pub open spec fn word_at(b: Seq<u8>, pos: int) -> u64 {
    (b[pos] as u64) | ((b[pos + 1] as u64) << 8) | ((b[pos + 2] as u64) << 16) | ((b[pos
        + 3] as u64) << 24) | ((b[pos + 4] as u64) << 32) | ((b[pos + 5] as u64) << 40) | ((b[pos
        + 6] as u64) << 48) | ((b[pos + 7] as u64) << 56)
}

/// Reading eight bytes that spell a word's encoding yields that word back.
pub proof fn lemma_word_at_enc(b: Seq<u8>, pos: int, w: u64)
    requires
        0 <= pos,
        pos + 8 <= b.len(),
        b.subrange(pos, pos + 8) == enc_u64(w),
    ensures
        word_at(b, pos) == w,
{
    let b0 = b[pos];
    let b1 = b[pos + 1];
    let b2 = b[pos + 2];
    let b3 = b[pos + 3];
    let b4 = b[pos + 4];
    let b5 = b[pos + 5];
    let b6 = b[pos + 6];
    let b7 = b[pos + 7];
    assert(b0 == b.subrange(pos, pos + 8)[0]);
    assert(b1 == b.subrange(pos, pos + 8)[1]);
    assert(b2 == b.subrange(pos, pos + 8)[2]);
    assert(b3 == b.subrange(pos, pos + 8)[3]);
    assert(b4 == b.subrange(pos, pos + 8)[4]);
    assert(b5 == b.subrange(pos, pos + 8)[5]);
    assert(b6 == b.subrange(pos, pos + 8)[6]);
    assert(b7 == b.subrange(pos, pos + 8)[7]);
    assert((b0 as u64) | ((b1 as u64) << 8) | ((b2 as u64) << 16) | ((b3 as u64) << 24) | ((
    b4 as u64) << 32) | ((b5 as u64) << 40) | ((b6 as u64) << 48) | ((b7 as u64) << 56) == w)
        by (bit_vector)
        requires
            b0 == (w & 0xff) as u8,
            b1 == ((w >> 8) & 0xff) as u8,
            b2 == ((w >> 16) & 0xff) as u8,
            b3 == ((w >> 24) & 0xff) as u8,
            b4 == ((w >> 32) & 0xff) as u8,
            b5 == ((w >> 40) & 0xff) as u8,
            b6 == ((w >> 48) & 0xff) as u8,
            b7 == ((w >> 56) & 0xff) as u8,
    ;
}

/// Read one little-endian word, if eight bytes remain.
fn read_u64(bytes: &Vec<u8>, pos: usize) -> (r: Option<(u64, usize)>)
    requires
        pos <= bytes@.len(),
    ensures
        r matches Some(p) ==> pos < p.1 <= bytes@.len() && p.1 == pos + 8 && p.0 == word_at(
            bytes@,
            pos as int,
        ),
        pos + 8 <= bytes@.len() ==> r is Some,
{
    let n = bytes.len();
    if n - pos < 8 {
        return None;
    }
    let v: u64 = (bytes[pos] as u64) | ((bytes[pos + 1] as u64) << 8) | ((bytes[pos
        + 2] as u64) << 16) | ((bytes[pos + 3] as u64) << 24) | ((bytes[pos + 4] as u64) << 32) | ((
    bytes[pos + 5] as u64) << 40) | ((bytes[pos + 6] as u64) << 48) | ((bytes[pos + 7] as u64)
        << 56);
    Some((v, pos + 8))
}

/// The 128-bit little-endian word spelled by sixteen bytes at a position.
pub open spec fn wide_at(b: Seq<u8>, pos: int) -> u128 {
    (word_at(b, pos) as u128) | ((word_at(b, pos + 8) as u128) << 64)
}

/// Reading sixteen bytes that spell a wide word's encoding yields it back.
pub proof fn lemma_wide_at_enc(b: Seq<u8>, pos: int, w: u128)
    requires
        0 <= pos,
        pos + 16 <= b.len(),
        b.subrange(pos, pos + 16) == enc_u128(w),
    ensures
        wide_at(b, pos) == w,
{
    let lo = (w & 0xffffffffffffffff) as u64;
    let hi = (w >> 64) as u64;
    assert(b.subrange(pos, pos + 8) =~= b.subrange(pos, pos + 16).subrange(0, 8));
    assert(b.subrange(pos + 8, pos + 16) =~= b.subrange(pos, pos + 16).subrange(8, 16));
    assert(b.subrange(pos, pos + 16).subrange(0, 8) =~= enc_u64(lo));
    assert(b.subrange(pos, pos + 16).subrange(8, 16) =~= enc_u64(hi));
    lemma_word_at_enc(b, pos, lo);
    lemma_word_at_enc(b, pos + 8, hi);
    assert((lo as u128) | ((hi as u128) << 64) == w) by (bit_vector)
        requires
            lo == (w & 0xffffffffffffffff) as u64,
            hi == (w >> 64) as u64,
    ;
}

/// Read one 128-bit word, if sixteen bytes remain.
fn read_u128(bytes: &Vec<u8>, pos: usize) -> (r: Option<(u128, usize)>)
    requires
        pos <= bytes@.len(),
    ensures
        r matches Some(p) ==> pos < p.1 <= bytes@.len() && p.1 == pos + 16 && p.0 == wide_at(
            bytes@,
            pos as int,
        ),
        pos + 16 <= bytes@.len() ==> r is Some,
{
    let (lo, p1) = match read_u64(bytes, pos) {
        Some(x) => x,
        None => {
            return None;
        }
    };
    let (hi, p2) = match read_u64(bytes, p1) {
        Some(x) => x,
        None => {
            return None;
        }
    };
    Some(((lo as u128) | ((hi as u128) << 64), p2))
}

/// Read a row count, refusing one beyond the machine's addressable range.
fn read_count(bytes: &Vec<u8>, pos: usize) -> (r: Option<(usize, usize)>)
    requires
        pos <= bytes@.len(),
    ensures
        r matches Some(p) ==> pos < p.1 <= bytes@.len() && p.1 == pos + 8 && p.0 as u64 == word_at(
            bytes@,
            pos as int,
        ),
        pos + 8 <= bytes@.len() && word_at(bytes@, pos as int) <= usize::MAX as u64 ==> r is Some,
{
    let (w, p1) = match read_u64(bytes, pos) {
        Some(x) => x,
        None => {
            return None;
        }
    };
    if w > usize::MAX as u64 {
        return None;
    }
    Some((w as usize, p1))
}

/// Adjacent order over a buffer implies order over every pair.
proof fn lemma_mono_pair(s: Seq<usize>, i: int, j: int)
    requires
        forall|k: int| 0 <= k < s.len() - 1 ==> #[trigger] s[k] <= s[k + 1],
        0 <= i <= j < s.len(),
    ensures
        s[i] <= s[j],
    decreases j - i,
{
    if i < j {
        lemma_mono_pair(s, i, j - 1);
        assert(s[j - 1] <= s[j]);
    }
}

/// Whether an offsets buffer is present, non-decreasing and bounded.
#[verifier::loop_isolation(false)]
fn check_offsets(offs: &Vec<usize>, limit: usize) -> (r: bool)
    ensures
        r == (offs@.len() >= 1 && (forall|i: int, j: int|
            0 <= i <= j < offs@.len() ==> offs@[i] <= offs@[j]) && offs@.last() <= limit as int),
{
    let n = offs.len();
    if n == 0 {
        return false;
    }
    let mut i: usize = 0;
    while i + 1 < n
        invariant
            i < n,
            n == offs@.len(),
            forall|k: int| 0 <= k < i as int ==> #[trigger] offs@[k] <= offs@[k + 1],
        decreases n - i,
    {
        if offs[i] > offs[i + 1] {
            proof {
                assert(!(offs@[i as int] <= offs@[i + 1]));
            }
            return false;
        }
        i = i + 1;
    }
    if offs[n - 1] > limit {
        proof {
            assert(offs@.last() > limit as int);
        }
        return false;
    }
    proof {
        assert forall|a: int, b: int| 0 <= a <= b < offs@.len() implies offs@[a] <= offs@[b] by {
            lemma_mono_pair(offs@, a, b);
        }
    }
    true
}

/// Read `n` bytes as a buffer.
#[verifier::loop_isolation(false)]
fn read_bytes(bytes: &Vec<u8>, pos: usize, n: usize) -> (r: Option<(Vec<u8>, usize)>)
    requires
        pos <= bytes@.len(),
    ensures
        r matches Some(p) ==> pos <= p.1 <= bytes@.len() && p.0@.len() == n && p.1 == pos + n
            && p.0@ == bytes@.subrange(pos as int, pos + n),
        pos + n <= bytes@.len() ==> r is Some,
{
    let total = bytes.len();
    if total - pos < n {
        return None;
    }
    let mut out: Vec<u8> = Vec::new();
    let mut i: usize = 0;
    while i < n
        invariant
            i <= n,
            pos + n <= bytes@.len(),
            out@ == bytes@.subrange(pos as int, pos + i),
        decreases n - i,
    {
        out.push(bytes[pos + i]);
        proof {
            assert(out@ =~= bytes@.subrange(pos as int, pos + i + 1));
        }
        i = i + 1;
    }
    proof {
        assert(out@ =~= bytes@.subrange(pos as int, pos + n as int));
    }
    Some((out, pos + n))
}

/// Read `n` machine-width words.
#[verifier::loop_isolation(false)]
fn read_usizes(bytes: &Vec<u8>, pos: usize, n: usize) -> (r: Option<(Vec<usize>, usize)>)
    requires
        pos <= bytes@.len(),
    ensures
        r matches Some(p) ==> pos <= p.1 <= bytes@.len() && p.0@.len() == n && p.1 == pos + 8 * (
        n as int) && (forall|i: int|
            0 <= i < n ==> (#[trigger] p.0@[i]) as u64 == word_at(bytes@, pos + 8 * i)),
        pos + 8 * (n as int) <= bytes@.len() && (forall|i: int|
            0 <= i < n ==> #[trigger] word_at(bytes@, pos + 8 * i) <= usize::MAX as u64)
            ==> r is Some,
{
    let mut out: Vec<usize> = Vec::new();
    let mut i: usize = 0;
    let mut cur = pos;
    while i < n
        invariant
            i <= n,
            pos <= cur <= bytes@.len(),
            cur == pos + 8 * (i as int),
            out@.len() == i as int,
            forall|j: int|
                0 <= j < i as int ==> (#[trigger] out@[j]) as u64 == word_at(bytes@, pos + 8 * j),
        decreases n - i,
    {
        let (w, p1) = match read_count(bytes, cur) {
            Some(x) => x,
            None => {
                proof {
                    if pos + 8 * (n as int) <= bytes@.len() && (forall|k: int|
                        0 <= k < n ==> #[trigger] word_at(bytes@, pos + 8 * k) <= usize::MAX
                            as u64) {
                        assert(cur + 8 <= bytes@.len());
                        assert(word_at(bytes@, pos + 8 * (i as int)) <= usize::MAX as u64);
                        assert(false);
                    }
                }
                return None;
            }
        };
        out.push(w);
        cur = p1;
        i = i + 1;
    }
    Some((out, cur))
}

/// Read `n` flags, one byte each, any non-zero byte reading as set.
#[verifier::loop_isolation(false)]
fn read_bools(bytes: &Vec<u8>, pos: usize, n: usize) -> (r: Option<(Vec<bool>, usize)>)
    requires
        pos <= bytes@.len(),
    ensures
        r matches Some(p) ==> pos <= p.1 <= bytes@.len() && p.0@.len() == n && p.1 == pos + n && (
        forall|i: int| 0 <= i < n ==> #[trigger] p.0@[i] == (bytes@[pos + i] != 0)),
        pos + n <= bytes@.len() ==> r is Some,
{
    let total = bytes.len();
    if total - pos < n {
        return None;
    }
    let mut out: Vec<bool> = Vec::new();
    let mut i: usize = 0;
    while i < n
        invariant
            i <= n,
            pos + n <= bytes@.len(),
            out@.len() == i as int,
            forall|j: int| 0 <= j < i as int ==> #[trigger] out@[j] == (bytes@[pos + j] != 0),
        decreases n - i,
    {
        out.push(bytes[pos + i] != 0);
        i = i + 1;
    }
    Some((out, pos + n))
}

/// Whether two byte buffers hold the same bytes.
#[verifier::loop_isolation(false)]
fn eq_bytes(a: &Vec<u8>, b: &Vec<u8>) -> (r: bool)
    ensures
        r == (a@ == b@),
{
    if a.len() != b.len() {
        proof {
            assert(a@ != b@);
        }
        return false;
    }
    let mut i: usize = 0;
    while i < a.len()
        invariant
            i <= a@.len(),
            a@.len() == b@.len(),
            forall|j: int| 0 <= j < i as int ==> a@[j] == b@[j],
        decreases a@.len() - i,
    {
        if a[i] != b[i] {
            proof {
                assert(a@[i as int] != b@[i as int]);
            }
            return false;
        }
        i = i + 1;
    }
    proof {
        assert(a@ =~= b@);
    }
    true
}

/// Decode a canonical binary chunk back into a column. The decoder accepts
/// exactly the bytes it can re-encode to the letter, so an accepted chunk
/// is the canonical encoding of the returned column; anything else is an
/// explicit decode failure. The proved contract pins the accepted set in
/// both directions: an accepted chunk re-encodes to itself, and any chunk
/// that is the canonical encoding of some structurally sound column is
/// accepted, so everything `serialize_column` produces decodes. The decoded
/// column satisfies every structural invariant; the validity of variant
/// payloads cannot be re-established from raw bytes, because the binary
/// JSON reader offers no fault-free validator. A decoded `Variant` column
/// therefore satisfies `codec_wf` but not the full well-formedness that
/// row access, slicing and comparison ask for: code that needs those
/// must build its variant columns through `ColumnBuilder`, whose pushes
/// keep the payload validity that decoding cannot recover.
pub fn deserialize_column(bytes: &Vec<u8>) -> (r: Option<Column>)
    ensures
        r matches Some(c2) ==> codec_wf(&c2) && enc_col(&c2) == bytes@,
        (exists|c: Column| codec_wf(&c) && enc_col(&c) == bytes@) ==> r is Some,
{
    let ghost gw: Option<Column> = if exists|c: Column| codec_wf(&c) && enc_col(&c) == bytes@ {
        Some(choose|c: Column| codec_wf(&c) && enc_col(&c) == bytes@)
    } else {
        None
    };
    proof {
        if let Some(c) = gw {
            assert(bytes@.subrange(0, enc_col(&c).len() as int) =~= enc_col(&c));
            assert(is_enc_at(bytes@, 0, enc_col(&c)));
        }
    }
    let n = bytes.len();
    let (c2, _rows, p) = match parse_column(bytes, 0, Ghost(gw)) {
        Some(x) => x,
        None => {
            return None;
        }
    };
    if p != n {
        return None;
    }
    let enc2 = serialize_column(&c2);
    if eq_bytes(&enc2, bytes) {
        Some(c2)
    } else {
        None
    }
}

/// Encoding then decoding is the identity up to the canonical spelling:
/// the decoder accepts every chunk the encoder produces from a
/// structurally sound column, and hands back a column with the same
/// encoding.
pub fn serialize_then_deserialize(c: &Column) -> (r: Option<Column>)
    requires
        codec_wf(c),
    ensures
        r matches Some(c2) && codec_wf(&c2) && enc_col(&c2) == enc_col(c),
{
    let bytes = serialize_column(c);
    proof {
        assert(exists|w: Column| codec_wf(&w) && enc_col(&w) == bytes@) by {
            assert(codec_wf(&*c) && enc_col(&*c) == bytes@);
        }
    }
    deserialize_column(&bytes)
}

/// The fixed-width word of one number value.
pub open spec fn num_word(n: crate::scalar::NumberScalar) -> u64 {
    match n {
        crate::scalar::NumberScalar::UInt8(x) => x as u64,
        crate::scalar::NumberScalar::UInt16(x) => x as u64,
        crate::scalar::NumberScalar::UInt32(x) => x as u64,
        crate::scalar::NumberScalar::UInt64(x) => x,
        crate::scalar::NumberScalar::Int8(x) => x as u64,
        crate::scalar::NumberScalar::Int16(x) => x as u64,
        crate::scalar::NumberScalar::Int32(x) => x as u64,
        crate::scalar::NumberScalar::Int64(x) => x as u64,
    }
}

/// The canonical content bytes of one scalar value, read by hashing:
/// fixed-width values by their word image, byte values by their payload,
/// array and map values by the canonical serialized form of their nested
/// column, tuples by their fields in order. A variant hashes its raw
/// payload: two JSON-equal but byte-different payloads compare equal yet
/// may hash apart.
pub open spec fn enc_scalar(s: &crate::scalar::ScalarRef) -> Seq<u8>
    decreases s, 1int,
{
    match s {
        crate::scalar::ScalarRef::Null => seq![0u8],
        crate::scalar::ScalarRef::EmptyArray => seq![1u8],
        crate::scalar::ScalarRef::EmptyMap => seq![2u8],
        crate::scalar::ScalarRef::Number(n) => seq![3u8] + enc_u64(num_word(*n)),
        crate::scalar::ScalarRef::Decimal(d) => match d {
            crate::scalar::DecimalScalar::Decimal128(x, _) => seq![4u8, 0u8] + enc_u128(
                *x as u128,
            ),
            crate::scalar::DecimalScalar::Decimal256(x, _) => seq![4u8, 1u8] + enc_u128(
                x.hi as u128,
            ) + enc_u128(x.lo),
        },
        crate::scalar::ScalarRef::Boolean(b) => seq![
            5u8,
            if *b {
                1u8
            } else {
                0u8
            },
        ],
        crate::scalar::ScalarRef::String(bytes) => seq![6u8] + enc_u64(bytes@.len() as u64)
            + bytes@,
        crate::scalar::ScalarRef::Timestamp(t) => seq![7u8] + enc_u64(*t as u64),
        crate::scalar::ScalarRef::Date(d) => seq![8u8] + enc_u64(*d as u64),
        crate::scalar::ScalarRef::Array(col) => seq![9u8] + enc_col(col),
        crate::scalar::ScalarRef::KvMap(col) => seq![10u8] + enc_col(col),
        crate::scalar::ScalarRef::Tuple(fields) => seq![12u8] + enc_u64(fields@.len() as u64)
            + enc_refs(fields@),
        crate::scalar::ScalarRef::Variant(bytes) => seq![13u8] + enc_u64(bytes@.len() as u64)
            + bytes@,
    }
}

/// The concatenated content bytes of sibling scalars.
pub open spec fn enc_refs(ss: Seq<crate::scalar::ScalarRef>) -> Seq<u8>
    decreases ss, 0int,
{
    if ss.len() == 0 {
        Seq::empty()
    } else {
        enc_refs(ss.drop_last()) + enc_scalar(&ss.last())
    }
}

/// The 64-bit FNV-1a digest of a byte sequence.
pub open spec fn fnv64(bytes: Seq<u8>) -> u64
    decreases bytes,
{
    if bytes.len() == 0 {
        0xcbf29ce484222325u64
    } else {
        vstd::wrapping::u64_specs::wrapping_mul(
            fnv64(bytes.drop_last()) ^ (bytes.last() as u64),
            0x100000001b3u64,
        )
    }
}

/// The content bytes of one scalar value.
#[verifier::loop_isolation(false)]
fn scalar_bytes(s: &crate::scalar::ScalarRef) -> (r: Vec<u8>)
    ensures
        r@ == enc_scalar(s),
    decreases s, 1int,
{
    let mut out: Vec<u8> = Vec::new();
    match s {
        crate::scalar::ScalarRef::Null => {
            out.push(0);
        }
        crate::scalar::ScalarRef::EmptyArray => {
            out.push(1);
        }
        crate::scalar::ScalarRef::EmptyMap => {
            out.push(2);
        }
        crate::scalar::ScalarRef::Number(n) => {
            out.push(3);
            let w: u64 = match n {
                crate::scalar::NumberScalar::UInt8(x) => *x as u64,
                crate::scalar::NumberScalar::UInt16(x) => *x as u64,
                crate::scalar::NumberScalar::UInt32(x) => *x as u64,
                crate::scalar::NumberScalar::UInt64(x) => *x,
                crate::scalar::NumberScalar::Int8(x) => *x as u64,
                crate::scalar::NumberScalar::Int16(x) => *x as u64,
                crate::scalar::NumberScalar::Int32(x) => *x as u64,
                crate::scalar::NumberScalar::Int64(x) => *x as u64,
            };
            push_u64(&mut out, w);
        }
        crate::scalar::ScalarRef::Decimal(d) => {
            out.push(4);
            match d {
                crate::scalar::DecimalScalar::Decimal128(x, _) => {
                    out.push(0);
                    push_u128(&mut out, *x as u128);
                }
                crate::scalar::DecimalScalar::Decimal256(x, _) => {
                    out.push(1);
                    push_u128(&mut out, x.hi as u128);
                    push_u128(&mut out, x.lo);
                }
            }
        }
        crate::scalar::ScalarRef::Boolean(b) => {
            out.push(5);
            out.push(if *b {
                1
            } else {
                0
            });
        }
        crate::scalar::ScalarRef::String(bytes) => {
            out.push(6);
            push_u64(&mut out, bytes.len() as u64);
            out = crate::builder::extend_vec(out, bytes);
        }
        crate::scalar::ScalarRef::Timestamp(t) => {
            out.push(7);
            push_u64(&mut out, *t as u64);
        }
        crate::scalar::ScalarRef::Date(d) => {
            out.push(8);
            push_u64(&mut out, *d as u64);
        }
        crate::scalar::ScalarRef::Array(col) => {
            out.push(9);
            let inner = serialize_column(col);
            out = crate::builder::extend_vec(out, &inner);
        }
        crate::scalar::ScalarRef::KvMap(col) => {
            out.push(10);
            let inner = serialize_column(col);
            out = crate::builder::extend_vec(out, &inner);
        }
        crate::scalar::ScalarRef::Tuple(fields) => {
            out.push(12);
            push_u64(&mut out, fields.len() as u64);
            let mut i: usize = 0;
            let ghost base = out@;
            proof {
                assert(enc_refs(fields@.subrange(0, 0)) =~= Seq::<u8>::empty());
                assert(out@ =~= base + enc_refs(fields@.subrange(0, 0)));
            }
            while i < fields.len()
                invariant
                    i <= fields@.len(),
                    out@ == base + enc_refs(fields@.subrange(0, i as int)),
                decreases fields@.len() - i,
            {
                proof {
                    assert(decreases_to!(fields@ => fields@[i as int]));
                }
                let piece = scalar_bytes(&fields[i]);
                out = crate::builder::extend_vec(out, &piece);
                proof {
                    assert(fields@.subrange(0, i + 1).drop_last() =~= fields@.subrange(
                        0,
                        i as int,
                    ));
                    assert(fields@.subrange(0, i + 1).last() == fields@[i as int]);
                    assert(out@ =~= base + enc_refs(fields@.subrange(0, i + 1)));
                }
                i = i + 1;
            }
            proof {
                assert(fields@.subrange(0, fields@.len() as int) =~= fields@);
            }
        }
        crate::scalar::ScalarRef::Variant(bytes) => {
            out.push(13);
            push_u64(&mut out, bytes.len() as u64);
            out = crate::builder::extend_vec(out, bytes);
        }
    }
    proof {
        assert(out@ =~= enc_scalar(s));
    }
    out
}

/// The FNV-1a digest of a buffer.
#[verifier::loop_isolation(false)]
fn fnv64_of(bytes: &Vec<u8>) -> (r: u64)
    ensures
        r == fnv64(bytes@),
{
    let mut acc: u64 = 0xcbf29ce484222325;
    let mut i: usize = 0;
    proof {
        assert(bytes@.subrange(0, 0) =~= Seq::<u8>::empty());
    }
    while i < bytes.len()
        invariant
            i <= bytes@.len(),
            acc == fnv64(bytes@.subrange(0, i as int)),
        decreases bytes@.len() - i,
    {
        acc = (acc ^ (bytes[i] as u64)).wrapping_mul(0x100000001b3);
        proof {
            assert(bytes@.subrange(0, i + 1).drop_last() =~= bytes@.subrange(0, i as int));
            assert(bytes@.subrange(0, i + 1).last() == bytes@[i as int]);
        }
        i = i + 1;
    }
    proof {
        assert(bytes@.subrange(0, bytes@.len() as int) =~= bytes@);
    }
    acc
}

impl crate::scalar::ScalarRef {
    /// The content hash of this value, consistent with equality for every
    /// variant except `Variant`: array and map values hash their canonical
    /// serialized bytes, so element-wise equal nested values hash alike,
    /// while a variant hashes its raw payload, so JSON-equal but
    /// byte-different payloads may hash apart.
    pub fn content_hash(&self) -> (r: u64)
        ensures
            r == fnv64(enc_scalar(self)),
    {
        let bytes = scalar_bytes(self);
        fnv64_of(&bytes)
    }
}

/// A byte string `e` sits verbatim in `b` at `pos`.
pub open spec fn is_enc_at(b: Seq<u8>, pos: int, e: Seq<u8>) -> bool {
    0 <= pos && pos + e.len() <= b.len() && b.subrange(pos, pos + e.len()) == e
}

/// A chunk made of two pieces sits at a position exactly when each piece
/// sits at its own position.
pub proof fn lemma_split(b: Seq<u8>, pos: int, x: Seq<u8>, y: Seq<u8>)
    requires
        is_enc_at(b, pos, x + y),
    ensures
        is_enc_at(b, pos, x),
        is_enc_at(b, pos + x.len(), y),
{
    let e = x + y;
    assert forall|i: int| 0 <= i < x.len() implies b.subrange(pos, pos + x.len())[i] == x[i] by {
        assert(b.subrange(pos, pos + e.len())[i] == e[i]);
        assert(e[i] == x[i]);
        assert(b[pos + i] == e[i]);
    }
    assert(b.subrange(pos, pos + x.len()) =~= x);
    assert forall|i: int| 0 <= i < y.len() implies b.subrange(
        pos + x.len(),
        pos + x.len() + y.len(),
    )[i] == y[i] by {
        assert(b.subrange(pos, pos + e.len())[x.len() + i] == e[x.len() + i]);
        assert(e[x.len() + i] == y[i]);
        assert(b[pos + x.len() + i] == e[x.len() + i]);
    }
    assert(b.subrange(pos + x.len(), pos + x.len() + y.len()) =~= y);
}

/// Two words with the same eight-byte spelling are the same word.
pub proof fn lemma_enc_u64_inj(a: u64, w: u64)
    requires
        enc_u64(a) == enc_u64(w),
    ensures
        a == w,
{
    assert(enc_u64(a).subrange(0, 8) =~= enc_u64(a));
    lemma_word_at_enc(enc_u64(a), 0, a);
    assert(enc_u64(a).subrange(0, 8) =~= enc_u64(w));
    lemma_word_at_enc(enc_u64(a), 0, w);
}

/// Length and per-word placement of an encoded word sequence.
pub proof fn lemma_enc_words_len(ws: Seq<u64>)
    ensures
        enc_words(ws).len() == 8 * ws.len(),
    decreases ws,
{
    if ws.len() > 0 {
        lemma_enc_words_len(ws.drop_last());
    }
}

/// The eight bytes of word `i` inside an encoded word sequence.
pub proof fn lemma_enc_words_at(ws: Seq<u64>, i: int)
    requires
        0 <= i < ws.len(),
    ensures
        enc_words(ws).subrange(8 * i, 8 * i + 8) == enc_u64(ws[i]),
    decreases ws,
{
    lemma_enc_words_len(ws);
    if i < ws.len() - 1 {
        lemma_enc_words_at(ws.drop_last(), i);
        lemma_enc_words_len(ws.drop_last());
        assert(enc_words(ws).subrange(8 * i, 8 * i + 8) =~= enc_words(ws.drop_last()).subrange(
            8 * i,
            8 * i + 8,
        ));
    } else {
        lemma_enc_words_len(ws.drop_last());
        assert(enc_words(ws).subrange(8 * i, 8 * i + 8) =~= enc_u64(ws.last()));
    }
}

/// Length and per-value placement of encoded 128-bit signed values.
pub proof fn lemma_enc_i128s_len(s: Seq<i128>)
    ensures
        enc_i128s(s).len() == 16 * s.len(),
    decreases s,
{
    if s.len() > 0 {
        lemma_enc_i128s_len(s.drop_last());
    }
}

/// The sixteen bytes of value `i` inside encoded 128-bit values.
pub proof fn lemma_enc_i128s_at(s: Seq<i128>, i: int)
    requires
        0 <= i < s.len(),
    ensures
        enc_i128s(s).subrange(16 * i, 16 * i + 16) == enc_u128(s[i] as u128),
    decreases s,
{
    lemma_enc_i128s_len(s);
    if i < s.len() - 1 {
        lemma_enc_i128s_at(s.drop_last(), i);
        lemma_enc_i128s_len(s.drop_last());
        assert(enc_i128s(s).subrange(16 * i, 16 * i + 16) =~= enc_i128s(s.drop_last()).subrange(
            16 * i,
            16 * i + 16,
        ));
    } else {
        lemma_enc_i128s_len(s.drop_last());
        assert(enc_i128s(s).subrange(16 * i, 16 * i + 16) =~= enc_u128(s.last() as u128));
    }
}

/// Length and per-value placement of encoded 256-bit values.
pub proof fn lemma_enc_i256s_len(s: Seq<I256>)
    ensures
        enc_i256s(s).len() == 32 * s.len(),
    decreases s,
{
    if s.len() > 0 {
        lemma_enc_i256s_len(s.drop_last());
    }
}

/// The thirty-two bytes of value `i` inside encoded 256-bit values.
pub proof fn lemma_enc_i256s_at(s: Seq<I256>, i: int)
    requires
        0 <= i < s.len(),
    ensures
        enc_i256s(s).subrange(32 * i, 32 * i + 16) == enc_u128(s[i].hi as u128),
        enc_i256s(s).subrange(32 * i + 16, 32 * i + 32) == enc_u128(s[i].lo),
    decreases s,
{
    lemma_enc_i256s_len(s);
    if i < s.len() - 1 {
        lemma_enc_i256s_at(s.drop_last(), i);
        lemma_enc_i256s_len(s.drop_last());
        assert(enc_i256s(s).subrange(32 * i, 32 * i + 16) =~= enc_i256s(s.drop_last()).subrange(
            32 * i,
            32 * i + 16,
        ));
        assert(enc_i256s(s).subrange(32 * i + 16, 32 * i + 32) =~= enc_i256s(
            s.drop_last(),
        ).subrange(32 * i + 16, 32 * i + 32));
    } else {
        lemma_enc_i256s_len(s.drop_last());
        assert(enc_i256s(s).subrange(32 * i, 32 * i + 16) =~= enc_u128(s.last().hi as u128));
        assert(enc_i256s(s).subrange(32 * i + 16, 32 * i + 32) =~= enc_u128(s.last().lo));
    }
}

/// An encoded column chunk starts with its variant's tag byte.
pub open spec fn col_tag(c: &Column) -> u8 {
    match c {
        Column::Null { .. } => 0,
        Column::EmptyArray { .. } => 1,
        Column::EmptyMap { .. } => 2,
        Column::Number(_) => 3,
        Column::Decimal(_) => 4,
        Column::Boolean(_) => 5,
        Column::String(_) => 6,
        Column::Timestamp(_) => 7,
        Column::Date(_) => 8,
        Column::Array(_) => 9,
        Column::KvMap(_) => 10,
        Column::Tuple { .. } => 12,
        Column::Nullable(_) => 11,
        Column::Variant(_) => 13,
    }
}

/// The first encoded byte is the tag, and the chunk is never empty.
#[verifier::rlimit(60)]
pub proof fn lemma_enc_tag(c: &Column)
    ensures
        enc_col(c).len() >= 1,
        enc_col(c)[0] == col_tag(c),
{
    match c {
        Column::Null { .. } => {},
        Column::EmptyArray { .. } => {},
        Column::EmptyMap { .. } => {},
        Column::Number(_) => {},
        Column::Decimal(dc) => {
            match dc {
                DecimalColumn::Decimal128(_, _) => {},
                DecimalColumn::Decimal256(_, _) => {},
            }
        }
        Column::Boolean(_) => {},
        Column::String(_) => {},
        Column::Timestamp(_) => {},
        Column::Date(_) => {},
        Column::Array(_) => {},
        Column::KvMap(_) => {},
        Column::Nullable(_) => {},
        Column::Tuple { .. } => {},
        Column::Variant(_) => {},
    }
}

/// A column's tag byte names its variant.
pub proof fn lemma_tag_variant(c: &Column)
    ensures
        (col_tag(c) == 0) == (c is Null),
        (col_tag(c) == 1) == (c is EmptyArray),
        (col_tag(c) == 2) == (c is EmptyMap),
        (col_tag(c) == 3) == (c is Number),
        (col_tag(c) == 4) == (c is Decimal),
        (col_tag(c) == 5) == (c is Boolean),
        (col_tag(c) == 6) == (c is String),
        (col_tag(c) == 7) == (c is Timestamp),
        (col_tag(c) == 8) == (c is Date),
        (col_tag(c) == 9) == (c is Array),
        (col_tag(c) == 10) == (c is KvMap),
        (col_tag(c) == 11) == (c is Nullable),
        (col_tag(c) == 12) == (c is Tuple),
        (col_tag(c) == 13) == (c is Variant),
{
    match c {
        Column::Null { .. } => {},
        Column::EmptyArray { .. } => {},
        Column::EmptyMap { .. } => {},
        Column::Number(_) => {},
        Column::Decimal(_) => {},
        Column::Boolean(_) => {},
        Column::String(_) => {},
        Column::Timestamp(_) => {},
        Column::Date(_) => {},
        Column::Array(_) => {},
        Column::KvMap(_) => {},
        Column::Nullable(_) => {},
        Column::Tuple { .. } => {},
        Column::Variant(_) => {},
    }
}

/// Head decomposition of the concatenated sibling encodings.
pub proof fn lemma_enc_cols_head(cs: Seq<Column>)
    requires
        cs.len() > 0,
    ensures
        enc_cols(cs) == enc_col(&cs[0]) + enc_cols(cs.skip(1)),
    decreases cs,
{
    if cs.len() == 1 {
        assert(cs.drop_last().len() == 0);
        assert(cs.skip(1).len() == 0);
        assert(enc_cols(cs.drop_last()) =~= Seq::<u8>::empty());
        assert(enc_cols(cs.skip(1)) =~= Seq::<u8>::empty());
        assert(cs.last() == cs[0]);
        assert(enc_cols(cs) =~= enc_col(&cs[0]) + enc_cols(cs.skip(1)));
    } else {
        lemma_enc_cols_head(cs.drop_last());
        assert(cs.drop_last()[0] == cs[0]);
        assert(cs.skip(1).drop_last() =~= cs.drop_last().skip(1));
        assert(cs.skip(1).last() == cs.last());
        assert(enc_cols(cs.skip(1)) == enc_cols(cs.drop_last().skip(1)) + enc_col(&cs.last()));
        assert(enc_cols(cs) =~= enc_col(&cs[0]) + enc_cols(cs.skip(1)));
    }
}

/// Sibling lists with pairwise equal encodings have equal concatenations.
pub proof fn lemma_enc_cols_eq(cs1: Seq<Column>, cs2: Seq<Column>)
    requires
        cs1.len() == cs2.len(),
        forall|i: int| 0 <= i < cs1.len() ==> #[trigger] enc_col(&cs1[i]) == enc_col(&cs2[i]),
    ensures
        enc_cols(cs1) == enc_cols(cs2),
    decreases cs1,
{
    if cs1.len() > 0 {
        assert forall|i: int| 0 <= i < cs1.drop_last().len() implies #[trigger] enc_col(
            &cs1.drop_last()[i],
        ) == enc_col(&cs2.drop_last()[i]) by {
            assert(cs1.drop_last()[i] == cs1[i]);
            assert(cs2.drop_last()[i] == cs2[i]);
            assert(enc_col(&cs1[i]) == enc_col(&cs2[i]));
        }
        lemma_enc_cols_eq(cs1.drop_last(), cs2.drop_last());
        assert(cs1.last() == cs1[cs1.len() - 1]);
        assert(cs2.last() == cs2[cs2.len() - 1]);
        assert(enc_col(&cs1[cs1.len() - 1]) == enc_col(&cs2[cs2.len() - 1]));
    }
}

/// Signed truncation round trips for values that fit.
proof fn lemma_trunc_i8(x: i8)
    ensures
        ((x as u64) as i8) == x,
{
    assert(((x as u64) as i8) == x) by (bit_vector);
}

/// Signed truncation round trips for values that fit.
proof fn lemma_trunc_i16(x: i16)
    ensures
        ((x as u64) as i16) == x,
{
    assert(((x as u64) as i16) == x) by (bit_vector);
}

/// Signed truncation round trips for values that fit.
proof fn lemma_trunc_i32(x: i32)
    ensures
        ((x as u64) as i32) == x,
{
    assert(((x as u64) as i32) == x) by (bit_vector);
}

/// Signed truncation round trips for values that fit.
proof fn lemma_trunc_i64(x: i64)
    ensures
        ((x as u64) as i64) == x,
{
    assert(((x as u64) as i64) == x) by (bit_vector);
}

/// Signed truncation round trips for values that fit.
proof fn lemma_trunc_i128(x: i128)
    ensures
        ((x as u128) as i128) == x,
{
    assert(((x as u128) as i128) == x) by (bit_vector);
}

/// A word survives the cast to the signed type of the same width and back.
proof fn lemma_trunc_u64(w: u64)
    ensures
        ((w as i64) as u64) == w,
{
    assert(((w as i64) as u64) == w) by (bit_vector);
}

/// A wide word survives the cast to the signed type of the same width and
/// back.
proof fn lemma_trunc_u128(w: u128)
    ensures
        ((w as i128) as u128) == w,
{
    assert(((w as i128) as u128) == w) by (bit_vector);
}

/// Read a shared byte buffer with its offsets, checking them. When a
/// well-formed buffer's encoding is known to sit at the position, the read
/// succeeds and returns exactly that buffer.
#[verifier::loop_isolation(false)]
#[verifier::rlimit(100)]
fn read_strings(bytes: &Vec<u8>, pos: usize, gsc: Ghost<Option<StringColumn>>) -> (r: Option<
    (StringColumn, usize),
>)
    requires
        pos <= bytes@.len(),
        match gsc@ {
            Some(sc) => sc.wf() && is_enc_at(bytes@, pos as int, enc_strings(&sc)),
            None => true,
        },
    ensures
        r matches Some(p) ==> pos < p.1 <= bytes@.len() && p.0.wf(),
        match gsc@ {
            Some(sc) => r matches Some(p) && p.0.data@ == sc.data@ && p.0.offsets@ == sc.offsets@
                && p.1 == pos + enc_strings(&sc).len(),
            None => true,
        },
{
    proof {
        if let Some(sc) = gsc@ {
            assert(sc.data.len() == sc.data@.len());
            assert(sc.offsets.len() == sc.offsets@.len());
            let e1 = enc_u64(sc.data@.len() as u64);
            let rest1 = sc.data@ + enc_u64(sc.offsets@.len() as u64) + enc_words(
                usize_words(sc.offsets@),
            );
            assert(enc_strings(&sc) =~= e1 + rest1);
            lemma_split(bytes@, pos as int, e1, rest1);
            assert(bytes@.subrange(pos as int, pos + 8) =~= e1);
            lemma_word_at_enc(bytes@, pos as int, sc.data@.len() as u64);
        }
    }
    let (dlen, p1) = match read_count(bytes, pos) {
        Some(x) => x,
        None => {
            return None;
        }
    };
    proof {
        if let Some(sc) = gsc@ {
            assert(sc.data.len() == sc.data@.len());
            assert(dlen == sc.data@.len());
            let e2 = sc.data@;
            let rest2 = enc_u64(sc.offsets@.len() as u64) + enc_words(usize_words(sc.offsets@));
            let rest1 = e2 + rest2;
            assert(enc_strings(&sc) =~= enc_u64(sc.data@.len() as u64) + (e2 + rest2));
            lemma_split(bytes@, pos as int, enc_u64(sc.data@.len() as u64), e2 + rest2);
            lemma_split(bytes@, pos + 8, e2, rest2);
        }
    }
    let (data, p2) = match read_bytes(bytes, p1, dlen) {
        Some(x) => x,
        None => {
            return None;
        }
    };
    proof {
        if let Some(sc) = gsc@ {
            assert(data@ =~= sc.data@);
            let e3 = enc_u64(sc.offsets@.len() as u64);
            let rest3 = enc_words(usize_words(sc.offsets@));
            lemma_split(bytes@, pos + 8 + sc.data@.len(), e3, rest3);
            assert(bytes@.subrange(p2 as int, p2 + 8) =~= e3);
            lemma_word_at_enc(bytes@, p2 as int, sc.offsets@.len() as u64);
        }
    }
    let (olen, p3) = match read_count(bytes, p2) {
        Some(x) => x,
        None => {
            return None;
        }
    };
    proof {
        if let Some(sc) = gsc@ {
            assert(sc.offsets.len() == sc.offsets@.len());
            assert(olen == sc.offsets@.len());
            let ws = usize_words(sc.offsets@);
            lemma_enc_words_len(ws);
            assert forall|i: int| 0 <= i < olen implies #[trigger] word_at(bytes@, p3 + 8 * i)
                == ws[i] by {
                lemma_enc_words_at(ws, i);
                assert(bytes@.subrange(p3 + 8 * i, p3 + 8 * i + 8) =~= enc_words(ws).subrange(
                    8 * i,
                    8 * i + 8,
                ));
                lemma_word_at_enc(bytes@, p3 + 8 * i, ws[i]);
            }
        }
    }
    let (offsets, p4) = match read_usizes(bytes, p3, olen) {
        Some(x) => x,
        None => {
            return None;
        }
    };
    proof {
        if let Some(sc) = gsc@ {
            assert forall|i: int| 0 <= i < olen implies #[trigger] offsets@[i]
                == sc.offsets@[i] by {
                assert(offsets@[i] as u64 == word_at(bytes@, p3 + 8 * i));
                assert(usize_words(sc.offsets@)[i] == sc.offsets@[i] as u64);
            }
            assert(offsets@ =~= sc.offsets@);
        }
    }
    let dl = data.len();
    if !check_offsets(&offsets, dl) {
        return None;
    }
    Some((StringColumn { data, offsets }, p4))
}

/// Parse one column at a position: the tag, then the variant's payload,
/// with every structural invariant checked; `None` on any malformed
/// prefix. The returned row count equals the column's. When a well-formed
/// column's canonical encoding is known to sit at the position, parsing
/// succeeds, consumes exactly that encoding, and the result re-encodes to
/// it.
#[verifier::loop_isolation(false)]
#[verifier::rlimit(100)]
fn parse_column(bytes: &Vec<u8>, pos: usize, gc: Ghost<Option<Column>>) -> (r: Option<
    (Column, usize, usize),
>)
    requires
        pos <= bytes@.len(),
        match gc@ {
            Some(c) => codec_wf(&c) && is_enc_at(bytes@, pos as int, enc_col(&c)),
            None => true,
        },
    ensures
        r matches Some(p) ==> pos < p.2 <= bytes@.len() && codec_wf(&p.0) && p.1
            == p.0.vals().len(),
        match gc@ {
            Some(c) => r matches Some(p) && enc_col(&p.0) == enc_col(&c) && p.1 == c.vals().len()
                && p.2 == pos + enc_col(&c).len(),
            None => true,
        },
    decreases bytes@.len() - pos, 2int,
{
    let total = bytes.len();
    proof {
        if let Some(c) = gc@ {
            lemma_enc_tag(&c);
            lemma_tag_variant(&c);
            assert(bytes@[pos as int] == enc_col(&c)[0]) by {
                assert(bytes@.subrange(pos as int, pos + enc_col(&c).len())[0] == enc_col(&c)[0]);
            }
        }
    }
    if pos >= total {
        return None;
    }
    let tag = bytes[pos];
    let p0 = pos + 1;
    match tag {
        0u8 => {
            proof {
                if let Some(c) = gc@ {
                    assert(c is Null);
                    assert(enc_col(&c) =~= seq![0u8] + enc_u64(c->Null_len as u64));
                    lemma_split(bytes@, pos as int, seq![0u8], enc_u64(c->Null_len as u64));
                    assert(bytes@.subrange(p0 as int, p0 + 8) =~= enc_u64(c->Null_len as u64));
                    lemma_word_at_enc(bytes@, p0 as int, c->Null_len as u64);
                }
            }
            let (n, p1) = match read_count(bytes, p0) {
                Some(x) => x,
                None => {
                    return None;
                }
            };
            let c2 = Column::Null { len: n };
            proof {
                assert(c2.vals().len() == n);
                if let Some(c) = gc@ {
                    assert(n == c->Null_len);
                    assert(enc_col(&c2) =~= enc_col(&c));
                    assert(c.vals().len() == n);
                }
            }
            Some((c2, n, p1))
        }
        1u8 => {
            proof {
                if let Some(c) = gc@ {
                    assert(c is EmptyArray);
                    assert(enc_col(&c) =~= seq![1u8] + enc_u64(c->EmptyArray_len as u64));
                    lemma_split(bytes@, pos as int, seq![1u8], enc_u64(c->EmptyArray_len as u64));
                    assert(bytes@.subrange(p0 as int, p0 + 8) =~= enc_u64(
                        c->EmptyArray_len as u64,
                    ));
                    lemma_word_at_enc(bytes@, p0 as int, c->EmptyArray_len as u64);
                }
            }
            let (n, p1) = match read_count(bytes, p0) {
                Some(x) => x,
                None => {
                    return None;
                }
            };
            let c2 = Column::EmptyArray { len: n };
            proof {
                assert(c2.vals().len() == n);
                if let Some(c) = gc@ {
                    assert(n == c->EmptyArray_len);
                    assert(enc_col(&c2) =~= enc_col(&c));
                    assert(c.vals().len() == n);
                }
            }
            Some((c2, n, p1))
        }
        2u8 => {
            proof {
                if let Some(c) = gc@ {
                    assert(c is EmptyMap);
                    assert(enc_col(&c) =~= seq![2u8] + enc_u64(c->EmptyMap_len as u64));
                    lemma_split(bytes@, pos as int, seq![2u8], enc_u64(c->EmptyMap_len as u64));
                    assert(bytes@.subrange(p0 as int, p0 + 8) =~= enc_u64(c->EmptyMap_len as u64));
                    lemma_word_at_enc(bytes@, p0 as int, c->EmptyMap_len as u64);
                }
            }
            let (n, p1) = match read_count(bytes, p0) {
                Some(x) => x,
                None => {
                    return None;
                }
            };
            let c2 = Column::EmptyMap { len: n };
            proof {
                assert(c2.vals().len() == n);
                if let Some(c) = gc@ {
                    assert(n == c->EmptyMap_len);
                    assert(enc_col(&c2) =~= enc_col(&c));
                    assert(c.vals().len() == n);
                }
            }
            Some((c2, n, p1))
        }
        _ => parse_column_rest(bytes, pos, tag, gc),
    }
}

/// A number buffer's encoding tag names its variant.
proof fn lemma_num_tag_variant(nc: &NumberColumn)
    ensures
        (num_tag(nc) == 0) == (nc is UInt8),
        (num_tag(nc) == 1) == (nc is UInt16),
        (num_tag(nc) == 2) == (nc is UInt32),
        (num_tag(nc) == 3) == (nc is UInt64),
        (num_tag(nc) == 4) == (nc is Int8),
        (num_tag(nc) == 5) == (nc is Int16),
        (num_tag(nc) == 6) == (nc is Int32),
        (num_tag(nc) == 7) == (nc is Int64),
{
    match nc {
        NumberColumn::UInt8(_) => {},
        NumberColumn::UInt16(_) => {},
        NumberColumn::UInt32(_) => {},
        NumberColumn::UInt64(_) => {},
        NumberColumn::Int8(_) => {},
        NumberColumn::Int16(_) => {},
        NumberColumn::Int32(_) => {},
        NumberColumn::Int64(_) => {},
    }
}

/// `cols_codec_wf` holds elementwise.
pub proof fn lemma_cols_codec_wf(cs: Seq<Column>, n: nat)
    requires
        cols_codec_wf(cs, n),
    ensures
        forall|i: int| 0 <= i < cs.len() ==> #[trigger] codec_wf(&cs[i]),
        forall|i: int| 0 <= i < cs.len() ==> #[trigger] cs[i].vals().len() == n,
    decreases cs.len(),
{
    if cs.len() > 0 {
        lemma_cols_codec_wf(cs.drop_last(), n);
        assert forall|i: int| 0 <= i < cs.len() implies #[trigger] codec_wf(&cs[i]) by {
            if i < cs.len() - 1 {
                assert(codec_wf(&cs.drop_last()[i]));
                assert(cs.drop_last()[i] == cs[i]);
            } else {
                assert(cs[i] == cs.last());
            }
        }
        assert forall|i: int| 0 <= i < cs.len() implies #[trigger] cs[i].vals().len() == n by {
            if i < cs.len() - 1 {
                assert(cs.drop_last()[i].vals().len() == n);
                assert(cs.drop_last()[i] == cs[i]);
            } else {
                assert(cs[i] == cs.last());
            }
        }
    }
}

/// Tuple columns with equal encodings have equally many fields.
proof fn lemma_tuple_nfields(c1: &Column, c2: &Column)
    requires
        c1 is Tuple,
        c2 is Tuple,
        enc_col(c1) == enc_col(c2),
    ensures
        c1->Tuple_fields@.len() == c2->Tuple_fields@.len(),
{
    let e1 = enc_col(c1);
    let e2 = enc_col(c2);
    assert(c1->Tuple_fields.len() == c1->Tuple_fields@.len());
    assert(c2->Tuple_fields.len() == c2->Tuple_fields@.len());
    assert(e1.subrange(9, 17) =~= enc_u64(c1->Tuple_fields@.len() as u64));
    assert(e2.subrange(9, 17) =~= enc_u64(c2->Tuple_fields@.len() as u64));
    lemma_enc_u64_inj(c1->Tuple_fields@.len() as u64, c2->Tuple_fields@.len() as u64);
}

/// Parse the non-virtual variants: the tag byte has been read and is 3 or
/// more; the ghost witness direction mirrors `parse_column`.
#[verifier::loop_isolation(false)]
#[verifier::rlimit(100)]
fn parse_column_rest(bytes: &Vec<u8>, pos: usize, tag: u8, gc: Ghost<Option<Column>>) -> (r:
    Option<(Column, usize, usize)>)
    requires
        pos < bytes@.len(),
        tag == bytes@[pos as int],
        !(tag == 0 || tag == 1 || tag == 2),
        match gc@ {
            Some(c) => codec_wf(&c) && is_enc_at(bytes@, pos as int, enc_col(&c)) && col_tag(&c)
                == tag,
            None => true,
        },
    ensures
        r matches Some(p) ==> pos < p.2 <= bytes@.len() && codec_wf(&p.0) && p.1
            == p.0.vals().len(),
        match gc@ {
            Some(c) => r matches Some(p) && enc_col(&p.0) == enc_col(&c) && p.1 == c.vals().len()
                && p.2 == pos + enc_col(&c).len(),
            None => true,
        },
    decreases bytes@.len() - pos, 1int,
{
    let total = bytes.len();
    let p0 = pos + 1;
    proof {
        if let Some(c) = gc@ {
            lemma_tag_variant(&c);
        }
    }
    match tag {
        3u8 => parse_number_column(bytes, pos, gc),
        5u8 => {
            proof {
                if let Some(c) = gc@ {
                    let v0 = c->Boolean_0;
                    assert(enc_col(&c) =~= seq![5u8] + enc_u64(v0@.len() as u64) + enc_bools(v0@));
                    assert(enc_col(&c) =~= seq![5u8] + (enc_u64(v0@.len() as u64) + enc_bools(
                        v0@,
                    )));
                    lemma_split(
                        bytes@,
                        pos as int,
                        seq![5u8],
                        enc_u64(v0@.len() as u64) + enc_bools(v0@),
                    );
                    lemma_split(bytes@, pos + 1, enc_u64(v0@.len() as u64), enc_bools(v0@));
                    assert(bytes@.subrange(p0 as int, p0 + 8) =~= enc_u64(v0@.len() as u64));
                    lemma_word_at_enc(bytes@, p0 as int, v0@.len() as u64);
                }
            }
            let (n, p1) = match read_count(bytes, p0) {
                Some(x) => x,
                None => {
                    return None;
                }
            };
            let (flags, p2) = match read_bools(bytes, p1, n) {
                Some(x) => x,
                None => {
                    return None;
                }
            };
            let c2 = Column::Boolean(flags);
            proof {
                assert(c2.vals().len() == n);
                if let Some(c) = gc@ {
                    let v0 = c->Boolean_0;
                    assert forall|i: int| 0 <= i < n implies #[trigger] c2->Boolean_0@[i]
                        == v0@[i] by {
                        assert(bytes@[p1 + i] == enc_bools(v0@)[i]) by {
                            assert(bytes@.subrange(p1 as int, p1 + v0@.len())[i] == enc_bools(
                                v0@,
                            )[i]);
                        }
                    }
                    assert(c2->Boolean_0@ =~= v0@);
                    assert(enc_col(&c2) =~= enc_col(&c));
                    assert(c.vals().len() == n);
                }
            }
            Some((c2, n, p2))
        }
        6u8 => {
            proof {
                if let Some(c) = gc@ {
                    assert(enc_col(&c) =~= seq![6u8] + enc_strings(&c->String_0));
                    lemma_split(bytes@, pos as int, seq![6u8], enc_strings(&c->String_0));
                }
            }
            let ghost gsc: Option<StringColumn> = match gc@ {
                Some(c) => Some(c->String_0),
                None => None,
            };
            let (sc, p1) = match read_strings(bytes, p0, Ghost(gsc)) {
                Some(x) => x,
                None => {
                    return None;
                }
            };
            let rows = sc.offsets.len() - 1;
            let c2 = Column::String(sc);
            proof {
                assert(c2.vals().len() == rows);
                if let Some(c) = gc@ {
                    assert(enc_col(&c2) =~= enc_col(&c));
                    assert(c.vals().len() == rows);
                }
            }
            Some((c2, rows, p1))
        }
        13u8 => {
            proof {
                if let Some(c) = gc@ {
                    assert(enc_col(&c) =~= seq![13u8] + enc_strings(&c->Variant_0));
                    lemma_split(bytes@, pos as int, seq![13u8], enc_strings(&c->Variant_0));
                }
            }
            let ghost gsc: Option<StringColumn> = match gc@ {
                Some(c) => Some(c->Variant_0),
                None => None,
            };
            let (sc, p1) = match read_strings(bytes, p0, Ghost(gsc)) {
                Some(x) => x,
                None => {
                    return None;
                }
            };
            let rows = sc.offsets.len() - 1;
            let c2 = Column::Variant(sc);
            proof {
                assert(c2.vals().len() == rows);
                if let Some(c) = gc@ {
                    assert(enc_col(&c2) =~= enc_col(&c));
                    assert(c.vals().len() == rows);
                }
            }
            Some((c2, rows, p1))
        }
        7u8 => {
            proof {
                if let Some(c) = gc@ {
                    let v0 = c->Timestamp_0;
                    assert(v0.len() == v0@.len());
                    let ws = Seq::new(v0@.len(), |i: int| v0@[i] as u64);
                    assert(enc_col(&c) =~= seq![7u8] + enc_u64(v0@.len() as u64) + enc_words(ws));
                    assert(enc_col(&c) =~= seq![7u8] + (enc_u64(v0@.len() as u64) + enc_words(
                        ws,
                    )));
                    lemma_split(
                        bytes@,
                        pos as int,
                        seq![7u8],
                        enc_u64(v0@.len() as u64) + enc_words(ws),
                    );
                    lemma_split(bytes@, pos + 1, enc_u64(v0@.len() as u64), enc_words(ws));
                    assert(bytes@.subrange(p0 as int, p0 + 8) =~= enc_u64(v0@.len() as u64));
                    lemma_word_at_enc(bytes@, p0 as int, v0@.len() as u64);
                    lemma_enc_words_len(ws);
                    assert forall|i: int| 0 <= i < ws.len() implies #[trigger] word_at(
                        bytes@,
                        pos + 9 + 8 * i,
                    ) == ws[i] by {
                        lemma_enc_words_at(ws, i);
                        assert(bytes@.subrange(pos + 9 + 8 * i, pos + 9 + 8 * i + 8) =~= enc_words(
                            ws,
                        ).subrange(8 * i, 8 * i + 8));
                        lemma_word_at_enc(bytes@, pos + 9 + 8 * i, ws[i]);
                    }
                }
            }
            let (n, p1) = match read_count(bytes, p0) {
                Some(x) => x,
                None => {
                    return None;
                }
            };
            proof {
                if let Some(c) = gc@ {
                    assert(n == c->Timestamp_0@.len());
                }
            }
            let mut v: Vec<i64> = Vec::new();
            let mut cur = p1;
            let mut i: usize = 0;
            while i < n
                invariant
                    i <= n,
                    pos < cur <= bytes@.len(),
                    cur == p1 + 8 * (i as int),
                    v@.len() == i as int,
                    forall|j: int|
                        0 <= j < i as int ==> (#[trigger] v@[j]) as u64 == word_at(
                            bytes@,
                            p1 + 8 * j,
                        ),
                decreases n - i,
            {
                let (w, p2) = match read_u64(bytes, cur) {
                    Some(x) => x,
                    None => {
                        return None;
                    }
                };
                #[verifier::truncate]
                let x = w as i64;
                proof {
                    lemma_trunc_u64(w);
                }
                v.push(x);
                cur = p2;
                i = i + 1;
            }
            let c2 = Column::Timestamp(v);
            proof {
                assert(c2.vals().len() == n);
                if let Some(c) = gc@ {
                    let v0 = c->Timestamp_0;
                    assert forall|j: int| 0 <= j < n implies #[trigger] c2->Timestamp_0@[j]
                        == v0@[j] by {
                        assert(word_at(bytes@, p1 + 8 * j) == word_at(bytes@, pos + 9 + 8 * j));
                        assert(c2->Timestamp_0@[j] as u64 == v0@[j] as u64);
                        lemma_trunc_i64(v0@[j]);
                        lemma_trunc_i64(c2->Timestamp_0@[j]);
                        assert((c2->Timestamp_0@[j] as u64) as i64 == (v0@[j] as u64) as i64);
                    }
                    assert(c2->Timestamp_0@ =~= v0@);
                    assert(enc_col(&c2) =~= enc_col(&c));
                    assert(c.vals().len() == n);
                }
            }
            Some((c2, n, cur))
        }
        8u8 => {
            proof {
                if let Some(c) = gc@ {
                    let v0 = c->Date_0;
                    assert(v0.len() == v0@.len());
                    let ws = Seq::new(v0@.len(), |i: int| v0@[i] as u64);
                    assert(enc_col(&c) =~= seq![8u8] + enc_u64(v0@.len() as u64) + enc_words(ws));
                    assert(enc_col(&c) =~= seq![8u8] + (enc_u64(v0@.len() as u64) + enc_words(
                        ws,
                    )));
                    lemma_split(
                        bytes@,
                        pos as int,
                        seq![8u8],
                        enc_u64(v0@.len() as u64) + enc_words(ws),
                    );
                    lemma_split(bytes@, pos + 1, enc_u64(v0@.len() as u64), enc_words(ws));
                    assert(bytes@.subrange(p0 as int, p0 + 8) =~= enc_u64(v0@.len() as u64));
                    lemma_word_at_enc(bytes@, p0 as int, v0@.len() as u64);
                    lemma_enc_words_len(ws);
                    assert forall|i: int| 0 <= i < ws.len() implies #[trigger] word_at(
                        bytes@,
                        pos + 9 + 8 * i,
                    ) == ws[i] by {
                        lemma_enc_words_at(ws, i);
                        assert(bytes@.subrange(pos + 9 + 8 * i, pos + 9 + 8 * i + 8) =~= enc_words(
                            ws,
                        ).subrange(8 * i, 8 * i + 8));
                        lemma_word_at_enc(bytes@, pos + 9 + 8 * i, ws[i]);
                    }
                }
            }
            let (n, p1) = match read_count(bytes, p0) {
                Some(x) => x,
                None => {
                    return None;
                }
            };
            proof {
                if let Some(c) = gc@ {
                    assert(n == c->Date_0@.len());
                }
            }
            let mut v: Vec<i32> = Vec::new();
            let mut cur = p1;
            let mut i: usize = 0;
            while i < n
                invariant
                    i <= n,
                    pos < cur <= bytes@.len(),
                    cur == p1 + 8 * (i as int),
                    v@.len() == i as int,
                    match gc@ {
                        Some(c) => forall|j: int|
                            0 <= j < i as int ==> (#[trigger] v@[j]) as u64 == word_at(
                                bytes@,
                                p1 + 8 * j,
                            ),
                        None => true,
                    },
                decreases n - i,
            {
                let (w, p2) = match read_u64(bytes, cur) {
                    Some(x) => x,
                    None => {
                        return None;
                    }
                };
                #[verifier::truncate]
                let x = w as i32;
                proof {
                    if let Some(c) = gc@ {
                        let v0 = c->Date_0;
                        let ws = Seq::new(v0@.len(), |q: int| v0@[q] as u64);
                        assert(word_at(bytes@, p1 + 8 * (i as int)) == word_at(
                            bytes@,
                            pos + 9 + 8 * (i as int),
                        ));
                        assert(w == ws[i as int]);
                        lemma_trunc_i32(v0@[i as int]);
                        assert(x == v0@[i as int]);
                        assert(x as u64 == w);
                    }
                }
                v.push(x);
                cur = p2;
                i = i + 1;
            }
            let c2 = Column::Date(v);
            proof {
                assert(c2.vals().len() == n);
                if let Some(c) = gc@ {
                    let v0 = c->Date_0;
                    assert forall|j: int| 0 <= j < n implies #[trigger] c2->Date_0@[j]
                        == v0@[j] by {
                        assert(word_at(bytes@, p1 + 8 * j) == word_at(bytes@, pos + 9 + 8 * j));
                        assert(c2->Date_0@[j] as u64 == v0@[j] as u64);
                        lemma_trunc_i32(v0@[j]);
                        lemma_trunc_i32(c2->Date_0@[j]);
                        assert((c2->Date_0@[j] as u64) as i32 == (v0@[j] as u64) as i32);
                    }
                    assert(c2->Date_0@ =~= v0@);
                    assert(enc_col(&c2) =~= enc_col(&c));
                    assert(c.vals().len() == n);
                }
            }
            Some((c2, n, cur))
        }
        4u8 => parse_decimal_column(bytes, pos, gc),
        9u8 => parse_array_column(bytes, pos, gc),
        10u8 => parse_kvmap_column(bytes, pos, gc),
        11u8 => parse_nullable_column(bytes, pos, gc),
        12u8 => parse_tuple_column(bytes, pos, gc),
        _ => {
            proof {
                if let Some(c) = gc@ {
                    lemma_tag_variant(&c);
                    assert(false);
                }
            }
            None
        }
    }
}

/// Parse a fixed-width number column; the ghost witness direction
/// mirrors `parse_column`.
#[verifier::loop_isolation(false)]
#[verifier::rlimit(100)]
fn parse_number_column(bytes: &Vec<u8>, pos: usize, gc: Ghost<Option<Column>>) -> (r: Option<
    (Column, usize, usize),
>)
    requires
        pos < bytes@.len(),
        match gc@ {
            Some(c) => codec_wf(&c) && is_enc_at(bytes@, pos as int, enc_col(&c)) && c is Number,
            None => true,
        },
    ensures
        r matches Some(p) ==> pos < p.2 <= bytes@.len() && codec_wf(&p.0) && p.1
            == p.0.vals().len(),
        match gc@ {
            Some(c) => r matches Some(p) && enc_col(&p.0) == enc_col(&c) && p.1 == c.vals().len()
                && p.2 == pos + enc_col(&c).len(),
            None => true,
        },
{
    let total = bytes.len();
    let p0 = pos + 1;
    proof {
        if let Some(c) = gc@ {
            let nc0 = c->Number_0;
            let ws = num_words(&nc0);
            assert(enc_col(&c) =~= seq![3u8, num_tag(&nc0)] + enc_u64(ws.len() as u64)
                + enc_words(ws));
            assert(enc_col(&c) =~= seq![3u8, num_tag(&nc0)] + (enc_u64(ws.len() as u64)
                + enc_words(ws)));
            lemma_split(
                bytes@,
                pos as int,
                seq![3u8, num_tag(&nc0)],
                enc_u64(ws.len() as u64) + enc_words(ws),
            );
            lemma_split(bytes@, pos + 2, enc_u64(ws.len() as u64), enc_words(ws));
            assert(bytes@[p0 as int] == num_tag(&nc0)) by {
                assert(bytes@.subrange(pos as int, pos + 2)[1] == num_tag(&nc0));
            }
            assert(bytes@.subrange(pos + 2, pos + 10) =~= enc_u64(ws.len() as u64));
            lemma_word_at_enc(bytes@, pos + 2, ws.len() as u64);
            lemma_enc_words_len(ws);
            assert forall|i: int| 0 <= i < ws.len() implies #[trigger] word_at(
                bytes@,
                pos + 10 + 8 * i,
            ) == ws[i] by {
                lemma_enc_words_at(ws, i);
                assert(bytes@.subrange(pos + 10 + 8 * i, pos + 10 + 8 * i + 8)
                    =~= enc_words(ws).subrange(8 * i, 8 * i + 8));
                lemma_word_at_enc(bytes@, pos + 10 + 8 * i, ws[i]);
            }
            lemma_num_tag_variant(&nc0);
            match nc0 {
                NumberColumn::UInt8(v0) => assert(v0.len() == v0@.len()),
                NumberColumn::UInt16(v0) => assert(v0.len() == v0@.len()),
                NumberColumn::UInt32(v0) => assert(v0.len() == v0@.len()),
                NumberColumn::UInt64(v0) => assert(v0.len() == v0@.len()),
                NumberColumn::Int8(v0) => assert(v0.len() == v0@.len()),
                NumberColumn::Int16(v0) => assert(v0.len() == v0@.len()),
                NumberColumn::Int32(v0) => assert(v0.len() == v0@.len()),
                NumberColumn::Int64(v0) => assert(v0.len() == v0@.len()),
            }
            assert(ws.len() <= usize::MAX);
        }
    }
    if p0 >= total {
        return None;
    }
    let kind = bytes[p0];
    let (n, p1) = match read_count(bytes, p0 + 1) {
        Some(x) => x,
        None => {
            return None;
        }
    };
    let mut cur = p1;
    let mut i: usize = 0;
    let mut words: Vec<u64> = Vec::new();
    while i < n
        invariant
            i <= n,
            pos < cur <= bytes@.len(),
            cur == p1 + 8 * (i as int),
            words@.len() == i as int,
            forall|j: int|
                0 <= j < i as int ==> #[trigger] words@[j] == word_at(bytes@, p1 + 8 * j),
        decreases n - i,
    {
        let (w, p2) = match read_u64(bytes, cur) {
            Some(x) => x,
            None => {
                return None;
            }
        };
        words.push(w);
        cur = p2;
        i = i + 1;
    }
    proof {
        if let Some(c) = gc@ {
            let ws = num_words(&c->Number_0);
            assert(n == ws.len());
            assert(words@ =~= ws);
        }
    }
    let nc = match kind {
        0u8 => {
            let mut v: Vec<u8> = Vec::new();
            let mut j: usize = 0;
            while j < words.len()
                invariant
                    j <= words@.len(),
                    v@.len() == j as int,
                    match gc@ {
                        Some(c) => forall|k: int|
                            0 <= k < j as int ==> #[trigger] v@[k] as u64 == words@[k],
                        None => true,
                    },
                decreases words@.len() - j,
            {
                #[verifier::truncate]
                let x = words[j] as u8;
                proof {
                    if let Some(c) = gc@ {
                        let ov = c->Number_0->UInt8_0;
                        assert(words@[j as int] == ov@[j as int] as u64);
                        assert(words@[j as int] < 256);
                        assert(x as u64 == words@[j as int]);
                    }
                }
                v.push(x);
                j = j + 1;
            }
            NumberColumn::UInt8(v)
        }
        1u8 => {
            let mut v: Vec<u16> = Vec::new();
            let mut j: usize = 0;
            while j < words.len()
                invariant
                    j <= words@.len(),
                    v@.len() == j as int,
                    match gc@ {
                        Some(c) => forall|k: int|
                            0 <= k < j as int ==> #[trigger] v@[k] as u64 == words@[k],
                        None => true,
                    },
                decreases words@.len() - j,
            {
                #[verifier::truncate]
                let x = words[j] as u16;
                proof {
                    if let Some(c) = gc@ {
                        let ov = c->Number_0->UInt16_0;
                        assert(words@[j as int] == ov@[j as int] as u64);
                        assert(words@[j as int] < 65536);
                        assert(x as u64 == words@[j as int]);
                    }
                }
                v.push(x);
                j = j + 1;
            }
            NumberColumn::UInt16(v)
        }
        2u8 => {
            let mut v: Vec<u32> = Vec::new();
            let mut j: usize = 0;
            while j < words.len()
                invariant
                    j <= words@.len(),
                    v@.len() == j as int,
                    match gc@ {
                        Some(c) => forall|k: int|
                            0 <= k < j as int ==> #[trigger] v@[k] as u64 == words@[k],
                        None => true,
                    },
                decreases words@.len() - j,
            {
                #[verifier::truncate]
                let x = words[j] as u32;
                proof {
                    if let Some(c) = gc@ {
                        let ov = c->Number_0->UInt32_0;
                        assert(words@[j as int] == ov@[j as int] as u64);
                        assert(words@[j as int] < 0x1_0000_0000);
                        assert(x as u64 == words@[j as int]);
                    }
                }
                v.push(x);
                j = j + 1;
            }
            NumberColumn::UInt32(v)
        }
        3u8 => {
            let mut v: Vec<u64> = Vec::new();
            let mut j: usize = 0;
            while j < words.len()
                invariant
                    j <= words@.len(),
                    v@.len() == j as int,
                    forall|k: int| 0 <= k < j as int ==> #[trigger] v@[k] == words@[k],
                decreases words@.len() - j,
            {
                v.push(words[j]);
                j = j + 1;
            }
            NumberColumn::UInt64(v)
        }
        4u8 => {
            let mut v: Vec<i8> = Vec::new();
            let mut j: usize = 0;
            while j < words.len()
                invariant
                    j <= words@.len(),
                    v@.len() == j as int,
                    match gc@ {
                        Some(c) => forall|k: int|
                            0 <= k < j as int ==> #[trigger] v@[k] as u64 == words@[k],
                        None => true,
                    },
                decreases words@.len() - j,
            {
                #[verifier::truncate]
                let x = words[j] as i8;
                proof {
                    if let Some(c) = gc@ {
                        let ov = c->Number_0->Int8_0;
                        assert(words@[j as int] == ov@[j as int] as u64);
                        lemma_trunc_i8(ov@[j as int]);
                        assert(x == ov@[j as int]);
                        assert(x as u64 == words@[j as int]);
                    }
                }
                v.push(x);
                j = j + 1;
            }
            NumberColumn::Int8(v)
        }
        5u8 => {
            let mut v: Vec<i16> = Vec::new();
            let mut j: usize = 0;
            while j < words.len()
                invariant
                    j <= words@.len(),
                    v@.len() == j as int,
                    match gc@ {
                        Some(c) => forall|k: int|
                            0 <= k < j as int ==> #[trigger] v@[k] as u64 == words@[k],
                        None => true,
                    },
                decreases words@.len() - j,
            {
                #[verifier::truncate]
                let x = words[j] as i16;
                proof {
                    if let Some(c) = gc@ {
                        let ov = c->Number_0->Int16_0;
                        assert(words@[j as int] == ov@[j as int] as u64);
                        lemma_trunc_i16(ov@[j as int]);
                        assert(x == ov@[j as int]);
                        assert(x as u64 == words@[j as int]);
                    }
                }
                v.push(x);
                j = j + 1;
            }
            NumberColumn::Int16(v)
        }
        6u8 => {
            let mut v: Vec<i32> = Vec::new();
            let mut j: usize = 0;
            while j < words.len()
                invariant
                    j <= words@.len(),
                    v@.len() == j as int,
                    match gc@ {
                        Some(c) => forall|k: int|
                            0 <= k < j as int ==> #[trigger] v@[k] as u64 == words@[k],
                        None => true,
                    },
                decreases words@.len() - j,
            {
                #[verifier::truncate]
                let x = words[j] as i32;
                proof {
                    if let Some(c) = gc@ {
                        let ov = c->Number_0->Int32_0;
                        assert(words@[j as int] == ov@[j as int] as u64);
                        lemma_trunc_i32(ov@[j as int]);
                        assert(x == ov@[j as int]);
                        assert(x as u64 == words@[j as int]);
                    }
                }
                v.push(x);
                j = j + 1;
            }
            NumberColumn::Int32(v)
        }
        7u8 => {
            let mut v: Vec<i64> = Vec::new();
            let mut j: usize = 0;
            while j < words.len()
                invariant
                    j <= words@.len(),
                    v@.len() == j as int,
                    forall|k: int|
                        0 <= k < j as int ==> #[trigger] v@[k] as u64 == words@[k],
                decreases words@.len() - j,
            {
                #[verifier::truncate]
                let x = words[j] as i64;
                proof {
                    lemma_trunc_u64(words@[j as int]);
                }
                v.push(x);
                j = j + 1;
            }
            NumberColumn::Int64(v)
        }
        _ => {
            return None;
        }
    };
    let rows = nc.len();
    if rows != n {
        return None;
    }
    let c2 = Column::Number(nc);
    proof {
        if let Some(c) = gc@ {
            let nc0 = c->Number_0;
            let ws = num_words(&nc0);
            lemma_num_tag_variant(&c2->Number_0);
            assert(num_words(&c2->Number_0) =~= ws) by {
                assert forall|k: int| 0 <= k < ws.len() implies num_words(
                    &c2->Number_0,
                )[k] == ws[k] by {
                    assert(words@[k] == ws[k]);
                }
            }
            assert(enc_col(&c2) =~= enc_col(&c));
            assert(c.vals().len() == ws.len());
        }
    }
    Some((c2, rows, cur))
}

/// Parse a decimal column; the ghost witness direction mirrors
/// `parse_column`.
#[verifier::loop_isolation(false)]
#[verifier::rlimit(100)]
fn parse_decimal_column(bytes: &Vec<u8>, pos: usize, gc: Ghost<Option<Column>>) -> (r: Option<
    (Column, usize, usize),
>)
    requires
        pos < bytes@.len(),
        match gc@ {
            Some(c) => codec_wf(&c) && is_enc_at(bytes@, pos as int, enc_col(&c)) && c is Decimal,
            None => true,
        },
    ensures
        r matches Some(p) ==> pos < p.2 <= bytes@.len() && codec_wf(&p.0) && p.1
            == p.0.vals().len(),
        match gc@ {
            Some(c) => r matches Some(p) && enc_col(&p.0) == enc_col(&c) && p.1 == c.vals().len()
                && p.2 == pos + enc_col(&c).len(),
            None => true,
        },
{
    let total = bytes.len();
    let p0 = pos + 1;
    proof {
        if let Some(c) = gc@ {
            match c->Decimal_0 {
                DecimalColumn::Decimal128(v0, size) => {
                    assert(v0.len() == v0@.len());
                    assert(enc_col(&c) =~= seq![4u8, 0u8, size.precision, size.scale]
                        + enc_u64(v0@.len() as u64) + enc_i128s(v0@));
                    assert(enc_col(&c) =~= seq![4u8, 0u8, size.precision, size.scale] + (enc_u64(
                        v0@.len() as u64,
                    ) + enc_i128s(v0@)));
                    lemma_split(
                        bytes@,
                        pos as int,
                        seq![4u8, 0u8, size.precision, size.scale],
                        enc_u64(v0@.len() as u64) + enc_i128s(v0@),
                    );
                    lemma_split(
                        bytes@,
                        pos + 4,
                        enc_u64(v0@.len() as u64),
                        enc_i128s(v0@),
                    );
                    assert(bytes@[p0 as int] == 0u8) by {
                        assert(bytes@.subrange(pos as int, pos + 4)[1] == 0u8);
                    }
                    assert(bytes@[p0 + 1] == size.precision) by {
                        assert(bytes@.subrange(pos as int, pos + 4)[2] == size.precision);
                    }
                    assert(bytes@[p0 + 2] == size.scale) by {
                        assert(bytes@.subrange(pos as int, pos + 4)[3] == size.scale);
                    }
                    assert(bytes@.subrange(pos + 4, pos + 12) =~= enc_u64(
                        v0@.len() as u64,
                    ));
                    lemma_word_at_enc(bytes@, pos + 4, v0@.len() as u64);
                    lemma_enc_i128s_len(v0@);
                    assert forall|i: int| 0 <= i < v0@.len() implies #[trigger] wide_at(
                        bytes@,
                        pos + 12 + 16 * i,
                    ) == v0@[i] as u128 by {
                        lemma_enc_i128s_at(v0@, i);
                        assert(bytes@.subrange(
                            pos + 12 + 16 * i,
                            pos + 12 + 16 * i + 16,
                        ) =~= enc_i128s(v0@).subrange(16 * i, 16 * i + 16));
                        lemma_wide_at_enc(bytes@, pos + 12 + 16 * i, v0@[i] as u128);
                    }
                }
                DecimalColumn::Decimal256(v0, size) => {
                    assert(v0.len() == v0@.len());
                    assert(enc_col(&c) =~= seq![4u8, 1u8, size.precision, size.scale]
                        + enc_u64(v0@.len() as u64) + enc_i256s(v0@));
                    assert(enc_col(&c) =~= seq![4u8, 1u8, size.precision, size.scale] + (enc_u64(
                        v0@.len() as u64,
                    ) + enc_i256s(v0@)));
                    lemma_split(
                        bytes@,
                        pos as int,
                        seq![4u8, 1u8, size.precision, size.scale],
                        enc_u64(v0@.len() as u64) + enc_i256s(v0@),
                    );
                    lemma_split(
                        bytes@,
                        pos + 4,
                        enc_u64(v0@.len() as u64),
                        enc_i256s(v0@),
                    );
                    assert(bytes@[p0 as int] == 1u8) by {
                        assert(bytes@.subrange(pos as int, pos + 4)[1] == 1u8);
                    }
                    assert(bytes@[p0 + 1] == size.precision) by {
                        assert(bytes@.subrange(pos as int, pos + 4)[2] == size.precision);
                    }
                    assert(bytes@[p0 + 2] == size.scale) by {
                        assert(bytes@.subrange(pos as int, pos + 4)[3] == size.scale);
                    }
                    assert(bytes@.subrange(pos + 4, pos + 12) =~= enc_u64(
                        v0@.len() as u64,
                    ));
                    lemma_word_at_enc(bytes@, pos + 4, v0@.len() as u64);
                    lemma_enc_i256s_len(v0@);
                    assert forall|i: int| 0 <= i < v0@.len() implies #[trigger] wide_at(
                        bytes@,
                        pos + 12 + 32 * i,
                    ) == v0@[i].hi as u128 && wide_at(bytes@, pos + 12 + 32 * i + 16)
                        == v0@[i].lo by {
                        lemma_enc_i256s_at(v0@, i);
                        assert(bytes@.subrange(
                            pos + 12 + 32 * i,
                            pos + 12 + 32 * i + 16,
                        ) =~= enc_i256s(v0@).subrange(32 * i, 32 * i + 16));
                        lemma_wide_at_enc(bytes@, pos + 12 + 32 * i, v0@[i].hi as u128);
                        assert(bytes@.subrange(
                            pos + 12 + 32 * i + 16,
                            pos + 12 + 32 * i + 32,
                        ) =~= enc_i256s(v0@).subrange(32 * i + 16, 32 * i + 32));
                        lemma_wide_at_enc(bytes@, pos + 12 + 32 * i + 16, v0@[i].lo);
                    }
                }
            }
        }
    }
    if total - p0 < 3 {
        return None;
    }
    let kind = bytes[p0];
    let precision = bytes[p0 + 1];
    let scale = bytes[p0 + 2];
    let (n, p1) = match read_count(bytes, p0 + 3) {
        Some(x) => x,
        None => {
            return None;
        }
    };
    let size = crate::types::DecimalSize { precision, scale };
    match kind {
        0u8 => {
            let mut v: Vec<i128> = Vec::new();
            let mut cur = p1;
            let mut i: usize = 0;
            while i < n
                invariant
                    i <= n,
                    pos < cur <= bytes@.len(),
                    cur == p1 + 16 * (i as int),
                    v@.len() == i as int,
                    forall|j: int|
                        0 <= j < i as int ==> (#[trigger] v@[j]) as u128 == wide_at(
                            bytes@,
                            p1 + 16 * j,
                        ),
                decreases n - i,
            {
                let (w, p2) = match read_u128(bytes, cur) {
                    Some(x) => x,
                    None => {
                        return None;
                    }
                };
                #[verifier::truncate]
                let x = w as i128;
                proof {
                    lemma_trunc_u128(w);
                }
                v.push(x);
                cur = p2;
                i = i + 1;
            }
            let c2 = Column::Decimal(DecimalColumn::Decimal128(v, size));
            proof {
                assert(c2.vals().len() == n);
                if let Some(c) = gc@ {
                    match c->Decimal_0 {
                        DecimalColumn::Decimal128(v0, size0) => {
                            assert forall|j: int| 0 <= j < n implies #[trigger] v@[j]
                                == v0@[j] by {
                                assert(v@[j] as u128 == v0@[j] as u128);
                                lemma_trunc_i128(v0@[j]);
                                lemma_trunc_i128(v@[j]);
                                assert((v@[j] as u128) as i128 == (v0@[j] as u128)
                                    as i128);
                            }
                            assert(c2->Decimal_0->Decimal128_0@ =~= v0@);
                            assert(enc_i128s(c2->Decimal_0->Decimal128_0@) == enc_i128s(
                                v0@,
                            ));
                            assert(enc_col(&c2) =~= enc_col(&c));
                            assert(c.vals().len() == n);
                        }
                        DecimalColumn::Decimal256(_, _) => {
                            assert(false);
                        }
                    }
                }
            }
            Some((c2, n, cur))
        }
        1u8 => {
            let mut v: Vec<I256> = Vec::new();
            let mut cur = p1;
            let mut i: usize = 0;
            while i < n
                invariant
                    i <= n,
                    pos < cur <= bytes@.len(),
                    cur == p1 + 32 * (i as int),
                    v@.len() == i as int,
                    forall|j: int|
                        0 <= j < i as int ==> (#[trigger] v@[j]).hi as u128 == wide_at(
                            bytes@,
                            p1 + 32 * j,
                        ) && v@[j].lo == wide_at(bytes@, p1 + 32 * j + 16),
                decreases n - i,
            {
                let (hi_w, p2) = match read_u128(bytes, cur) {
                    Some(x) => x,
                    None => {
                        return None;
                    }
                };
                let (lo, p3) = match read_u128(bytes, p2) {
                    Some(x) => x,
                    None => {
                        return None;
                    }
                };
                #[verifier::truncate]
                let hi = hi_w as i128;
                proof {
                    lemma_trunc_u128(hi_w);
                }
                v.push(I256 { hi, lo });
                cur = p3;
                i = i + 1;
            }
            let c2 = Column::Decimal(DecimalColumn::Decimal256(v, size));
            proof {
                assert(c2.vals().len() == n);
                if let Some(c) = gc@ {
                    match c->Decimal_0 {
                        DecimalColumn::Decimal256(v0, size0) => {
                            assert forall|j: int| 0 <= j < n implies #[trigger] v@[j]
                                == v0@[j] by {
                                assert(v@[j].hi as u128 == v0@[j].hi as u128);
                                lemma_trunc_i128(v0@[j].hi);
                                lemma_trunc_i128(v@[j].hi);
                                assert((v@[j].hi as u128) as i128 == (v0@[j].hi as u128)
                                    as i128);
                                assert(v@[j].lo == v0@[j].lo);
                            }
                            assert(c2->Decimal_0->Decimal256_0@ =~= v0@);
                            assert(enc_i256s(c2->Decimal_0->Decimal256_0@) == enc_i256s(
                                v0@,
                            ));
                            assert(enc_col(&c2) =~= enc_col(&c));
                            assert(c.vals().len() == n);
                        }
                        DecimalColumn::Decimal128(_, _) => {
                            assert(false);
                        }
                    }
                }
            }
            Some((c2, n, cur))
        }
        _ => {
            proof {
                if let Some(c) = gc@ {
                    match c->Decimal_0 {
                        DecimalColumn::Decimal128(_, _) => {
                            assert(false);
                        }
                        DecimalColumn::Decimal256(_, _) => {
                            assert(false);
                        }
                    }
                }
            }
            None
        }
    }
}

/// Parse an array column: the flattened values, then the row offsets;
/// the ghost witness direction mirrors `parse_column`.
#[verifier::loop_isolation(false)]
#[verifier::rlimit(100)]
fn parse_array_column(bytes: &Vec<u8>, pos: usize, gc: Ghost<Option<Column>>) -> (r: Option<
    (Column, usize, usize),
>)
    requires
        pos < bytes@.len(),
        match gc@ {
            Some(c) => codec_wf(&c) && is_enc_at(bytes@, pos as int, enc_col(&c)) && c is Array,
            None => true,
        },
    ensures
        r matches Some(p) ==> pos < p.2 <= bytes@.len() && codec_wf(&p.0) && p.1
            == p.0.vals().len(),
        match gc@ {
            Some(c) => r matches Some(p) && enc_col(&p.0) == enc_col(&c) && p.1 == c.vals().len()
                && p.2 == pos + enc_col(&c).len(),
            None => true,
        },
    decreases bytes@.len() - pos, 0int,
{
    proof {
        assert(bytes.len() == bytes@.len());
    }
    let p0 = pos + 1;
    proof {
        if let Some(c) = gc@ {
            let ac = c->Array_0;
            let tail = enc_u64(ac.offsets@.len() as u64) + enc_words(
                usize_words(ac.offsets@),
            );
            assert(enc_col(&c) =~= seq![9u8] + enc_col(&ac.values) + tail);
            assert(enc_col(&c) =~= seq![9u8] + (enc_col(&ac.values) + tail));
            lemma_split(bytes@, pos as int, seq![9u8], enc_col(&ac.values) + tail);
            lemma_split(bytes@, p0 as int, enc_col(&ac.values), tail);
        }
    }
    let ghost gv: Option<Column> = match gc@ {
        Some(c) => Some(c->Array_0.values),
        None => None,
    };
    let (values, vrows, p1) = match parse_column(bytes, p0, Ghost(gv)) {
        Some(x) => x,
        None => {
            return None;
        }
    };
    proof {
        if let Some(c) = gc@ {
            let ac = c->Array_0;
            assert(ac.offsets.len() == ac.offsets@.len());
            let ws = usize_words(ac.offsets@);
            lemma_split(
                bytes@,
                p0 + enc_col(&ac.values).len(),
                enc_u64(ac.offsets@.len() as u64),
                enc_words(ws),
            );
            assert(bytes@.subrange(p1 as int, p1 + 8) =~= enc_u64(
                ac.offsets@.len() as u64,
            ));
            lemma_word_at_enc(bytes@, p1 as int, ac.offsets@.len() as u64);
            lemma_enc_words_len(ws);
            assert forall|i: int| 0 <= i < ws.len() implies #[trigger] word_at(
                bytes@,
                p1 + 8 + 8 * i,
            ) == ws[i] by {
                lemma_enc_words_at(ws, i);
                assert(bytes@.subrange(p1 + 8 + 8 * i, p1 + 8 + 8 * i + 8) =~= enc_words(
                    ws,
                ).subrange(8 * i, 8 * i + 8));
                lemma_word_at_enc(bytes@, p1 + 8 + 8 * i, ws[i]);
            }
        }
    }
    let (olen, p2) = match read_count(bytes, p1) {
        Some(x) => x,
        None => {
            return None;
        }
    };
    let (offsets, p3) = match read_usizes(bytes, p2, olen) {
        Some(x) => x,
        None => {
            return None;
        }
    };
    proof {
        if let Some(c) = gc@ {
            let ac = c->Array_0;
            assert(olen == ac.offsets@.len());
            assert forall|i: int| 0 <= i < olen implies #[trigger] offsets@[i]
                == ac.offsets@[i] by {
                assert(offsets@[i] as u64 == word_at(bytes@, p2 + 8 * i));
                assert(usize_words(ac.offsets@)[i] == ac.offsets@[i] as u64);
            }
            assert(offsets@ =~= ac.offsets@);
        }
    }
    if !check_offsets(&offsets, vrows) {
        return None;
    }
    let rows = offsets.len() - 1;
    let ac2 = crate::column::ArrayColumn { values, offsets };
    let c2 = Column::Array(Box::new(ac2));
    proof {
        assert(c2.vals().len() == rows);
        if let Some(c) = gc@ {
            assert(enc_col(&c2) =~= enc_col(&c));
            assert(c.vals().len() == rows);
        }
    }
    Some((c2, rows, p3))
}

/// Parse a map column: a two-field tuple of keys and values, then the
/// row offsets; the ghost witness direction mirrors `parse_column`.
#[verifier::loop_isolation(false)]
#[verifier::rlimit(100)]
fn parse_kvmap_column(bytes: &Vec<u8>, pos: usize, gc: Ghost<Option<Column>>) -> (r: Option<
    (Column, usize, usize),
>)
    requires
        pos < bytes@.len(),
        match gc@ {
            Some(c) => codec_wf(&c) && is_enc_at(bytes@, pos as int, enc_col(&c)) && c is KvMap,
            None => true,
        },
    ensures
        r matches Some(p) ==> pos < p.2 <= bytes@.len() && codec_wf(&p.0) && p.1
            == p.0.vals().len(),
        match gc@ {
            Some(c) => r matches Some(p) && enc_col(&p.0) == enc_col(&c) && p.1 == c.vals().len()
                && p.2 == pos + enc_col(&c).len(),
            None => true,
        },
    decreases bytes@.len() - pos, 0int,
{
    proof {
        assert(bytes.len() == bytes@.len());
    }
    let p0 = pos + 1;
    proof {
        if let Some(c) = gc@ {
            let ac = c->KvMap_0;
            let tail = enc_u64(ac.offsets@.len() as u64) + enc_words(
                usize_words(ac.offsets@),
            );
            assert(enc_col(&c) =~= seq![10u8] + (enc_col(&ac.values) + tail));
            lemma_split(bytes@, pos as int, seq![10u8], enc_col(&ac.values) + tail);
            lemma_split(bytes@, p0 as int, enc_col(&ac.values), tail);
        }
    }
    let ghost gv: Option<Column> = match gc@ {
        Some(c) => Some(c->KvMap_0.values),
        None => None,
    };
    let (values, vrows, p1) = match parse_column(bytes, p0, Ghost(gv)) {
        Some(x) => x,
        None => {
            return None;
        }
    };
    proof {
        if let Some(c) = gc@ {
            let cv = c->KvMap_0.values;
            lemma_enc_tag(&values);
            lemma_enc_tag(&cv);
            lemma_tag_variant(&values);
            lemma_tag_variant(&cv);
            assert(values is Tuple);
            lemma_tuple_nfields(&values, &cv);
            crate::column::lemma_cols_typs(cv->Tuple_fields@);
            cv.lemma_typ_variant();
            assert(values->Tuple_fields@.len() == 2);
        }
    }
    match &values {
        Column::Tuple { fields, .. } => {
            if fields.len() != 2 {
                return None;
            }
        }
        _ => {
            return None;
        }
    }
    proof {
        if let Some(c) = gc@ {
            let ac = c->KvMap_0;
            assert(ac.offsets.len() == ac.offsets@.len());
            let ws = usize_words(ac.offsets@);
            lemma_split(
                bytes@,
                p0 + enc_col(&ac.values).len(),
                enc_u64(ac.offsets@.len() as u64),
                enc_words(ws),
            );
            assert(bytes@.subrange(p1 as int, p1 + 8) =~= enc_u64(
                ac.offsets@.len() as u64,
            ));
            lemma_word_at_enc(bytes@, p1 as int, ac.offsets@.len() as u64);
            lemma_enc_words_len(ws);
            assert forall|i: int| 0 <= i < ws.len() implies #[trigger] word_at(
                bytes@,
                p1 + 8 + 8 * i,
            ) == ws[i] by {
                lemma_enc_words_at(ws, i);
                assert(bytes@.subrange(p1 + 8 + 8 * i, p1 + 8 + 8 * i + 8) =~= enc_words(
                    ws,
                ).subrange(8 * i, 8 * i + 8));
                lemma_word_at_enc(bytes@, p1 + 8 + 8 * i, ws[i]);
            }
        }
    }
    let (olen, p2) = match read_count(bytes, p1) {
        Some(x) => x,
        None => {
            return None;
        }
    };
    let (offsets, p3) = match read_usizes(bytes, p2, olen) {
        Some(x) => x,
        None => {
            return None;
        }
    };
    proof {
        if let Some(c) = gc@ {
            let ac = c->KvMap_0;
            assert(olen == ac.offsets@.len());
            assert forall|i: int| 0 <= i < olen implies #[trigger] offsets@[i]
                == ac.offsets@[i] by {
                assert(offsets@[i] as u64 == word_at(bytes@, p2 + 8 * i));
                assert(usize_words(ac.offsets@)[i] == ac.offsets@[i] as u64);
            }
            assert(offsets@ =~= ac.offsets@);
        }
    }
    if !check_offsets(&offsets, vrows) {
        return None;
    }
    let rows = offsets.len() - 1;
    proof {
        crate::column::lemma_cols_typs(values->Tuple_fields@);
        values.lemma_typ_variant();
    }
    let ac2 = crate::column::ArrayColumn { values, offsets };
    let c2 = Column::KvMap(Box::new(ac2));
    proof {
        assert(c2.vals().len() == rows);
        if let Some(c) = gc@ {
            assert(enc_col(&c2) =~= enc_col(&c));
            assert(c.vals().len() == rows);
        }
    }
    Some((c2, rows, p3))
}

/// Parse a nullable column: the inner column, then the validity flags;
/// the ghost witness direction mirrors `parse_column`.
#[verifier::loop_isolation(false)]
#[verifier::rlimit(100)]
fn parse_nullable_column(bytes: &Vec<u8>, pos: usize, gc: Ghost<Option<Column>>) -> (r: Option<
    (Column, usize, usize),
>)
    requires
        pos < bytes@.len(),
        match gc@ {
            Some(c) => codec_wf(&c) && is_enc_at(bytes@, pos as int, enc_col(&c)) && c is Nullable,
            None => true,
        },
    ensures
        r matches Some(p) ==> pos < p.2 <= bytes@.len() && codec_wf(&p.0) && p.1
            == p.0.vals().len(),
        match gc@ {
            Some(c) => r matches Some(p) && enc_col(&p.0) == enc_col(&c) && p.1 == c.vals().len()
                && p.2 == pos + enc_col(&c).len(),
            None => true,
        },
    decreases bytes@.len() - pos, 0int,
{
    proof {
        assert(bytes.len() == bytes@.len());
    }
    let p0 = pos + 1;
    proof {
        if let Some(c) = gc@ {
            let nc = c->Nullable_0;
            assert(nc.validity.len() == nc.validity@.len());
            let tail = enc_u64(nc.validity@.len() as u64) + enc_bools(nc.validity@);
            assert(enc_col(&c) =~= seq![11u8] + (enc_col(&nc.column) + tail));
            lemma_split(bytes@, pos as int, seq![11u8], enc_col(&nc.column) + tail);
            lemma_split(bytes@, p0 as int, enc_col(&nc.column), tail);
        }
    }
    let ghost gv: Option<Column> = match gc@ {
        Some(c) => Some(c->Nullable_0.column),
        None => None,
    };
    let (inner, irows, p1) = match parse_column(bytes, p0, Ghost(gv)) {
        Some(x) => x,
        None => {
            return None;
        }
    };
    proof {
        if let Some(c) = gc@ {
            let ci = c->Nullable_0.column;
            lemma_enc_tag(&inner);
            lemma_enc_tag(&ci);
            lemma_tag_variant(&inner);
            lemma_tag_variant(&ci);
            assert(!(inner is Null));
            assert(!(inner is Nullable));
        }
    }
    match &inner {
        Column::Null { .. } => {
            return None;
        }
        Column::Nullable(_) => {
            return None;
        }
        _ => {}
    }
    proof {
        if let Some(c) = gc@ {
            let nc = c->Nullable_0;
            lemma_split(
                bytes@,
                p0 + enc_col(&nc.column).len(),
                enc_u64(nc.validity@.len() as u64),
                enc_bools(nc.validity@),
            );
            assert(bytes@.subrange(p1 as int, p1 + 8) =~= enc_u64(
                nc.validity@.len() as u64,
            ));
            lemma_word_at_enc(bytes@, p1 as int, nc.validity@.len() as u64);
        }
    }
    let (n, p2) = match read_count(bytes, p1) {
        Some(x) => x,
        None => {
            return None;
        }
    };
    if n != irows {
        return None;
    }
    let (flags, p3) = match read_bools(bytes, p2, n) {
        Some(x) => x,
        None => {
            return None;
        }
    };
    let nc2 = crate::column::NullableColumn { column: inner, validity: flags };
    let c2 = Column::Nullable(Box::new(nc2));
    proof {
        assert(c2.vals().len() == n);
        if let Some(c) = gc@ {
            let nc = c->Nullable_0;
            assert forall|i: int| 0 <= i < n implies #[trigger] c2->Nullable_0.validity@[i]
                == nc.validity@[i] by {
                assert(bytes@[p2 + i] == enc_bools(nc.validity@)[i]) by {
                    assert(bytes@.subrange(p2 as int, p2 + nc.validity@.len())[i]
                        == enc_bools(nc.validity@)[i]);
                }
            }
            assert(c2->Nullable_0.validity@ =~= nc.validity@);
            assert(enc_col(&c2) =~= enc_col(&c));
            assert(c.vals().len() == n);
        }
    }
    Some((c2, n, p3))
}

/// Parse a tuple column: the shared row count, then each field column;
/// the ghost witness direction mirrors `parse_column`.
#[verifier::loop_isolation(false)]
#[verifier::rlimit(100)]
fn parse_tuple_column(bytes: &Vec<u8>, pos: usize, gc: Ghost<Option<Column>>) -> (r: Option<
    (Column, usize, usize),
>)
    requires
        pos < bytes@.len(),
        match gc@ {
            Some(c) => codec_wf(&c) && is_enc_at(bytes@, pos as int, enc_col(&c)) && c is Tuple,
            None => true,
        },
    ensures
        r matches Some(p) ==> pos < p.2 <= bytes@.len() && codec_wf(&p.0) && p.1
            == p.0.vals().len(),
        match gc@ {
            Some(c) => r matches Some(p) && enc_col(&p.0) == enc_col(&c) && p.1 == c.vals().len()
                && p.2 == pos + enc_col(&c).len(),
            None => true,
        },
    decreases bytes@.len() - pos, 0int,
{
    proof {
        assert(bytes.len() == bytes@.len());
    }
    let p0 = pos + 1;
    proof {
        if let Some(c) = gc@ {
            assert(c->Tuple_fields.len() == c->Tuple_fields@.len());
            let gf = c->Tuple_fields@;
            let glen = c->Tuple_len;
            assert(enc_col(&c) =~= seq![12u8] + enc_u64(glen as u64) + (enc_u64(
                gf.len() as u64,
            ) + enc_cols(gf)));
            lemma_split(
                bytes@,
                pos as int,
                seq![12u8] + enc_u64(glen as u64),
                enc_u64(gf.len() as u64) + enc_cols(gf),
            );
            lemma_split(
                bytes@,
                pos + 9,
                enc_u64(gf.len() as u64),
                enc_cols(gf),
            );
            assert((seq![12u8] + enc_u64(glen as u64)).subrange(1, 9) =~= enc_u64(
                glen as u64,
            ));
            assert forall|i: int| 0 <= i < 8 implies #[trigger] bytes@.subrange(
                p0 as int,
                p0 + 8,
            )[i] == enc_u64(glen as u64)[i] by {
                assert(bytes@.subrange(pos as int, pos + 9)[1 + i] == (seq![12u8]
                    + enc_u64(glen as u64))[1 + i]);
            }
            assert(bytes@.subrange(p0 as int, p0 + 8) =~= enc_u64(glen as u64));
            lemma_word_at_enc(bytes@, p0 as int, glen as u64);
            assert(bytes@.subrange(pos + 9, pos + 17) =~= enc_u64(gf.len() as u64));
            lemma_word_at_enc(bytes@, pos + 9, gf.len() as u64);
            lemma_cols_codec_wf(gf, glen as nat);
        }
    }
    let (len, p1) = match read_count(bytes, p0) {
        Some(x) => x,
        None => {
            return None;
        }
    };
    let (nfields, p2) = match read_count(bytes, p1) {
        Some(x) => x,
        None => {
            return None;
        }
    };
    proof {
        if let Some(c) = gc@ {
            assert(c->Tuple_fields@.skip(0) =~= c->Tuple_fields@);
        }
    }
    let mut fields: Vec<Column> = Vec::new();
    let mut cur = p2;
    let mut i: usize = 0;
    while i < nfields
        invariant
            i <= nfields,
            pos < cur <= bytes@.len(),
            fields@.len() == i as int,
            forall|k: int| 0 <= k < i as int ==> #[trigger] codec_wf(&fields@[k]),
            forall|k: int|
                0 <= k < i as int ==> #[trigger] fields@[k].vals().len() == len as nat,
            match gc@ {
                Some(c) => {
                    &&& nfields == c->Tuple_fields@.len()
                    &&& len == c->Tuple_len
                    &&& is_enc_at(
                        bytes@,
                        cur as int,
                        enc_cols(c->Tuple_fields@.skip(i as int)),
                    )
                    &&& cur as int + enc_cols(c->Tuple_fields@.skip(i as int)).len() == p2
                        + enc_cols(c->Tuple_fields@).len()
                    &&& forall|k: int|
                        0 <= k < i as int ==> #[trigger] enc_col(&fields@[k]) == enc_col(
                            &c->Tuple_fields@[k],
                        )
                },
                None => true,
            },
        decreases nfields - i,
    {
        let ghost gfe: Option<Column> = match gc@ {
            Some(c) => Some(c->Tuple_fields@[i as int]),
            None => None,
        };
        proof {
            if let Some(c) = gc@ {
                let rem = c->Tuple_fields@.skip(i as int);
                lemma_enc_cols_head(rem);
                assert(rem[0] == c->Tuple_fields@[i as int]);
                lemma_split(
                    bytes@,
                    cur as int,
                    enc_col(&rem[0]),
                    enc_cols(rem.skip(1)),
                );
                assert(rem.skip(1) =~= c->Tuple_fields@.skip(i + 1));
            }
        }
        let (f, frows, p3) = match parse_column(bytes, cur, Ghost(gfe)) {
            Some(x) => x,
            None => {
                return None;
            }
        };
        if frows != len {
            return None;
        }
        fields.push(f);
        cur = p3;
        i = i + 1;
    }
    let c2 = Column::Tuple { fields, len };
    proof {
        lemma_cols_codec_wf_intro(c2->Tuple_fields@, len as nat);
        assert(c2.vals().len() == len);
        if let Some(c) = gc@ {
            assert(c->Tuple_fields@.skip(nfields as int).len() == 0);
            assert(enc_cols(c->Tuple_fields@.skip(nfields as int)) =~= Seq::<
                u8,
            >::empty());
            lemma_enc_cols_eq(c2->Tuple_fields@, c->Tuple_fields@);
            assert(enc_col(&c2) =~= enc_col(&c));
            assert(c.vals().len() == len);
        }
    }
    Some((c2, len, cur))
}

} // verus!
