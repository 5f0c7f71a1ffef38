//! End-to-end tests of the columnar value model: builders, columns,
//! slicing, ordering, aggregation and the kernel value union.

use columnar_values::data_array_aggregate_op;
use columnar_values::AggregateError;
use columnar_values::Column;
use columnar_values::ColumnBuilder;
use columnar_values::DataType;
use columnar_values::DataValueAggregateOperator;
use columnar_values::NumberDataType;
use columnar_values::NumberScalar;
use columnar_values::Scalar;
use columnar_values::ScalarRef;
use columnar_values::BooleanDomain;
use columnar_values::ExtArray;
use columnar_values::ExtMarker;
use columnar_values::TimeUnit;
use columnar_values::Domain;
use columnar_values::NumberDomain;
use columnar_values::Value;
use columnar_values::ValueRef;

fn int32_column(values: &[i32]) -> Column {
    let mut b = ColumnBuilder::with_capacity(&DataType::Number(NumberDataType::Int32), values.len());
    for v in values {
        b.push(ScalarRef::Number(NumberScalar::Int32(*v)));
    }
    b.build()
}

fn string_column(values: &[&str]) -> Column {
    let mut b = ColumnBuilder::with_capacity(&DataType::String, values.len());
    for v in values {
        b.push(ScalarRef::String(v.as_bytes().to_vec()));
    }
    b.build()
}

#[test]
fn builder_law_int32() {
    let c = int32_column(&[1, 2, 3]);
    assert_eq!(c.len(), 3);
    for (i, expect) in [1i32, 2, 3].iter().enumerate() {
        match c.index(i) {
            Some(ScalarRef::Number(NumberScalar::Int32(v))) => assert_eq!(v, *expect),
            other => panic!("unexpected row: {:?}", other),
        }
    }
    assert!(c.index(3).is_none());
}

#[test]
fn scenario_int32_min_max_sum() {
    let c = int32_column(&[1, 2, 3]);
    let min = data_array_aggregate_op(DataValueAggregateOperator::Min, &c).unwrap();
    let max = data_array_aggregate_op(DataValueAggregateOperator::Max, &c).unwrap();
    let sum = data_array_aggregate_op(DataValueAggregateOperator::Sum, &c).unwrap();
    assert!(matches!(min, Scalar::Number(NumberScalar::Int32(1))));
    assert!(matches!(max, Scalar::Number(NumberScalar::Int32(3))));
    assert!(matches!(sum, Scalar::Number(NumberScalar::Int32(6))));
    match c.index(1) {
        Some(ScalarRef::Number(NumberScalar::Int32(v))) => assert_eq!(v, 2),
        other => panic!("unexpected row: {:?}", other),
    }
    match c.domain() {
        Domain::Number(NumberDomain::Int32(sd)) => {
            assert_eq!(sd.min, 1);
            assert_eq!(sd.max, 3);
        }
        other => panic!("unexpected domain: {:?}", other),
    }
}

#[test]
fn scenario_nullable_string() {
    let ty = DataType::Nullable(Box::new(DataType::String));
    let mut b = ColumnBuilder::with_capacity(&ty, 3);
    b.push(ScalarRef::String(b"a".to_vec()));
    b.push(ScalarRef::Null);
    b.push(ScalarRef::String(b"b".to_vec()));
    let c = b.build();
    assert_eq!(c.len(), 3);
    let (all_null, validity) = c.validity();
    assert!(!all_null);
    assert_eq!(validity.unwrap().as_slice(), &[true, false, true]);
    assert!(matches!(c.index(1), Some(ScalarRef::Null)));
    match c.index(0) {
        Some(ScalarRef::String(s)) => assert_eq!(s, b"a".to_vec()),
        other => panic!("unexpected row: {:?}", other),
    }
    match c.domain() {
        Domain::Nullable(nd) => {
            assert!(nd.has_null);
            match *nd.value.unwrap() {
                Domain::String(sd) => {
                    // The inner summary covers the valid rows only; the
                    // masked row's stored default does not leak into it.
                    assert_eq!(sd.min, b"a".to_vec());
                    assert_eq!(sd.max, Some(b"b".to_vec()));
                }
                other => panic!("unexpected inner domain: {:?}", other),
            }
        }
        other => panic!("unexpected domain: {:?}", other),
    }
}

#[test]
fn all_masked_nullable_domain_has_no_inner() {
    let ty = DataType::Nullable(Box::new(DataType::Number(NumberDataType::Int32)));
    let mut b = ColumnBuilder::with_capacity(&ty, 2);
    b.push(ScalarRef::Null);
    b.push(ScalarRef::Null);
    let c = b.build();
    match c.domain() {
        Domain::Nullable(nd) => {
            assert!(nd.has_null);
            assert!(nd.value.is_none());
        }
        other => panic!("unexpected domain: {:?}", other),
    }
}

#[test]
fn empty_map_column_domain() {
    let mut b = ColumnBuilder::with_capacity(&DataType::EmptyMap, 1);
    b.push(ScalarRef::EmptyMap);
    let c = b.build();
    assert!(matches!(c.domain(), Domain::KvMap(None)));
}

#[test]
fn scenario_empty_slice_keeps_type() {
    let c = string_column(&["x", "y"]);
    let s = c.slice(1..1);
    assert_eq!(s.len(), 0);
    assert!(matches!(s.data_type(), DataType::String));

    let c2 = int32_column(&[5]);
    let s2 = c2.slice(1..1);
    assert_eq!(s2.len(), 0);
    assert!(matches!(
        s2.data_type(),
        DataType::Number(NumberDataType::Int32)
    ));
}

#[test]
fn scenario_array_offsets() {
    let ty = DataType::Array(Box::new(DataType::Number(NumberDataType::Int32)));
    let mut b = ColumnBuilder::with_capacity(&ty, 2);
    b.push(ScalarRef::Array(int32_column(&[1, 2])));
    b.push(ScalarRef::Array(int32_column(&[3])));
    let c = b.build();
    assert_eq!(c.len(), 2);
    match &c {
        Column::Array(ac) => {
            assert_eq!(ac.offsets.as_slice(), &[0usize, 2, 3]);
            assert_eq!(ac.values.len(), 3);
        }
        other => panic!("unexpected column: {:?}", other),
    }
    match c.index(0) {
        Some(ScalarRef::Array(row)) => assert_eq!(row.len(), 2),
        other => panic!("unexpected row: {:?}", other),
    }
    match c.domain() {
        Domain::Array(Some(inner)) => match *inner {
            Domain::Number(NumberDomain::Int32(sd)) => {
                assert_eq!(sd.min, 1);
                assert_eq!(sd.max, 3);
            }
            other => panic!("unexpected inner domain: {:?}", other),
        },
        other => panic!("unexpected domain: {:?}", other),
    }
}

#[test]
fn slice_composition() {
    let c = int32_column(&[10, 20, 30, 40, 50]);
    let once = c.slice(1..4).slice(1..3);
    let direct = c.slice(2..4);
    assert!(once.eq(&direct));
    assert_eq!(once.len(), 2);
    match once.index(0) {
        Some(ScalarRef::Number(NumberScalar::Int32(v))) => assert_eq!(v, 30),
        other => panic!("unexpected row: {:?}", other),
    }
}

#[test]
fn cross_variant_ordering_is_none() {
    let a = Scalar::Number(NumberScalar::Int32(1));
    let b = Scalar::String(b"1".to_vec());
    assert!(a.partial_cmp(&b).is_none());
    assert!(!a.eq(&b));
    let c = Scalar::Boolean(true);
    assert!(b.partial_cmp(&c).is_none());
    assert!(!b.eq(&c));
}

#[test]
fn variant_scalars_compare_by_json_value() {
    // Two encodings of the same JSON number: an integer and a float. The
    // bytes differ, the JSON values are equal, so the comparison is equal
    // while raw byte equality is not.
    let a: Vec<u8> = columnar_values::ord::parse_jsonb_text("1").unwrap();
    let b: Vec<u8> = columnar_values::ord::parse_jsonb_text("1.0").unwrap();
    assert_ne!(a, b);
    let sa = Scalar::Variant(a);
    let sb = Scalar::Variant(b);
    assert_eq!(sa.partial_cmp(&sb), Some(std::cmp::Ordering::Equal));
    assert!(sa.eq(&sb));
}

#[test]
fn nullable_push_null_masks_default() {
    let ty = DataType::Nullable(Box::new(DataType::Number(NumberDataType::Int32)));
    let mut b = ColumnBuilder::with_capacity(&ty, 2);
    b.push(ScalarRef::Null);
    b.push(ScalarRef::Number(NumberScalar::Int32(7)));
    let c = b.build();
    assert!(matches!(c.index(0), Some(ScalarRef::Null)));
    assert!(matches!(
        c.index(1),
        Some(ScalarRef::Number(NumberScalar::Int32(7)))
    ));
}

#[test]
fn append_column_concatenates() {
    let left = int32_column(&[1, 2]);
    let right = int32_column(&[3, 4, 5]);
    let mut b = ColumnBuilder::from_column(left);
    b.append_column(&right);
    let c = b.build();
    assert!(c.eq(&int32_column(&[1, 2, 3, 4, 5])));
}

#[test]
fn repeat_builds_constant_column() {
    let s = ScalarRef::Number(NumberScalar::Int32(9));
    let b = ColumnBuilder::repeat(&s, 4, &DataType::Number(NumberDataType::Int32));
    let c = b.build();
    assert!(c.eq(&int32_column(&[9, 9, 9, 9])));
}

#[test]
fn build_scalar_single_row() {
    let mut b = ColumnBuilder::with_capacity(&DataType::String, 1);
    b.push(ScalarRef::String(b"solo".to_vec()));
    let s = b.build_scalar();
    match s {
        Scalar::String(bytes) => assert_eq!(bytes, b"solo".to_vec()),
        other => panic!("unexpected scalar: {:?}", other),
    }

    let ty = DataType::Nullable(Box::new(DataType::Boolean));
    let mut nb = ColumnBuilder::with_capacity(&ty, 1);
    nb.push(ScalarRef::Null);
    assert!(matches!(nb.build_scalar(), Scalar::Null));
}

#[test]
fn push_default_values() {
    let mut b = ColumnBuilder::with_capacity(&DataType::Number(NumberDataType::Int32), 1);
    b.push_default();
    let c = b.build();
    assert!(matches!(
        c.index(0),
        Some(ScalarRef::Number(NumberScalar::Int32(0)))
    ));

    let mut sb = ColumnBuilder::with_capacity(&DataType::String, 1);
    sb.push_default();
    match sb.build().index(0) {
        Some(ScalarRef::String(s)) => assert!(s.is_empty()),
        other => panic!("unexpected row: {:?}", other),
    }
}

#[test]
fn string_aggregates() {
    let c = string_column(&["pear", "apple", "quince"]);
    let min = data_array_aggregate_op(DataValueAggregateOperator::Min, &c).unwrap();
    let max = data_array_aggregate_op(DataValueAggregateOperator::Max, &c).unwrap();
    match min {
        Scalar::String(s) => assert_eq!(s, b"apple".to_vec()),
        other => panic!("unexpected: {:?}", other),
    }
    match max {
        Scalar::String(s) => assert_eq!(s, b"quince".to_vec()),
        other => panic!("unexpected: {:?}", other),
    }
    assert!(matches!(
        data_array_aggregate_op(DataValueAggregateOperator::Sum, &c),
        Err(AggregateError::Unsupported)
    ));
}

#[test]
fn aggregate_empty_and_unsupported() {
    let empty = int32_column(&[]);
    assert!(matches!(
        data_array_aggregate_op(DataValueAggregateOperator::Min, &empty),
        Ok(Scalar::Null)
    ));
    let mut b = ColumnBuilder::with_capacity(&DataType::Boolean, 1);
    b.push(ScalarRef::Boolean(true));
    let booleans = b.build();
    assert!(matches!(
        data_array_aggregate_op(DataValueAggregateOperator::Min, &booleans),
        Err(AggregateError::Unsupported)
    ));
}

#[test]
fn aggregate_sum_overflow() {
    let ty = DataType::Number(NumberDataType::UInt8);
    let mut b = ColumnBuilder::with_capacity(&ty, 2);
    b.push(ScalarRef::Number(NumberScalar::UInt8(200)));
    b.push(ScalarRef::Number(NumberScalar::UInt8(100)));
    let c = b.build();
    assert!(matches!(
        data_array_aggregate_op(DataValueAggregateOperator::Sum, &c),
        Err(AggregateError::Overflow)
    ));
}

#[test]
fn value_ref_broadcast() {
    let v = ValueRef::Scalar(ScalarRef::Number(NumberScalar::Int32(5)));
    assert_eq!(v.len(), 1);
    assert!(matches!(
        v.index(17),
        Some(ScalarRef::Number(NumberScalar::Int32(5)))
    ));

    let col = ValueRef::Column(int32_column(&[5, 5, 5]));
    assert_eq!(col.len(), 3);
    assert!(v.semantically_eq(&col));
    assert!(col.semantically_eq(&v));

    let other = ValueRef::Column(int32_column(&[5, 6]));
    assert!(!v.semantically_eq(&other));
}

#[test]
fn value_round_trip() {
    let v = Value::Scalar(Scalar::String(b"abc".to_vec()));
    let r = v.as_ref();
    match r.to_owned() {
        Value::Scalar(Scalar::String(s)) => assert_eq!(s, b"abc".to_vec()),
        other => panic!("unexpected: {:?}", other),
    }
}

#[test]
fn convert_to_full_column_repeats() {
    let v = Value::Scalar(Scalar::Number(NumberScalar::Int32(2)));
    let c = v.convert_to_full_column(&DataType::Number(NumberDataType::Int32), 3);
    assert!(c.eq(&int32_column(&[2, 2, 2])));
}

#[test]
fn remove_and_wrap_nullable() {
    let c = int32_column(&[1, 2]);
    let wrapped = c.wrap_nullable();
    assert!(matches!(wrapped.data_type(), DataType::Nullable(_)));
    assert!(matches!(
        wrapped.index(0),
        Some(ScalarRef::Number(NumberScalar::Int32(1)))
    ));
    let unwrapped = wrapped.remove_nullable();
    assert!(unwrapped.eq(&int32_column(&[1, 2])));
}

#[test]
fn tuple_columns_round_trip() {
    let ty = DataType::Tuple(vec![
        DataType::Number(NumberDataType::Int32),
        DataType::Boolean,
    ]);
    let mut b = ColumnBuilder::with_capacity(&ty, 2);
    b.push(ScalarRef::Tuple(vec![
        ScalarRef::Number(NumberScalar::Int32(1)),
        ScalarRef::Boolean(true),
    ]));
    b.push(ScalarRef::Tuple(vec![
        ScalarRef::Number(NumberScalar::Int32(2)),
        ScalarRef::Boolean(false),
    ]));
    let c = b.build();
    assert_eq!(c.len(), 2);
    match c.index(1) {
        Some(ScalarRef::Tuple(fields)) => {
            assert!(matches!(
                fields[0],
                ScalarRef::Number(NumberScalar::Int32(2))
            ));
            assert!(matches!(fields[1], ScalarRef::Boolean(false)));
        }
        other => panic!("unexpected row: {:?}", other),
    }
}

#[test]
fn boolean_domain_flags() {
    let mut b = ColumnBuilder::with_capacity(&DataType::Boolean, 2);
    b.push(ScalarRef::Boolean(true));
    b.push(ScalarRef::Boolean(true));
    let c = b.build();
    match c.domain() {
        Domain::Boolean(BooleanDomain {
            has_false,
            has_true,
        }) => {
            assert!(has_true);
            assert!(!has_false);
        }
        other => panic!("unexpected domain: {:?}", other),
    }
}

#[test]
fn scalar_domain_wraps_nullable_type() {
    let s = ScalarRef::Number(NumberScalar::Int32(5));
    let ty = DataType::Nullable(Box::new(DataType::Number(NumberDataType::Int32)));
    match s.domain(&ty) {
        Domain::Nullable(nd) => {
            assert!(!nd.has_null);
            match *nd.value.unwrap() {
                Domain::Number(NumberDomain::Int32(sd)) => {
                    assert_eq!(sd.min, 5);
                    assert_eq!(sd.max, 5);
                }
                other => panic!("unexpected inner domain: {:?}", other),
            }
        }
        other => panic!("unexpected domain: {:?}", other),
    }
    match ScalarRef::Null.domain(&ty) {
        Domain::Nullable(nd) => {
            assert!(nd.has_null);
            assert!(nd.value.is_none());
        }
        other => panic!("unexpected domain: {:?}", other),
    }
}

#[test]
fn external_round_trip_flat() {
    let c = int32_column(&[1, -2, 3]);
    let e = c.to_external();
    let back = Column::from_external(&e, &DataType::Number(NumberDataType::Int32));
    assert!(back.eq(&c));

    let s = string_column(&["hello", "", "world"]);
    let es = s.to_external();
    let back_s = Column::from_external(&es, &DataType::String);
    assert!(back_s.eq(&s));
}

#[test]
fn external_round_trip_nullable_and_nested() {
    let ty = DataType::Nullable(Box::new(DataType::Number(NumberDataType::Int32)));
    let mut b = ColumnBuilder::with_capacity(&ty, 3);
    b.push(ScalarRef::Number(NumberScalar::Int32(4)));
    b.push(ScalarRef::Null);
    b.push(ScalarRef::Number(NumberScalar::Int32(6)));
    let c = b.build();
    let e = c.to_external();
    let back = Column::from_external(&e, &ty);
    assert!(back.eq(&c));
    assert!(matches!(back.index(1), Some(ScalarRef::Null)));

    let aty = DataType::Array(Box::new(DataType::Number(NumberDataType::Int32)));
    let mut ab = ColumnBuilder::with_capacity(&aty, 2);
    ab.push(ScalarRef::Array(int32_column(&[1, 2])));
    ab.push(ScalarRef::Array(int32_column(&[3])));
    let ac = ab.build();
    let ae = ac.to_external();
    let aback = Column::from_external(&ae, &aty);
    assert!(aback.eq(&ac));
}

#[test]
fn external_timestamp_units_normalize() {
    let e = ExtArray::Timestamp {
        values: vec![1, 2],
        unit: TimeUnit::Second,
        validity: None,
    };
    let c = Column::from_external(&e, &DataType::Timestamp);
    match c.index(0) {
        Some(ScalarRef::Timestamp(v)) => assert_eq!(v, 1_000_000),
        other => panic!("unexpected row: {:?}", other),
    }
    let en = ExtArray::Timestamp {
        values: vec![1500, -1500],
        unit: TimeUnit::Nanosecond,
        validity: None,
    };
    let cn = Column::from_external(&en, &DataType::Timestamp);
    match (cn.index(0), cn.index(1)) {
        (Some(ScalarRef::Timestamp(a)), Some(ScalarRef::Timestamp(b))) => {
            assert_eq!(a, 1);
            assert_eq!(b, -1);
        }
        other => panic!("unexpected rows: {:?}", other),
    }
}

#[test]
fn external_empty_collections_use_markers() {
    let mut b = ColumnBuilder::with_capacity(&DataType::EmptyArray, 2);
    b.push(ScalarRef::EmptyArray);
    b.push(ScalarRef::EmptyArray);
    let c = b.build();
    match c.to_external() {
        ExtArray::Null { len, marker } => {
            assert_eq!(len, 2);
            assert_eq!(marker, ExtMarker::EmptyArray);
        }
        other => panic!("unexpected array: {:?}", other),
    }
    let back = Column::from_external(&c.to_external(), &DataType::EmptyArray);
    assert!(back.eq(&c));
}

#[test]
fn memory_size_estimates()  {
    let c = int32_column(&[1, 2, 3]);
    assert_eq!(c.memory_size(), 12);
    let s = string_column(&["ab", "c"]);
    // three bytes of data plus three 8-byte offsets
    assert_eq!(s.memory_size(), 3 + 24);
    assert_eq!(ScalarRef::String(b"abcd".to_vec()).memory_size(), 4);
    assert_eq!(
        ValueRef::Scalar(ScalarRef::Number(NumberScalar::Int64(0))).memory_size(),
        8
    );
}

#[test]
fn infer_data_type_unwraps_null() {
    assert!(matches!(
        ScalarRef::Null.infer_data_type(),
        DataType::Null
    ));
    assert!(matches!(
        ScalarRef::Number(NumberScalar::UInt16(1)).infer_data_type(),
        DataType::Number(NumberDataType::UInt16)
    ));
    let arr = ScalarRef::Array(int32_column(&[1]));
    match arr.infer_data_type() {
        DataType::Array(inner) => {
            assert!(matches!(*inner, DataType::Number(NumberDataType::Int32)))
        }
        other => panic!("unexpected type: {:?}", other),
    }
}

#[test]
fn column_iterator_walks_rows() {
    let c = int32_column(&[7, 8]);
    let mut it = c.iter();
    assert_eq!(it.size_hint(), (2, Some(2)));
    assert!(matches!(
        it.next(),
        Some(ScalarRef::Number(NumberScalar::Int32(7)))
    ));
    assert!(matches!(
        it.next(),
        Some(ScalarRef::Number(NumberScalar::Int32(8)))
    ));
    assert!(it.next().is_none());
}

#[test]
fn nested_array_comparison() {
    let aty = DataType::Array(Box::new(DataType::Number(NumberDataType::Int32)));
    let mut b1 = ColumnBuilder::with_capacity(&aty, 2);
    b1.push(ScalarRef::Array(int32_column(&[1, 2])));
    b1.push(ScalarRef::Array(int32_column(&[3])));
    let c1 = b1.build();
    let mut b2 = ColumnBuilder::with_capacity(&aty, 2);
    b2.push(ScalarRef::Array(int32_column(&[1, 2])));
    b2.push(ScalarRef::Array(int32_column(&[4])));
    let c2 = b2.build();
    assert_eq!(c1.partial_cmp(&c2), Some(std::cmp::Ordering::Less));
    assert!(!c1.eq(&c2));

    let s1 = Scalar::Array(int32_column(&[1, 2]));
    let s2 = Scalar::Array(int32_column(&[1, 2, 3]));
    // A shorter sequence that is a prefix of the other orders first.
    assert_eq!(s1.partial_cmp(&s2), Some(std::cmp::Ordering::Less));
    let s3 = Scalar::Array(int32_column(&[1, 2]));
    assert!(s1.eq(&s3));
}

#[test]
fn nullable_rows_order_first() {
    let ty = DataType::Nullable(Box::new(DataType::Number(NumberDataType::Int32)));
    let mut b1 = ColumnBuilder::with_capacity(&ty, 1);
    b1.push(ScalarRef::Null);
    let masked = b1.build();
    let mut b2 = ColumnBuilder::with_capacity(&ty, 1);
    b2.push(ScalarRef::Number(NumberScalar::Int32(-5)));
    let valued = b2.build();
    assert_eq!(masked.partial_cmp(&valued), Some(std::cmp::Ordering::Less));
    assert_eq!(valued.partial_cmp(&masked), Some(std::cmp::Ordering::Greater));
}

#[test]
fn tuple_scalars_compare_fieldwise() {
    let a = Scalar::Tuple(vec![
        Scalar::Number(NumberScalar::Int32(1)),
        Scalar::String(b"b".to_vec()),
    ]);
    let b = Scalar::Tuple(vec![
        Scalar::Number(NumberScalar::Int32(1)),
        Scalar::String(b"c".to_vec()),
    ]);
    assert_eq!(a.partial_cmp(&b), Some(std::cmp::Ordering::Less));
    // A cross-variant field pair yields no ordering for the whole tuple.
    let c = Scalar::Tuple(vec![
        Scalar::Number(NumberScalar::Int32(1)),
        Scalar::Boolean(true),
    ]);
    assert!(a.partial_cmp(&c).is_none());
    assert_eq!(a.cmp(&c), std::cmp::Ordering::Equal);
}

#[test]
fn serialization_round_trip() {
    let c = int32_column(&[1, -2, 3]);
    let bytes = columnar_values::serialize_column(&c);
    let back = columnar_values::deserialize_column(&bytes).unwrap();
    assert!(back.eq(&c));

    let ty = DataType::Nullable(Box::new(DataType::String));
    let mut b = ColumnBuilder::with_capacity(&ty, 3);
    b.push(ScalarRef::String(b"a".to_vec()));
    b.push(ScalarRef::Null);
    b.push(ScalarRef::String(b"b".to_vec()));
    let nc = b.build();
    let nbytes = columnar_values::serialize_column(&nc);
    let nback = columnar_values::deserialize_column(&nbytes).unwrap();
    assert!(nback.eq(&nc));

    let aty = DataType::Array(Box::new(DataType::Number(NumberDataType::Int32)));
    let mut ab = ColumnBuilder::with_capacity(&aty, 2);
    ab.push(ScalarRef::Array(int32_column(&[1, 2])));
    ab.push(ScalarRef::Array(int32_column(&[3])));
    let ac = ab.build();
    let abytes = columnar_values::serialize_column(&ac);
    let aback = columnar_values::deserialize_column(&abytes).unwrap();
    assert!(aback.eq(&ac));

    let tty = DataType::Tuple(vec![DataType::Boolean, DataType::Timestamp]);
    let mut tb = ColumnBuilder::with_capacity(&tty, 1);
    tb.push(ScalarRef::Tuple(vec![
        ScalarRef::Boolean(true),
        ScalarRef::Timestamp(-7),
    ]));
    let tc = tb.build();
    let tbytes = columnar_values::serialize_column(&tc);
    let tback = columnar_values::deserialize_column(&tbytes).unwrap();
    assert!(tback.eq(&tc));
}

#[test]
fn serialize_then_deserialize_is_accepted() {
    // Number, decimal (both widths), timestamp and variant columns all
    // come back with the same canonical spelling.
    let c = int32_column(&[7, -9]);
    let back = columnar_values::serialize_then_deserialize(&c).unwrap();
    assert_eq!(
        columnar_values::serialize_column(&back),
        columnar_values::serialize_column(&c)
    );

    let ds = columnar_values::DecimalSize { precision: 10, scale: 2 };
    let dc = Column::Decimal(columnar_values::DecimalColumn::Decimal128(vec![150, -75], ds));
    let dback = columnar_values::serialize_then_deserialize(&dc).unwrap();
    assert_eq!(
        columnar_values::serialize_column(&dback),
        columnar_values::serialize_column(&dc)
    );

    let wide = columnar_values::I256 { hi: -1, lo: 42 };
    let wc = Column::Decimal(columnar_values::DecimalColumn::Decimal256(vec![wide], ds));
    let wback = columnar_values::serialize_then_deserialize(&wc).unwrap();
    assert_eq!(
        columnar_values::serialize_column(&wback),
        columnar_values::serialize_column(&wc)
    );

    let mut tb = ColumnBuilder::with_capacity(&DataType::Timestamp, 2);
    tb.push(ScalarRef::Timestamp(-3));
    tb.push(ScalarRef::Timestamp(99));
    let tc = tb.build();
    let tback = columnar_values::serialize_then_deserialize(&tc).unwrap();
    assert_eq!(
        columnar_values::serialize_column(&tback),
        columnar_values::serialize_column(&tc)
    );

    let payload: Vec<u8> = columnar_values::ord::parse_jsonb_text("{\"k\":1}").unwrap();
    let mut vb = ColumnBuilder::with_capacity(&DataType::Variant, 1);
    vb.push(ScalarRef::Variant(payload));
    let vc = vb.build();
    let vback = columnar_values::serialize_then_deserialize(&vc).unwrap();
    assert_eq!(
        columnar_values::serialize_column(&vback),
        columnar_values::serialize_column(&vc)
    );
}

#[test]
fn deserialization_rejects_malformed_bytes() {
    assert!(columnar_values::deserialize_column(&vec![]).is_none());
    assert!(columnar_values::deserialize_column(&vec![200u8]).is_none());
    assert!(columnar_values::deserialize_column(&vec![0u8, 1, 2]).is_none());
    let c = int32_column(&[5]);
    let mut bytes = columnar_values::serialize_column(&c);
    bytes.push(0);
    assert!(columnar_values::deserialize_column(&bytes).is_none());
}

#[test]
fn cross_typed_nested_values_have_no_ordering() {
    // Same constructor, differing inner types: no ordering, unequal.
    let a = Scalar::Array(int32_column(&[]));
    let b = Scalar::Array(string_column(&[]));
    assert!(a.partial_cmp(&b).is_none());
    assert!(!a.eq(&b));
    assert_eq!(a.cmp(&b), std::cmp::Ordering::Equal);

    let c1 = int32_column(&[1]);
    let c2 = string_column(&["x"]);
    assert!(c1.partial_cmp(&c2).is_none());
    assert!(!c1.eq(&c2));
    let mismatched = ValueRef::Scalar(ScalarRef::Boolean(true));
    let col = ValueRef::Column(int32_column(&[1]));
    assert!(!mismatched.semantically_eq(&col));
}

#[test]
fn variant_hash_policy_is_raw_bytes() {
    // JSON-equal but byte-different payloads compare equal yet hash apart.
    let a: Vec<u8> = columnar_values::ord::parse_jsonb_text("1").unwrap();
    let b: Vec<u8> = columnar_values::ord::parse_jsonb_text("1.0").unwrap();
    let sa = ScalarRef::Variant(a);
    let sb = ScalarRef::Variant(b);
    assert!(sa.eq(&sb));
    assert_ne!(sa.content_hash(), sb.content_hash());
    // Element-wise equal nested values hash alike.
    let x = ScalarRef::Array(int32_column(&[1, 2]));
    let y = ScalarRef::Array(int32_column(&[1, 2]));
    assert_eq!(x.content_hash(), y.content_hash());
}

#[test]
fn try_downcast_narrows_by_type() {
    let v = ValueRef::Column(int32_column(&[1, 2]));
    assert!(v
        .try_downcast(&DataType::Number(NumberDataType::Int32))
        .is_some());
    assert!(v.try_downcast(&DataType::String).is_none());

    let s = Value::Scalar(Scalar::Number(NumberScalar::Int32(9)));
    assert!(s
        .try_downcast(&DataType::Number(NumberDataType::Int32))
        .is_some());
    let nullable = DataType::Nullable(Box::new(DataType::Number(NumberDataType::Int32)));
    assert!(s.try_downcast(&nullable).is_some());
    assert!(s.try_downcast(&DataType::Boolean).is_none());
    assert!(Value::Scalar(Scalar::Null).try_downcast(&nullable).is_some());
}
