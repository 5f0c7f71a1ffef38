//! In-memory columnar value model: owned and borrowed logical values
//! (`Scalar`, `ScalarRef`), immutable vectors of values (`Column`), mutable
//! accumulators (`ColumnBuilder`), per-type range summaries (`Domain`), the
//! scalar-or-column union used by vectorized kernels (`Value`, `ValueRef`),
//! and a lossless bridge to the standard external columnar layout.

pub mod aggregate;
pub mod builder;
pub mod codec;
pub mod column;
pub mod domain;
pub mod external;
pub mod laws;
pub mod memory;
pub mod ord;
pub mod scalar;
pub mod types;
pub mod value;

pub use aggregate::AggregateError;
pub use aggregate::DataValueAggregateOperator;
pub use aggregate::data_array_aggregate_op;
pub use builder::ArrayColumnBuilder;
pub use codec::deserialize_column;
pub use codec::serialize_column;
pub use codec::serialize_then_deserialize;
pub use builder::ColumnBuilder;
pub use builder::NullableColumnBuilder;
pub use column::ArrayColumn;
pub use column::Column;
pub use column::ColumnIterator;
pub use column::DecimalColumn;
pub use column::NullableColumn;
pub use column::NumberColumn;
pub use column::StringColumn;
pub use domain::BooleanDomain;
pub use domain::DecimalDomain;
pub use domain::Domain;
pub use domain::NullableDomain;
pub use domain::NumberDomain;
pub use domain::SimpleDomain;
pub use domain::StringDomain;
pub use external::ExtArray;
pub use external::ExtMarker;
pub use external::TimeUnit;
pub use scalar::DecimalScalar;
pub use scalar::I256;
pub use scalar::NumberScalar;
pub use scalar::Scalar;
pub use scalar::ScalarRef;
pub use scalar::Val;
pub use types::DataType;
pub use types::DecimalDataType;
pub use types::DecimalSize;
pub use types::NumberDataType;
pub use types::TypeV;
pub use value::Value;
pub use value::ValueRef;
