//! The errors of the platform, by component.

use vstd::prelude::*;
use crate::field::FieldType;

verus! {

/// A port of a node.
pub type PortHandle = u16;

/// Errors of values and schemas.
#[derive(Debug, PartialEq, Eq)]
pub enum TypeError {
    InvalidFieldName(String),
    InvalidFieldIndex(usize),
    InvalidFieldValue(FieldType, bool, String),
    DeserializationError,
    InvalidTimestamp,
    AmbiguousTimestamp,
}

/// Errors of the operators of a pipeline.
#[derive(Debug, PartialEq, Eq)]
pub enum PipelineError {
    InvalidOperandType(String),
    InternalTypeError(TypeError),
    NumericOverflow,
}

/// Errors of the secondary indexes.
#[derive(Debug, PartialEq, Eq)]
pub enum IndexError {
    MissingSecondaryIndexes,
    FieldIndexOutOfRange,
    FieldNotCompatibleIndex(usize),
}

/// Errors of the cache.
#[derive(Debug, PartialEq, Eq)]
pub enum CacheError {
    SchemaHasNoIdentifier,
    SchemaNotFound,
    SecondaryIndexDatabaseNotFound,
    PrimaryKeyNotFound,
    PrimaryKeyExists,
    SchemaMismatch,
    StoreFull,
    Index(IndexError),
}

/// Errors of the dataflow runtime.
#[derive(Debug, PartialEq, Eq)]
pub enum ExecutionError {
    InvalidPortHandle(PortHandle),
    InvalidOperation,
    RecordNotFound,
}

/// Errors of the schema of a Postgres source.
#[derive(Debug, PartialEq, Eq)]
pub enum PostgresSchemaError {
    PrimaryKeyIsMissingInSchema(String),
    UnsupportedReplicationType(String),
    UnsupportedTableType(String, String),
    TableTypeNotFound,
    TableNotFound(String),
    InvalidColumnType,
    ColumnTypeNotSupported(u32),
    ValueConversionError(String),
}

/// Errors of a Postgres source.
#[derive(Debug, PartialEq, Eq)]
pub enum PostgresConnectorError {
    InvalidQueryError,
    ColumnNotFound(String, String),
    PostgresSchemaError(PostgresSchemaError),
}

/// Errors of a source.
#[derive(Debug, PartialEq, Eq)]
pub enum ConnectorError {
    ColumnsNotFound,
    SchemaIdentifierNotFound,
    InvalidQueryError,
    InitializationError(String),
    PostgresConnectorError(PostgresConnectorError),
}

} // verus!
