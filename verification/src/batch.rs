//! Schemas and record batches, as the columns that they hold.

use vstd::prelude::*;
use std::sync::Arc;
use arrow::array::{Array, ArrayRef, Int64Array, RecordBatch, StringArray};
use arrow::datatypes::{DataType, Field, Schema};
use crate::text;

verus! {

#[verifier::external_type_specification]
#[verifier::external_body]
pub struct ExSchema(Schema);

/// A record batch. It is handed to the writer, and comes from the query engine, as
/// `inner`.
#[verifier::external_body]
pub struct Batch {
    pub inner: RecordBatch,
}

/// One field of a schema.
pub struct FieldShape {
    pub name: Seq<char>,
    /// Its type is Utf8.
    pub utf8: bool,
    pub nullable: bool,
}

/// The values of one column: texts, 64-bit integers, or values of another type.
pub enum Column {
    Text(Seq<Seq<char>>),
    Ints(Seq<i64>),
    Other,
}

/// One column of a record batch.
pub struct NamedColumn {
    pub name: Seq<char>,
    pub values: Column,
}

/// The fields of `schema`, in order.
pub uninterp spec fn schema_fields(schema: Schema) -> Seq<FieldShape>;

/// The fields of the schema that `batch` has, in order.
pub uninterp spec fn batch_fields(batch: Batch) -> Seq<FieldShape>;

/// The columns of `batch`, in order.
pub uninterp spec fn batch_columns(batch: Batch) -> Seq<NamedColumn>;

/// Number of bytes that `column` takes up in UTF-8.
pub open spec fn total_bytes(column: Seq<Seq<char>>) -> nat
    decreases column.len(),
{
    if column.len() == 0 {
        0
    } else {
        total_bytes(column.drop_last()) + vstd::utf8::encode_utf8(column.last()).len()
    }
}

/// `column`, where it holds values that can be counted, has `n` of them.
pub open spec fn has_rows(column: Column, n: nat) -> bool {
    match column {
        Column::Text(values) => values.len() == n,
        Column::Ints(values) => values.len() == n,
        Column::Other => true,
    }
}

/// `Schema::new` on one `Field::new` per name, each of type Utf8: the fields stand
/// in the schema in that order.
#[verifier::external_body]
pub(crate) fn utf8_schema(names: Vec<&'static str>, nullable: bool) -> (schema: Schema)
    ensures
        schema_fields(schema) == Seq::new(
            names@.len(),
            |k: int| FieldShape { name: names@[k]@, utf8: true, nullable },
        ),
{
    let fields: Vec<Field> = names.into_iter()
        .map(|name| Field::new(name, DataType::Utf8, nullable))
        .collect();
    Schema::new(fields)
}

/// `RecordBatch::try_new` on one `StringArray` per column: the batch has the schema, and
/// holds the columns under its names. It fails unless there is a column, there
/// is one per field, each field is of type Utf8, and all have one length; and
/// `StringArray::from` panics where a column's bytes cannot be counted in an `i32`.
#[verifier::external_body]
pub(crate) fn text_batch(schema: Arc<Schema>, columns: Vec<Vec<String>>) -> (batch: Batch)
    requires
        columns@.len() > 0,
        schema_fields(*schema).len() == columns@.len(),
        forall|c: int|
            0 <= c < columns@.len() ==> {
                &&& (#[trigger] schema_fields(*schema)[c]).utf8
                &&& columns@[c]@.len() == columns@[0]@.len()
                &&& total_bytes(text::texts(columns@[c]@)) <= i32::MAX
            },
    ensures
        batch_fields(batch) == schema_fields(*schema),
        batch_columns(batch) == Seq::new(
            columns@.len(),
            |c: int|
                NamedColumn {
                    name: schema_fields(*schema)[c].name,
                    values: Column::Text(text::texts(columns@[c]@)),
                },
        ),
{
    let arrays: Vec<ArrayRef> = columns.into_iter()
        .map(|column| Arc::new(StringArray::from(column)) as ArrayRef)
        .collect();
    Batch { inner: RecordBatch::try_new(schema, arrays).unwrap() }
}

/// `RecordBatch::num_columns`.
#[verifier::external_body]
pub(crate) fn column_count(batch: &Batch) -> (n: usize)
    ensures
        n == batch_columns(*batch).len(),
{
    batch.inner.num_columns()
}

/// `RecordBatch::column` taken as a `StringArray`: the texts of the column, where it
/// is of that type. All columns of a batch have one length. `column` panics where
/// there is no such column.
#[verifier::external_body]
pub(crate) fn text_column(batch: &Batch, index: usize) -> (values: Option<Vec<String>>)
    requires
        index < batch_columns(*batch).len(),
    ensures
        match batch_columns(*batch)[index as int].values {
            Column::Text(expected) => values matches Some(found) && text::texts(found@) == expected,
            _ => values is None,
        },
        values matches Some(found) ==> forall|c: int|
            0 <= c < batch_columns(*batch).len() ==> has_rows(
                (#[trigger] batch_columns(*batch)[c]).values,
                found@.len(),
            ),
{
    let array = batch.inner.column(index).as_any().downcast_ref::<StringArray>()?;
    Some((0..array.len()).map(|row| array.value(row).to_string()).collect())
}

/// `RecordBatch::column` taken as an `Int64Array`: the numbers of the column, where
/// it is of that type. `column` panics where there is no such column.
#[verifier::external_body]
pub(crate) fn int_column(batch: &Batch, index: usize) -> (values: Option<Vec<i64>>)
    requires
        index < batch_columns(*batch).len(),
    ensures
        match batch_columns(*batch)[index as int].values {
            Column::Ints(expected) => values matches Some(found) && found@ == expected,
            _ => values is None,
        },
{
    let array = batch.inner.column(index).as_any().downcast_ref::<Int64Array>()?;
    Some((0..array.len()).map(|row| array.value(row)).collect())
}

} // verus!
