//! Record batches, as the durable store takes and gives them.

use crate::scalar::Scalar;
use arrow_array::cast::AsArray;
use arrow_array::types::Float32Type;
use arrow_array::{
    Array, FixedSizeListArray, Float32Array, RecordBatch, StringArray, UInt32Array, UInt64Array,
};
use arrow_schema::{ArrowError, DataType, Field, Schema};
use std::sync::Arc;
use vstd::prelude::*;

verus! {

/// A table's columns in memory: a `RecordBatch` of the `arrow-array` crate.
#[verifier::external_body]
pub struct Batch {
    pub inner: RecordBatch,
}

/// A column of vectors of one length, from the `arrow-array` crate.
#[verifier::external_type_specification]
#[verifier::external_body]
pub struct ExFixedSizeListArray(arrow_array::FixedSizeListArray);

/// The names and types of columns, from the `arrow-schema` crate.
#[verifier::external_type_specification]
#[verifier::external_body]
pub struct ExSchema(arrow_schema::Schema);

/// Why columns could not be put together.
#[verifier::external_type_specification]
#[verifier::external_body]
pub struct ExArrowError(arrow_schema::ArrowError);

/// What a column is made of.
pub enum ColumnKind {
    /// Unsigned 64-bit numbers.
    Unsigned,
    /// Texts.
    Text,
    /// Vectors of single-precision numbers: the name of the item and the length.
    Vector(Seq<char>, i32),
}

/// What a column holds.
pub enum Column {
    /// Unsigned 64-bit numbers.
    Unsigned(Seq<u64>),
    /// Texts.
    Text(Seq<Seq<char>>),
    /// Single-precision numbers.
    Number(Seq<Scalar>),
    /// Vectors of single-precision numbers.
    Vector(Seq<Seq<Scalar>>),
    /// Something else.
    Other,
}

/// The columns of a schema in order, each with its name. None admits nulls.
pub uninterp spec fn schema_columns(schema: arrow_schema::Schema) -> Seq<(Seq<char>, ColumnKind)>;

/// The vectors in a column.
pub uninterp spec fn list_rows(list: arrow_array::FixedSizeListArray) -> Seq<Seq<Scalar>>;

/// The name of a vector column's item, and its vectors' length.
pub uninterp spec fn list_shape(list: arrow_array::FixedSizeListArray) -> (Seq<char>, i32);

/// What the columns of a batch hold, by name: of columns that share a name, the
/// first.
pub uninterp spec fn batch_columns(batch: Batch) -> Map<Seq<char>, Column>;

/// The number of rows of a batch.
pub uninterp spec fn batch_rows(batch: Batch) -> nat;

/// The texts of a row of strings.
pub open spec fn texts_of(texts: Seq<String>) -> Seq<Seq<char>> {
    texts.map_values(|t: String| t@)
}

/// The bytes that texts take up in UTF-8.
pub open spec fn text_bytes(texts: Seq<String>) -> nat
    decreases texts.len(),
{
    if texts.len() == 0 {
        0
    } else {
        text_bytes(texts.drop_last()) + vstd::utf8::encode_utf8(texts.last()@).len()
    }
}

/// Whether `n` numbers make up whole vectors of a length.
pub open spec fn list_fits(n: nat, size: i32) -> bool {
    if size == 0 {
        n == 0
    } else {
        size > 0 && n % (size as nat) == 0
    }
}

/// Numbers cut into vectors of a length.
pub open spec fn cut(values: Seq<Scalar>, size: i32) -> Seq<Seq<Scalar>> {
    if size <= 0 {
        Seq::empty()
    } else {
        Seq::new(
            values.len() / (size as nat),
            |i: int| values.subrange(i * size, i * size + size),
        )
    }
}

/// `Schema::new` with a field for unsigned numbers, one for texts and one for
/// vectors, none of them nullable.
#[verifier::external_body]
pub(crate) fn new_schema(id: &str, text: &str, vector: &str, item: &str, size: i32) -> (schema: Arc<
    Schema,
>)
    ensures
        schema_columns(*schema) == seq![
            (id@, ColumnKind::Unsigned),
            (text@, ColumnKind::Text),
            (vector@, ColumnKind::Vector(item@, size)),
        ],
{
    let item_field = Arc::new(Field::new(item, DataType::Float32, true));
    Arc::new(Schema::new(vec![
        Field::new(id, DataType::UInt64, false),
        Field::new(text, DataType::Utf8, false),
        Field::new(vector, DataType::FixedSizeList(item_field, size), false),
    ]))
}

/// `FixedSizeListArray::try_new` over single-precision numbers, without nulls:
/// cuts them into vectors of `size`, and fails where that leaves a rest, where
/// `size` is negative, or where it is 0 and there are numbers.
#[verifier::external_body]
pub(crate) fn new_list(item: &str, size: i32, values: &Vec<Scalar>) -> (r: Result<
    FixedSizeListArray,
    ArrowError,
>)
    ensures
        r is Ok <==> list_fits(values@.len(), size),
        r matches Ok(list) ==> list_rows(list) == cut(values@, size) && list_shape(list) == (
            item@,
            size,
        ),
{
    let bits = UInt32Array::from_iter_values(values.iter().map(|c| c.bits));
    let numbers = Float32Array::new(bits.values().inner().clone().into(), None);
    let field = Arc::new(Field::new(item, DataType::Float32, true));
    FixedSizeListArray::try_new(field, size, Arc::new(numbers), None)
}

/// Whether a schema names an unsigned, a text and a vector column of this shape,
/// in this order.
pub open spec fn schema_takes(schema: Schema, shape: (Seq<char>, i32)) -> bool {
    let columns = schema_columns(schema);
    &&& columns.len() == 3
    &&& columns[0].1 == ColumnKind::Unsigned
    &&& columns[1].1 == ColumnKind::Text
    &&& columns[2].1 == ColumnKind::Vector(shape.0, shape.1)
}

/// Whether the columns are those of the schema and of one length.
pub open spec fn batch_fits(
    schema: Schema,
    ids: Seq<u64>,
    texts: Seq<String>,
    vectors: FixedSizeListArray,
) -> bool {
    &&& schema_takes(schema, list_shape(vectors))
    &&& texts.len() == ids.len()
    &&& list_rows(vectors).len() == ids.len()
}

/// `RecordBatch::try_new` over an unsigned, a text and a vector column: fails
/// where the schema asks for other columns or where their lengths differ. The
/// text column panics where the texts take up more than 2 GiB.
#[verifier::external_body]
pub(crate) fn new_batch(
    schema: Arc<Schema>,
    ids: &Vec<u64>,
    texts: &Vec<String>,
    vectors: FixedSizeListArray,
) -> (r: Result<Batch, ArrowError>)
    requires
        text_bytes(texts@) <= i32::MAX,
    ensures
        r is Ok <==> batch_fits(*schema, ids@, texts@, vectors),
        r matches Ok(batch) ==> {
            let columns = schema_columns(*schema);
            let (id, text, vector) = (columns[0].0, columns[1].0, columns[2].0);
            batch_rows(batch) == ids@.len() && (id != text && id != vector && text != vector
                ==> batch_columns(batch) == map![
                id => Column::Unsigned(ids@),
                text => Column::Text(texts_of(texts@)),
                vector => Column::Vector(list_rows(vectors)),
            ])
        },
{
    let ids = UInt64Array::from_iter_values(ids.iter().copied());
    let texts = StringArray::from_iter_values(texts);
    let columns = RecordBatch::try_new(schema, vec![Arc::new(ids), Arc::new(texts), Arc::new(vectors)]);
    columns.map(|inner| Batch { inner })
}

/// `RecordBatch::num_rows`.
#[verifier::external_body]
pub(crate) fn row_count(batch: &Batch) -> (rows: usize)
    ensures
        rows == batch_rows(*batch),
{
    batch.inner.num_rows()
}

/// The unsigned column of a name, through `RecordBatch::column_by_name`. A
/// column has one entry per row of its batch.
#[verifier::external_body]
pub(crate) fn unsigned_column(batch: &Batch, name: &str) -> (r: Option<Vec<u64>>)
    ensures
        r is Some <==> (batch_columns(*batch).contains_key(name@) && batch_columns(
            *batch,
        )[name@] is Unsigned),
        r matches Some(v) ==> batch_columns(*batch)[name@] == Column::Unsigned(v@) && v@.len()
            == batch_rows(*batch),
{
    let column = batch.inner.column_by_name(name);
    column.and_then(|c| c.as_any().downcast_ref::<UInt64Array>()).map(|a| a.values().to_vec())
}

/// The text column of a name, through `RecordBatch::column_by_name`. A column
/// has one entry per row of its batch.
#[verifier::external_body]
pub(crate) fn text_column(batch: &Batch, name: &str) -> (r: Option<Vec<String>>)
    ensures
        r is Some <==> (batch_columns(*batch).contains_key(name@) && batch_columns(
            *batch,
        )[name@] is Text),
        r matches Some(v) ==> batch_columns(*batch)[name@] == Column::Text(texts_of(v@))
            && v@.len() == batch_rows(*batch),
{
    let column = batch.inner.column_by_name(name);
    let texts = column.and_then(|c| c.as_any().downcast_ref::<StringArray>());
    texts.map(|a| (0..a.len()).map(|i| a.value(i).to_string()).collect())
}

/// The single-precision column of a name, through `RecordBatch::column_by_name`.
/// A column has one entry per row of its batch.
#[verifier::external_body]
pub(crate) fn number_column(batch: &Batch, name: &str) -> (r: Option<Vec<Scalar>>)
    ensures
        r is Some <==> (batch_columns(*batch).contains_key(name@) && batch_columns(
            *batch,
        )[name@] is Number),
        r matches Some(v) ==> batch_columns(*batch)[name@] == Column::Number(v@) && v@.len()
            == batch_rows(*batch),
{
    let column = batch.inner.column_by_name(name);
    let numbers = column.and_then(|c| c.as_primitive_opt::<Float32Type>());
    let bits = numbers.map(|a| UInt32Array::new(a.values().inner().clone().into(), None));
    bits.map(|a| a.values().iter().map(|b| Scalar { bits: *b }).collect())
}

/// The numbers of vectors.
pub open spec fn vectors_of(vectors: Seq<Vec<Scalar>>) -> Seq<Seq<Scalar>> {
    vectors.map_values(|v: Vec<Scalar>| v@)
}

/// The column of single-precision vectors of a name, through
/// `RecordBatch::column_by_name` and `FixedSizeListArray::value`. A column has one
/// entry per row of its batch.
#[verifier::external_body]
pub(crate) fn vector_column(batch: &Batch, name: &str) -> (r: Option<Vec<Vec<Scalar>>>)
    ensures
        r is Some <==> (batch_columns(*batch).contains_key(name@) && batch_columns(
            *batch,
        )[name@] is Vector),
        r matches Some(v) ==> batch_columns(*batch)[name@] == Column::Vector(vectors_of(v@))
            && v@.len() == batch_rows(*batch),
{
    let lists = batch.inner.column_by_name(name).and_then(|c| c.as_fixed_size_list_opt());
    let floats = lists.and_then(|a| a.values().as_primitive_opt::<Float32Type>().map(|_| a));
    let row = |numbers: &Float32Array| -> Vec<Scalar> {
        let bits = UInt32Array::new(numbers.values().inner().clone().into(), None);
        bits.values().iter().map(|b| Scalar { bits: *b }).collect()
    };
    floats.map(|a| (0..a.len()).map(|i| row(a.value(i).as_primitive())).collect())
}

/// The words of an error about columns. What they are is not stated.
#[verifier::external_body]
pub(crate) fn arrow_error_text(error: &ArrowError) -> (text: String) {
    error.to_string()
}

} // verus!
