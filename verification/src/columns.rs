//! Arrow tables as the library reads and builds them.
//!
//! What a table holds is modelled column by column. Every function here that
//! touches a table hands the work to the `arrow` crate; its contract says what
//! the crate returns.
use arrow::array::Array;
use arrow::array::ArrayRef;
use arrow::array::BooleanArray;
use arrow::array::FixedSizeListArray;
use arrow::array::Int32Array;
use arrow::array::ListArray;
use arrow::array::RecordBatch;
use arrow::array::StringArray;
use arrow::array::TimestampMillisecondArray;
use arrow::datatypes::DataType;
use arrow::datatypes::Field;
use arrow::datatypes::Schema;
use arrow::datatypes::TimeUnit;
use arrow::error::ArrowError;
use std::sync::Arc;
use vstd::prelude::*;
use crate::relation_vocab;
use crate::text;

verus! {

/// An Arrow table: a `RecordBatch` of the `arrow` crate.
#[verifier::external_body]
#[derive(Debug)]
pub struct Table {
    pub batch: RecordBatch,
}

/// The description of an Arrow table's columns.
#[verifier::external_type_specification]
#[verifier::external_body]
pub struct ExSchema(Schema);

/// The description of one column.
#[verifier::external_type_specification]
#[verifier::external_body]
pub struct ExField(Field);

/// What an Arrow operation fails with.
#[verifier::external_type_specification]
#[verifier::external_body]
pub struct ExArrowError(ArrowError);

// ---- what tables hold -------------------------------------------------------------------

/// A cell that may be null. A null cell has a value too, which readers that do not
/// ask first get to see.
#[verifier::ext_equal]
pub struct Cell<T> {
    pub valid: bool,
    pub value: T,
}

/// What a list holds: texts, or a number of values of another type.
#[verifier::ext_equal]
pub enum ListItems {
    Texts(Seq<Cell<Seq<char>>>),
    Others(nat),
}

pub open spec fn list_len(items: ListItems) -> nat {
    match items {
        ListItems::Texts(s) => s.len(),
        ListItems::Others(n) => n,
    }
}

/// The cells of a column, by type.
#[verifier::ext_equal]
pub enum Cells {
    Text(Seq<Cell<Seq<char>>>),
    Flag(Seq<Cell<bool>>),
    Int(Seq<Cell<i32>>),
    /// Instants in milliseconds, and whether they are marked as UTC.
    Millis(Seq<Cell<i64>>, bool),
    List(Seq<Cell<ListItems>>),
    /// Vectors of one length: for each row, whether there is one.
    Vector(Seq<bool>),
    /// Values of another type: for each row, whether there is one.
    Other(Seq<bool>),
}

#[verifier::ext_equal]
pub struct ColumnView {
    pub name: Seq<char>,
    pub cells: Cells,
}

/// The columns of a table.
pub uninterp spec fn table_columns(table: Table) -> Seq<ColumnView>;

/// The number of rows of a table.
pub uninterp spec fn table_rows(table: Table) -> nat;

/// Whether column `col` exists and holds texts, a cell for every row.
pub open spec fn has_text(table: Table, col: int) -> bool {
    &&& 0 <= col < table_columns(table).len()
    &&& table_columns(table)[col].cells is Text
    &&& table_columns(table)[col].cells->Text_0.len() == table_rows(table)
}

pub open spec fn text_cell(table: Table, col: int, row: int) -> Cell<Seq<char>> {
    table_columns(table)[col].cells->Text_0[row]
}

pub open spec fn has_flags(table: Table, col: int) -> bool {
    &&& 0 <= col < table_columns(table).len()
    &&& table_columns(table)[col].cells is Flag
    &&& table_columns(table)[col].cells->Flag_0.len() == table_rows(table)
}

pub open spec fn flag_cell(table: Table, col: int, row: int) -> Cell<bool> {
    table_columns(table)[col].cells->Flag_0[row]
}

pub open spec fn has_ints(table: Table, col: int) -> bool {
    &&& 0 <= col < table_columns(table).len()
    &&& table_columns(table)[col].cells is Int
    &&& table_columns(table)[col].cells->Int_0.len() == table_rows(table)
}

pub open spec fn int_cell(table: Table, col: int, row: int) -> Cell<i32> {
    table_columns(table)[col].cells->Int_0[row]
}

pub open spec fn has_millis(table: Table, col: int) -> bool {
    &&& 0 <= col < table_columns(table).len()
    &&& table_columns(table)[col].cells is Millis
    &&& table_columns(table)[col].cells->Millis_0.len() == table_rows(table)
}

pub open spec fn millis_cell(table: Table, col: int, row: int) -> Cell<i64> {
    table_columns(table)[col].cells->Millis_0[row]
}

pub open spec fn has_lists(table: Table, col: int) -> bool {
    &&& 0 <= col < table_columns(table).len()
    &&& table_columns(table)[col].cells is List
    &&& table_columns(table)[col].cells->List_0.len() == table_rows(table)
}

pub open spec fn list_cell(table: Table, col: int, row: int) -> Cell<ListItems> {
    table_columns(table)[col].cells->List_0[row]
}

pub open spec fn has_vectors(table: Table, col: int) -> bool {
    &&& 0 <= col < table_columns(table).len()
    &&& table_columns(table)[col].cells is Vector
    &&& table_columns(table)[col].cells->Vector_0.len() == table_rows(table)
}

/// Whether there is a vector in a row.
pub open spec fn vector_cell(table: Table, col: int, row: int) -> bool {
    table_columns(table)[col].cells->Vector_0[row]
}

/// The first column with a name, if there is one.
pub open spec fn first_named(columns: Seq<ColumnView>, name: Seq<char>) -> Option<int>
    decreases columns.len(),
{
    if columns.len() == 0 {
        None
    } else {
        match first_named(columns.drop_last(), name) {
            Some(i) => Some(i),
            None => if columns.last().name == name {
                Some(columns.len() - 1)
            } else {
                None
            },
        }
    }
}

pub proof fn lemma_first_named(columns: Seq<ColumnView>, name: Seq<char>)
    ensures
        first_named(columns, name) is Some ==> 0 <= first_named(columns, name)->0 < columns.len(),
    decreases columns.len(),
{
    if columns.len() > 0 {
        lemma_first_named(columns.drop_last(), name);
    }
}

// ---- reading ----------------------------------------------------------------------------

/// `RecordBatch::num_rows`: how many rows the table has.
#[verifier::external_body]
pub(crate) fn num_rows(table: &Table) -> (r: usize)
    ensures
        r == table_rows(*table),
{
    table.batch.num_rows()
}

/// `RecordBatch::num_columns`: how many columns the table has.
#[verifier::external_body]
pub(crate) fn num_columns(table: &Table) -> (r: usize)
    ensures
        r == table_columns(*table).len(),
{
    table.batch.num_columns()
}

/// `Schema::column_with_name` on a table's schema: the first column with a name.
#[verifier::external_body]
pub(crate) fn column_named(table: &Table, name: &str) -> (r: Option<usize>)
    ensures
        r is Some == (first_named(table_columns(*table), name@) is Some),
        r is Some ==> r->0 == first_named(table_columns(*table), name@)->0,
{
    table.batch.schema().column_with_name(name).map(|found| found.0)
}

/// `RecordBatch::column` and a downcast to `StringArray`: whether the column holds
/// texts. All columns of a table are as long as the table.
#[verifier::external_body]
pub(crate) fn is_text(table: &Table, col: usize) -> (r: bool)
    requires
        col < table_columns(*table).len(),
    ensures
        r == (table_columns(*table)[col as int].cells is Text),
        r == has_text(*table, col as int),
{
    table.batch.column(col).as_any().downcast_ref::<StringArray>().is_some()
}

/// `StringArray::value`: the text in a row, whether or not it is null.
#[verifier::external_body]
pub(crate) fn text_value(table: &Table, col: usize, row: usize) -> (r: String)
    requires
        has_text(*table, col as int),
        row < table_rows(*table),
    ensures
        r@ == text_cell(*table, col as int, row as int).value,
{
    table.batch.column(col).as_any().downcast_ref::<StringArray>().expect("text column").value(row).to_string()
}

/// `Array::is_null` on a `StringArray`.
#[verifier::external_body]
pub(crate) fn text_is_null(table: &Table, col: usize, row: usize) -> (r: bool)
    requires
        has_text(*table, col as int),
        row < table_rows(*table),
    ensures
        r == !text_cell(*table, col as int, row as int).valid,
{
    table.batch.column(col).as_any().downcast_ref::<StringArray>().expect("text column").is_null(row)
}

/// `RecordBatch::column` and a downcast to `BooleanArray`: whether the column holds
/// flags.
#[verifier::external_body]
pub(crate) fn is_flags(table: &Table, col: usize) -> (r: bool)
    requires
        col < table_columns(*table).len(),
    ensures
        r == (table_columns(*table)[col as int].cells is Flag),
        r == has_flags(*table, col as int),
{
    table.batch.column(col).as_any().downcast_ref::<BooleanArray>().is_some()
}

/// `BooleanArray::value`: the flag in a row, whether or not it is null.
#[verifier::external_body]
pub(crate) fn flag_value(table: &Table, col: usize, row: usize) -> (r: bool)
    requires
        has_flags(*table, col as int),
        row < table_rows(*table),
    ensures
        r == flag_cell(*table, col as int, row as int).value,
{
    table.batch.column(col).as_any().downcast_ref::<BooleanArray>().expect("flag column").value(row)
}

/// `Array::is_null` on a `BooleanArray`.
#[verifier::external_body]
pub(crate) fn flag_is_null(table: &Table, col: usize, row: usize) -> (r: bool)
    requires
        has_flags(*table, col as int),
        row < table_rows(*table),
    ensures
        r == !flag_cell(*table, col as int, row as int).valid,
{
    table.batch.column(col).as_any().downcast_ref::<BooleanArray>().expect("flag column").is_null(row)
}

/// `RecordBatch::column` and a downcast to `Int32Array`: whether the column holds
/// 32 bit integers.
#[verifier::external_body]
pub(crate) fn is_ints(table: &Table, col: usize) -> (r: bool)
    requires
        col < table_columns(*table).len(),
    ensures
        r == (table_columns(*table)[col as int].cells is Int),
        r == has_ints(*table, col as int),
{
    table.batch.column(col).as_any().downcast_ref::<Int32Array>().is_some()
}

/// `Int32Array::value`: the integer in a row, whether or not it is null.
#[verifier::external_body]
pub(crate) fn int_value(table: &Table, col: usize, row: usize) -> (r: i32)
    requires
        has_ints(*table, col as int),
        row < table_rows(*table),
    ensures
        r == int_cell(*table, col as int, row as int).value,
{
    table.batch.column(col).as_any().downcast_ref::<Int32Array>().expect("integer column").value(row)
}

/// `Array::is_null` on an `Int32Array`.
#[verifier::external_body]
pub(crate) fn int_is_null(table: &Table, col: usize, row: usize) -> (r: bool)
    requires
        has_ints(*table, col as int),
        row < table_rows(*table),
    ensures
        r == !int_cell(*table, col as int, row as int).valid,
{
    table.batch.column(col).as_any().downcast_ref::<Int32Array>().expect("integer column").is_null(row)
}

/// `RecordBatch::column` and a downcast to `TimestampMillisecondArray`: whether the
/// column holds instants in milliseconds.
#[verifier::external_body]
pub(crate) fn is_millis(table: &Table, col: usize) -> (r: bool)
    requires
        col < table_columns(*table).len(),
    ensures
        r == (table_columns(*table)[col as int].cells is Millis),
        r == has_millis(*table, col as int),
{
    table.batch.column(col).as_any().downcast_ref::<TimestampMillisecondArray>().is_some()
}

/// `TimestampMillisecondArray::value`: the instant in a row, whether or not it is
/// null.
#[verifier::external_body]
pub(crate) fn millis_value(table: &Table, col: usize, row: usize) -> (r: i64)
    requires
        has_millis(*table, col as int),
        row < table_rows(*table),
    ensures
        r == millis_cell(*table, col as int, row as int).value,
{
    table.batch.column(col).as_any().downcast_ref::<TimestampMillisecondArray>().expect("time column").value(row)
}

/// `Array::is_null` on a `TimestampMillisecondArray`.
#[verifier::external_body]
pub(crate) fn millis_is_null(table: &Table, col: usize, row: usize) -> (r: bool)
    requires
        has_millis(*table, col as int),
        row < table_rows(*table),
    ensures
        r == !millis_cell(*table, col as int, row as int).valid,
{
    table.batch.column(col).as_any().downcast_ref::<TimestampMillisecondArray>().expect("time column").is_null(row)
}

/// `RecordBatch::column` and a downcast to `ListArray`: whether the column holds
/// lists.
#[verifier::external_body]
pub(crate) fn is_lists(table: &Table, col: usize) -> (r: bool)
    requires
        col < table_columns(*table).len(),
    ensures
        r == (table_columns(*table)[col as int].cells is List),
        r == has_lists(*table, col as int),
{
    table.batch.column(col).as_any().downcast_ref::<ListArray>().is_some()
}

/// `Array::is_null` on a `ListArray`.
#[verifier::external_body]
pub(crate) fn list_is_null(table: &Table, col: usize, row: usize) -> (r: bool)
    requires
        has_lists(*table, col as int),
        row < table_rows(*table),
    ensures
        r == !list_cell(*table, col as int, row as int).valid,
{
    table.batch.column(col).as_any().downcast_ref::<ListArray>().expect("list column").is_null(row)
}

/// `ListArray::value`: how many values the list in a row has, whether or not it is
/// null.
#[verifier::external_body]
pub(crate) fn list_value_len(table: &Table, col: usize, row: usize) -> (r: usize)
    requires
        has_lists(*table, col as int),
        row < table_rows(*table),
    ensures
        r == list_len(list_cell(*table, col as int, row as int).value),
{
    table.batch.column(col).as_any().downcast_ref::<ListArray>().expect("list column").value(row).len()
}

/// `ListArray::value` and a downcast to `StringArray`: whether the list in a row
/// holds texts.
#[verifier::external_body]
pub(crate) fn list_is_text(table: &Table, col: usize, row: usize) -> (r: bool)
    requires
        has_lists(*table, col as int),
        row < table_rows(*table),
    ensures
        r == (list_cell(*table, col as int, row as int).value is Texts),
{
    let list = table.batch.column(col).as_any().downcast_ref::<ListArray>().expect("list column");
    list.value(row).as_any().downcast_ref::<StringArray>().is_some()
}

/// `ListArray::value` and `StringArray::value`: one text of the list in a row,
/// whether or not it is null.
#[verifier::external_body]
pub(crate) fn list_text_value(table: &Table, col: usize, row: usize, at: usize) -> (r: String)
    requires
        has_lists(*table, col as int),
        row < table_rows(*table),
        list_cell(*table, col as int, row as int).value is Texts,
        at < list_len(list_cell(*table, col as int, row as int).value),
    ensures
        r@ == list_cell(*table, col as int, row as int).value->Texts_0[at as int].value,
{
    let list = table.batch.column(col).as_any().downcast_ref::<ListArray>().expect("list column");
    list.value(row).as_any().downcast_ref::<StringArray>().expect("texts").value(at).to_string()
}

/// `ListArray::value` and `Array::is_null`: whether one text of the list in a row is
/// null.
#[verifier::external_body]
pub(crate) fn list_text_is_null(table: &Table, col: usize, row: usize, at: usize) -> (r: bool)
    requires
        has_lists(*table, col as int),
        row < table_rows(*table),
        list_cell(*table, col as int, row as int).value is Texts,
        at < list_len(list_cell(*table, col as int, row as int).value),
    ensures
        r == !list_cell(*table, col as int, row as int).value->Texts_0[at as int].valid,
{
    let list = table.batch.column(col).as_any().downcast_ref::<ListArray>().expect("list column");
    list.value(row).as_any().downcast_ref::<StringArray>().expect("texts").is_null(at)
}

/// `RecordBatch::column` and a downcast to `FixedSizeListArray`: whether the column
/// holds vectors of one length.
#[verifier::external_body]
pub(crate) fn is_vectors(table: &Table, col: usize) -> (r: bool)
    requires
        col < table_columns(*table).len(),
    ensures
        r == (table_columns(*table)[col as int].cells is Vector),
        r == has_vectors(*table, col as int),
{
    table.batch.column(col).as_any().downcast_ref::<FixedSizeListArray>().is_some()
}

/// `Array::is_null` on a `FixedSizeListArray`.
#[verifier::external_body]
pub(crate) fn vector_is_null(table: &Table, col: usize, row: usize) -> (r: bool)
    requires
        has_vectors(*table, col as int),
        row < table_rows(*table),
    ensures
        r == !vector_cell(*table, col as int, row as int),
{
    table.batch.column(col).as_any().downcast_ref::<FixedSizeListArray>().expect("vector column").is_null(row)
}

// ---- texts of a list -----------------------------------------------------------------------

/// Whether the list in a row can be read as texts: it is null, empty or holds texts.
pub open spec fn readable_list(cell: Cell<ListItems>) -> bool {
    cell.valid ==> cell.value is Texts || list_len(cell.value) == 0
}

/// The texts of the list in a row; a null list has none.
pub open spec fn list_texts(cell: Cell<ListItems>) -> Seq<Seq<char>> {
    if cell.valid && list_len(cell.value) > 0 {
        Seq::new(
            cell.value->Texts_0.len(),
            |i: int| cell.value->Texts_0[i].value,
        )
    } else {
        Seq::empty()
    }
}

pub fn extract_list_values(table: &Table, col: usize, row: usize) -> (r: Vec<String>)
    requires
        has_lists(*table, col as int),
        row < table_rows(*table),
        readable_list(list_cell(*table, col as int, row as int)),
    ensures
        text::views(r@) == list_texts(list_cell(*table, col as int, row as int)),
{
    let ghost list = list_cell(*table, col as int, row as int);
    let mut r: Vec<String> = Vec::new();
    if list_is_null(table, col, row) {
        assert(text::views(r@) =~= list_texts(list));
        return r;
    }
    let n: usize = list_value_len(table, col, row);
    let mut i: usize = 0;
    while i < n
        invariant
            i <= n,
            has_lists(*table, col as int),
            row < table_rows(*table),
            list == list_cell(*table, col as int, row as int),
            readable_list(list),
            list.valid,
            n == list_len(list.value),
            r@.len() == i,
            forall|k: int|
                0 <= k < i ==> (#[trigger] r@[k])@ == list.value->Texts_0[k].value,
        decreases n - i,
    {
        r.push(list_text_value(table, col, row, i));
        i = i + 1;
    }
    assert(text::views(r@) =~= list_texts(list));
    r
}

/// Whether the lists of all rows of a column can be read as texts.
pub open spec fn has_text_lists(table: Table, col: int) -> bool {
    has_lists(table, col) && forall|row: int|
        0 <= row < table_rows(table) ==> readable_list(#[trigger] list_cell(table, col, row))
}

/// Whether column `col` exists and its lists can be read as texts.
pub fn is_text_lists(table: &Table, col: usize) -> (r: bool)
    ensures
        r == has_text_lists(*table, col as int),
{
    if col >= num_columns(table) || !is_lists(table, col) {
        return false;
    }
    let n: usize = num_rows(table);
    let mut row: usize = 0;
    while row < n
        invariant
            row <= n,
            n == table_rows(*table),
            has_lists(*table, col as int),
            forall|k: int|
                0 <= k < row ==> readable_list(#[trigger] list_cell(*table, col as int, k)),
        decreases n - row,
    {
        if !list_is_null(table, col, row) && list_value_len(table, col, row) > 0 && !list_is_text(
            table,
            col,
            row,
        ) {
            assert(!readable_list(list_cell(*table, col as int, row as int)));
            return false;
        }
        row = row + 1;
    }
    true
}

// ---- schemas ----------------------------------------------------------------------------

/// The types of columns.
#[derive(Debug, Clone, Copy, PartialEq, Eq, Structural)]
pub enum FieldKind {
    Text,
    Flag,
    /// Integers of 32 bits.
    Int,
    /// Instants in milliseconds, marked as UTC.
    Millis,
    /// Numbers of other widths.
    Number,
    /// Lists of texts.
    TextList,
    /// Vectors of floating-point numbers, all of one length.
    Vector,
    /// Any other type.
    Other,
}

/// The description of a column.
#[verifier::ext_equal]
pub struct FieldView {
    pub name: Seq<char>,
    pub kind: FieldKind,
    pub nullable: bool,
}

/// The fields of a schema.
pub uninterp spec fn schema_fields(schema: Schema) -> Seq<FieldView>;

/// What the field of a new schema holds.
#[derive(Debug)]
pub enum NewType {
    Text,
    Flag,
    /// Instants in milliseconds, with their zone.
    Instant(String),
}

/// The type of column that the field of a new schema describes.
pub open spec fn new_kind(data: NewType) -> FieldKind {
    match data {
        NewType::Text => FieldKind::Text,
        NewType::Flag => FieldKind::Flag,
        NewType::Instant(zone) => if zone@ == "UTC"@ {
            FieldKind::Millis
        } else {
            FieldKind::Other
        },
    }
}

/// What a field says of its column.
pub uninterp spec fn field_view(field: Field) -> FieldView;

pub open spec fn field_views(fields: Seq<Field>) -> Seq<FieldView> {
    Seq::new(fields.len(), |i: int| field_view(fields[i]))
}

/// `Field::new`: a field with a name, a data type, and nulls or none.
#[verifier::external_body]
pub(crate) fn make_field(name: &str, data: NewType, nullable: bool) -> (r: Field)
    ensures
        field_view(r) == (FieldView { name: name@, kind: new_kind(data), nullable }),
{
    let data_type = match data {
        NewType::Text => DataType::Utf8,
        NewType::Flag => DataType::Boolean,
        NewType::Instant(zone) => DataType::Timestamp(TimeUnit::Millisecond, Some(zone.into())),
    };
    Field::new(name, data_type, nullable)
}

/// `Schema::new`: the schema of some fields, in their order.
#[verifier::external_body]
pub(crate) fn make_schema(fields: Vec<Field>) -> (r: Arc<Schema>)
    ensures
        schema_fields(*r) == field_views(fields@),
{
    Arc::new(Schema::new(fields))
}

/// `Schema::fields`: how many fields a schema has.
#[verifier::external_body]
pub(crate) fn field_count(schema: &Schema) -> (r: usize)
    ensures
        r == schema_fields(*schema).len(),
{
    schema.fields().len()
}

/// What a data type is made of.
#[derive(Debug)]
pub enum Shape {
    Text,
    Flag,
    Int,
    /// Instants in milliseconds, with their zone.
    Instant(Option<String>),
    /// Numbers of other widths.
    Number,
    /// Lists of texts.
    TextList,
    /// Vectors of floating-point numbers, with their length.
    Vector(i32),
    Other,
}

/// The type of column that a data type is.
pub open spec fn kind_of(shape: Shape) -> FieldKind {
    match shape {
        Shape::Text => FieldKind::Text,
        Shape::Flag => FieldKind::Flag,
        Shape::Int => FieldKind::Int,
        Shape::Instant(zone) => if relation_vocab::option_view(zone) == Some("UTC"@) {
            FieldKind::Millis
        } else {
            FieldKind::Other
        },
        Shape::Number => FieldKind::Number,
        Shape::TextList => FieldKind::TextList,
        Shape::Vector(length) => if length > 0 {
            FieldKind::Vector
        } else {
            FieldKind::Other
        },
        Shape::Other => FieldKind::Other,
    }
}

/// `Schema::field` and its data type: what the type of a field is made of.
#[verifier::external_body]
pub(crate) fn field_shape(schema: &Schema, at: usize) -> (r: Shape)
    requires
        at < schema_fields(*schema).len(),
    ensures
        kind_of(r) == schema_fields(*schema)[at as int].kind,
{
    match schema.field(at).data_type() {
        DataType::Utf8 => Shape::Text,
        DataType::Boolean => Shape::Flag,
        DataType::Int32 => Shape::Int,
        DataType::Timestamp(TimeUnit::Millisecond, zone) => Shape::Instant(zone.as_deref().map(str::to_owned)),
        DataType::List(f) if matches!(f.data_type(), DataType::Utf8) => Shape::TextList,
        DataType::FixedSizeList(f, n) if matches!(f.data_type(), DataType::Float32) => Shape::Vector(*n),
        DataType::Int8 | DataType::Int16 | DataType::Int64 => Shape::Number,
        DataType::UInt8 | DataType::UInt16 | DataType::UInt32 | DataType::UInt64 => Shape::Number,
        DataType::Float16 | DataType::Float32 | DataType::Float64 => Shape::Number,
        _ => Shape::Other,
    }
}

/// Of which type a field is.
pub fn field_kind(schema: &Schema, at: usize) -> (r: FieldKind)
    requires
        at < schema_fields(*schema).len(),
    ensures
        r == schema_fields(*schema)[at as int].kind,
{
    match field_shape(schema, at) {
        Shape::Text => FieldKind::Text,
        Shape::Flag => FieldKind::Flag,
        Shape::Int => FieldKind::Int,
        Shape::Instant(Some(zone)) => if text::same(zone.as_str(), "UTC") {
            FieldKind::Millis
        } else {
            FieldKind::Other
        },
        Shape::Instant(None) => FieldKind::Other,
        Shape::Number => FieldKind::Number,
        Shape::TextList => FieldKind::TextList,
        Shape::Vector(length) => if length > 0 {
            FieldKind::Vector
        } else {
            FieldKind::Other
        },
        Shape::Other => FieldKind::Other,
    }
}

/// Whether all cells are valid.
pub open spec fn all_valid<T>(cells: Seq<Cell<T>>) -> bool {
    forall|i: int| 0 <= i < cells.len() ==> (#[trigger] cells[i]).valid
}

/// Whether a column has no nulls.
pub open spec fn without_nulls(cells: Cells) -> bool {
    match cells {
        Cells::Text(s) => all_valid(s),
        Cells::Flag(s) => all_valid(s),
        Cells::Int(s) => all_valid(s),
        Cells::Millis(s, _) => all_valid(s),
        Cells::List(s) => all_valid(s),
        Cells::Vector(s) => forall|i: int| 0 <= i < s.len() ==> #[trigger] s[i],
        Cells::Other(s) => forall|i: int| 0 <= i < s.len() ==> #[trigger] s[i],
    }
}

/// Whether cells are of the one data type that a kind of field stands for. Lists, vectors
/// and values of other types are of no such kind.
pub open spec fn is_of_kind(cells: Cells, kind: FieldKind) -> bool {
    match cells {
        Cells::Text(_) => kind == FieldKind::Text,
        Cells::Flag(_) => kind == FieldKind::Flag,
        Cells::Int(_) => kind == FieldKind::Int,
        Cells::Millis(_, utc) => utc && kind == FieldKind::Millis,
        _ => false,
    }
}

/// Whether cells may stand under a field.
pub open spec fn cells_fit(field: FieldView, cells: Cells) -> bool {
    is_of_kind(cells, field.kind) && (field.nullable || without_nulls(cells))
}

/// Whether columns are known to fit a schema: there are as many as fields, at least
/// one, and each has the type of its field and no nulls where there may be none.
pub open spec fn columns_fit(fields: Seq<FieldView>, cells: Seq<Cells>) -> bool {
    &&& fields.len() == cells.len()
    &&& fields.len() > 0
    &&& forall|c: int| 0 <= c < fields.len() ==> cells_fit(#[trigger] fields[c], cells[c])
}

/// Columns under the names of a schema's fields.
pub open spec fn named_columns(fields: Seq<FieldView>, cells: Seq<Cells>) -> Seq<ColumnView> {
    Seq::new(cells.len(), |c: int| (ColumnView { name: fields[c].name, cells: cells[c] }))
}

pub open spec fn cells_of(columns: Seq<ColumnView>) -> Seq<Cells> {
    Seq::new(columns.len(), |c: int| columns[c].cells)
}

// ---- building -----------------------------------------------------------------------------

/// A valid cell.
pub open spec fn cell<T>(value: T) -> Cell<T> {
    Cell { valid: true, value }
}

/// Whether a text can stand in a column: the positions in it are counted in 32 bits.
pub open spec fn can_stand(s: Seq<char>) -> bool {
    vstd::utf8::encode_utf8(s).len() <= i32::MAX
}

/// No character takes more than four bytes.
pub proof fn lemma_encoded_length(s: Seq<char>)
    ensures
        vstd::utf8::encode_utf8(s).len() <= 4 * s.len(),
    decreases s.len(),
{
    if s.len() > 0 {
        lemma_encoded_length(s.drop_first());
    }
}

/// The cells of a column of flags without nulls.
pub open spec fn flag_cells(flags: Seq<bool>) -> Cells {
    Cells::Flag(Seq::new(flags.len(), |i: int| cell(flags[i])))
}

/// One cell of a column, as a column.
pub open spec fn one_cell(cells: Cells, row: int) -> Cells {
    match cells {
        Cells::Text(s) => Cells::Text(seq![s[row]]),
        Cells::Flag(s) => Cells::Flag(seq![s[row]]),
        Cells::Int(s) => Cells::Int(seq![s[row]]),
        Cells::Millis(s, utc) => Cells::Millis(seq![s[row]], utc),
        Cells::List(s) => Cells::List(seq![s[row]]),
        Cells::Vector(s) => Cells::Vector(seq![s[row]]),
        Cells::Other(s) => Cells::Other(seq![s[row]]),
    }
}

pub open spec fn one_row(columns: Seq<ColumnView>, row: int) -> Seq<ColumnView> {
    Seq::new(
        columns.len(),
        |c: int|
            (ColumnView { name: columns[c].name, cells: one_cell(columns[c].cells, row) }),
    )
}

/// `RecordBatch::slice` of length one: the table of one of a table's rows.
#[verifier::external_body]
pub(crate) fn table_row(table: &Table, row: usize) -> (r: Table)
    requires
        row < table_rows(*table),
    ensures
        table_rows(r) == 1,
        table_columns(r) == one_row(table_columns(*table), row as int),
{
    Table { batch: table.batch.slice(row, 1) }
}

/// `RecordBatch::clone`: a table with the same columns.
#[verifier::external_body]
pub(crate) fn copy_table(table: &Table) -> (r: Table)
    ensures
        table_rows(r) == table_rows(*table),
        table_columns(r) == table_columns(*table),
{
    Table { batch: table.batch.clone() }
}

/// Whether a column of a table has the data type of a schema's field.
pub uninterp spec fn same_type(table: Table, col: int, schema: Schema, field: int) -> bool;

/// `DataType::eq` on the type of a column and that of a field: whether they are equal.
#[verifier::external_body]
pub(crate) fn type_matches(table: &Table, col: usize, schema: &Schema, field: usize) -> (r: bool)
    requires
        col < table_columns(*table).len(),
        field < schema_fields(*schema).len(),
    ensures
        r == same_type(*table, col as int, *schema, field as int),
{
    table.batch.column(col).data_type() == schema.field(field).data_type()
}

/// Whether the columns of a table have the types of a schema's first fields.
pub open spec fn has_types(table: Table, schema: Schema) -> bool {
    &&& table_columns(table).len() <= schema_fields(schema).len()
    &&& forall|c: int|
        0 <= c < table_columns(table).len() ==> #[trigger] same_type(table, c, schema, c)
}

/// Whether the columns of a table have the types of a schema's first fields.
pub fn check_types(table: &Table, schema: &Schema) -> (r: bool)
    ensures
        r == has_types(*table, *schema),
{
    let n: usize = num_columns(table);
    if n > field_count(schema) {
        return false;
    }
    let mut c: usize = 0;
    while c < n
        invariant
            c <= n,
            n == table_columns(*table).len(),
            n <= schema_fields(*schema).len(),
            forall|k: int| 0 <= k < c ==> #[trigger] same_type(*table, k, *schema, k),
        decreases n - c,
    {
        if !type_matches(table, c, schema, c) {
            return false;
        }
        c = c + 1;
    }
    true
}

/// A null cell.
pub open spec fn null<T>(value: T) -> Cell<T> {
    Cell { valid: false, value }
}

/// A column of nulls.
pub open spec fn null_cells(kind: FieldKind, rows: nat) -> Cells {
    match kind {
        FieldKind::Text => Cells::Text(Seq::new(rows, |i: int| null(Seq::empty()))),
        FieldKind::Flag => Cells::Flag(Seq::new(rows, |i: int| null(false))),
        FieldKind::Int => Cells::Int(Seq::new(rows, |i: int| null(0i32))),
        FieldKind::Millis => Cells::Millis(Seq::new(rows, |i: int| null(0i64)), true),
        FieldKind::TextList => Cells::List(
            Seq::new(rows, |i: int| null(ListItems::Texts(Seq::empty()))),
        ),
        FieldKind::Vector => Cells::Vector(Seq::new(rows, |i: int| false)),
        _ => Cells::Other(Seq::new(rows, |i: int| false)),
    }
}

/// The columns of a table under the names of a schema's fields, with columns of nulls for
/// the fields that it has none for.
pub open spec fn padded(fields: Seq<FieldView>, before: Seq<ColumnView>, rows: nat) -> Seq<
    ColumnView,
> {
    Seq::new(
        fields.len(),
        |c: int|
            (ColumnView {
                name: fields[c].name,
                cells: if c < before.len() {
                    before[c].cells
                } else {
                    null_cells(fields[c].kind, rows)
                },
            }),
    )
}

/// Whether a table can be given the columns that a schema has beyond its own: its columns
/// have the types of the first fields and no nulls where there may be none, and the
/// further columns may be null unless there are no rows.
pub open spec fn can_be_padded(table: Table, schema: Schema) -> bool {
    let fields = schema_fields(schema);
    let before = table_columns(table);
    &&& has_types(table, schema)
    &&& forall|c: int|
        0 <= c < before.len() ==> (#[trigger] fields[c]).nullable || without_nulls(before[c].cells)
    &&& forall|c: int|
        before.len() <= c < fields.len() ==> (#[trigger] fields[c]).nullable || table_rows(table)
            == 0
}

// ---- columns on their own ---------------------------------------------------------------

/// One column: an array of the `arrow` crate.
#[verifier::external_body]
pub struct Column {
    array: ArrayRef,
}

/// The cells of a column.
pub uninterp spec fn column_cells(column: Column) -> Cells;

/// Whether a column has the data type of a schema's field.
pub uninterp spec fn column_has_type(column: Column, schema: Schema, field: int) -> bool;

pub open spec fn cells_len(cells: Cells) -> nat {
    match cells {
        Cells::Text(s) => s.len(),
        Cells::Flag(s) => s.len(),
        Cells::Int(s) => s.len(),
        Cells::Millis(s, _) => s.len(),
        Cells::List(s) => s.len(),
        Cells::Vector(s) => s.len(),
        Cells::Other(s) => s.len(),
    }
}

/// Whether a kind of field stands for one data type.
pub open spec fn is_one_type(kind: FieldKind) -> bool {
    kind == FieldKind::Text || kind == FieldKind::Flag || kind == FieldKind::Int || kind
        == FieldKind::Millis
}

/// Whether cells tell their data type.
pub open spec fn tell_type(cells: Cells) -> bool {
    cells is Text || cells is Flag || cells is Int || (cells is Millis && cells->Millis_1)
}

/// Whether a column has the type of a field exactly where its cells are of the field's
/// kind, as far as cells or kind tell the type.
pub open spec fn types_agree(column: Column) -> bool {
    forall|schema: Schema, field: int|
        0 <= field < schema_fields(schema).len() && (is_one_type(schema_fields(schema)[field].kind)
            || tell_type(column_cells(column))) ==> #[trigger] column_has_type(
            column,
            schema,
            field,
        ) == is_of_kind(column_cells(column), schema_fields(schema)[field].kind)
}

/// Whether a column is one of a table's.
pub open spec fn is_column_of(column: Column, table: Table, col: int) -> bool {
    &&& column_cells(column) == table_columns(table)[col].cells
    &&& cells_len(column_cells(column)) == table_rows(table)
    &&& types_agree(column)
    &&& forall|schema: Schema, field: int|
        0 <= field < schema_fields(schema).len() ==> #[trigger] column_has_type(
            column,
            schema,
            field,
        ) == same_type(table, col, schema, field)
}

/// `RecordBatch::column`: one column of a table. It is as long as the table.
#[verifier::external_body]
pub(crate) fn table_column(table: &Table, col: usize) -> (r: Column)
    requires
        col < table_columns(*table).len(),
    ensures
        is_column_of(r, *table, col as int),
{
    Column { array: table.batch.column(col).clone() }
}

/// `StringArray::from` of one text: a column of one row. A text whose bytes cannot be
/// counted in 32 bits is left out: the call panics on it.
#[verifier::external_body]
pub(crate) fn text_column(value: &str) -> (r: Column)
    requires
        can_stand(value@),
    ensures
        column_cells(r) == Cells::Text(seq![cell(value@)]),
        types_agree(r),
{
    Column { array: Arc::new(StringArray::from(vec![value])) }
}

/// `TimestampMillisecondArray::from` of one instant, marked with a zone: a column of
/// one row.
#[verifier::external_body]
pub(crate) fn instant_column(millis: i64, zone: &str) -> (r: Column)
    ensures
        column_cells(r) == Cells::Millis(seq![cell(millis)], zone@ == "UTC"@),
        types_agree(r),
{
    Column { array: Arc::new(TimestampMillisecondArray::from(vec![millis]).with_timezone(zone)) }
}

/// `BooleanArray::from`: a column of flags, one per row.
#[verifier::external_body]
pub(crate) fn flags_column(flags: Vec<bool>) -> (r: Column)
    ensures
        column_cells(r) == flag_cells(flags@),
        types_agree(r),
{
    Column { array: Arc::new(BooleanArray::from(flags)) }
}

/// `new_null_array` for the data type of a field: a column of nulls of that type.
#[verifier::external_body]
pub(crate) fn null_column(schema: &Schema, field: usize, rows: usize) -> (r: Column)
    requires
        field < schema_fields(*schema).len(),
        schema_fields(*schema)[field as int].kind != FieldKind::Other,
    ensures
        column_cells(r) == null_cells(schema_fields(*schema)[field as int].kind, rows as nat),
        column_has_type(r, *schema, field as int),
{
    Column { array: arrow::array::new_null_array(schema.field(field).data_type(), rows) }
}

/// The cells of columns, in their order.
pub open spec fn all_cells(columns: Seq<Column>) -> Seq<Cells> {
    Seq::new(columns.len(), |c: int| column_cells(columns[c]))
}

/// Whether columns make a table of a schema: there are as many as fields, at least one, all
/// are of one length, and each has the type of its field and no nulls where there may be
/// none.
pub open spec fn make_table(columns: Seq<Column>, schema: Schema) -> bool {
    let fields = schema_fields(schema);
    &&& columns.len() == fields.len()
    &&& columns.len() > 0
    &&& forall|c: int|
        0 <= c < columns.len() ==> cells_len(column_cells(#[trigger] columns[c])) == cells_len(
            column_cells(columns[0]),
        )
    &&& forall|c: int|
        0 <= c < columns.len() ==> column_has_type(#[trigger] columns[c], schema, c)
    &&& forall|c: int|
        0 <= c < columns.len() ==> fields[c].nullable || without_nulls(
            column_cells(#[trigger] columns[c]),
        )
}

/// `RecordBatch::try_new`: a table of some columns. It fails exactly where their number,
/// their lengths, their types or their nulls do not suit the schema, or where there are no
/// columns.
#[verifier::external_body]
pub(crate) fn build_table(schema: &Schema, columns: Vec<Column>) -> (r: Result<Table, ArrowError>)
    ensures
        r is Ok == make_table(columns@, *schema),
        r is Ok ==> table_rows(r->Ok_0) == cells_len(column_cells(columns@[0]))
            && table_columns(r->Ok_0) == named_columns(
            schema_fields(*schema),
            all_cells(columns@),
        ),
{
    let arrays = columns.into_iter().map(|column| column.array).collect();
    RecordBatch::try_new(Arc::new(schema.clone()), arrays).map(|batch| Table { batch })
}

/// The columns of a table, one by one.
fn columns_of(table: &Table) -> (r: Vec<Column>)
    ensures
        r@.len() == table_columns(*table).len(),
        forall|c: int| 0 <= c < r@.len() ==> is_column_of(#[trigger] r@[c], *table, c),
{
    let n: usize = num_columns(table);
    let mut columns: Vec<Column> = Vec::new();
    let mut c: usize = 0;
    while c < n
        invariant
            c <= n,
            n == table_columns(*table).len(),
            columns@.len() == c,
            forall|k: int| 0 <= k < c ==> is_column_of(#[trigger] columns@[k], *table, k),
        decreases n - c,
    {
        columns.push(table_column(table, c));
        c = c + 1;
    }
    columns
}

// ---- tables from tables -------------------------------------------------------------------

/// Whether a column of a table can stay as it is under a field of a schema.
pub open spec fn column_stays(table: Table, col: int, schema: Schema) -> bool {
    same_type(table, col, schema, col) && (schema_fields(schema)[col].nullable || without_nulls(
        table_columns(table)[col].cells,
    ))
}

/// Whether a table can stand under a schema with one of its columns replaced by flags.
pub open spec fn can_be_flagged(table: Table, schema: Schema, col: int) -> bool {
    &&& table_columns(table).len() == schema_fields(schema).len()
    &&& schema_fields(schema)[col].kind == FieldKind::Flag
    &&& forall|c: int|
        0 <= c < table_columns(table).len() && c != col ==> #[trigger] column_stays(
            table,
            c,
            schema,
        )
}

/// Whether every field of a schema is of a kind that stands for one data type.
pub open spec fn has_plain_fields(fields: Seq<FieldView>) -> bool {
    forall|i: int| 0 <= i < fields.len() ==> is_one_type((#[trigger] fields[i]).kind)
}

/// A table with one of its columns replaced by flags. It fails exactly where another
/// column cannot stay, or where the flags cannot stand in their place; whether the cells fit
/// tells that, unless the schema has lists, vectors or values of other types.
pub(crate) fn with_flags(schema: &Schema, table: &Table, col: usize, flags: Vec<bool>) -> (r:
    Result<Table, ArrowError>)
    requires
        col < table_columns(*table).len(),
        flags@.len() == table_rows(*table),
    ensures
        r is Ok == can_be_flagged(*table, *schema, col as int),
        has_plain_fields(schema_fields(*schema)) ==> r is Ok == columns_fit(
            schema_fields(*schema),
            cells_of(table_columns(*table)).update(col as int, flag_cells(flags@)),
        ),
        r is Ok ==> table_rows(r->Ok_0) == table_rows(*table) && table_columns(r->Ok_0)
            == named_columns(
            schema_fields(*schema),
            cells_of(table_columns(*table)).update(col as int, flag_cells(flags@)),
        ),
{
    let mut columns: Vec<Column> = columns_of(table);
    let ghost before = columns@;
    let ghost cells = cells_of(table_columns(*table)).update(col as int, flag_cells(flags@));
    let column: Column = flags_column(flags);
    let ghost flagged = column;
    columns.set(col, column);
    proof {
        assert(columns@ =~= before.update(col as int, flagged));
        assert(all_cells(columns@) =~= cells);
        lemma_flagged(columns@, *table, *schema, col as int);
    }
    build_table(schema, columns)
}

proof fn lemma_flagged(columns: Seq<Column>, table: Table, schema: Schema, col: int)
    requires
        0 <= col < columns.len(),
        columns.len() == table_columns(table).len(),
        forall|c: int|
            0 <= c < columns.len() && c != col ==> is_column_of(#[trigger] columns[c], table, c),
        column_cells(columns[col]) is Flag,
        without_nulls(column_cells(columns[col])),
        cells_len(column_cells(columns[col])) == table_rows(table),
        types_agree(columns[col]),
    ensures
        make_table(columns, schema) == can_be_flagged(table, schema, col),
        has_plain_fields(schema_fields(schema)) ==> make_table(columns, schema) == columns_fit(
            schema_fields(schema),
            all_cells(columns),
        ),
        cells_len(column_cells(columns[0])) == table_rows(table),
{
    let fields = schema_fields(schema);
    assert forall|c: int| 0 <= c < columns.len() implies cells_len(
        column_cells(#[trigger] columns[c]),
    ) == table_rows(table) by {}
    if columns.len() == fields.len() {
        assert forall|c: int| 0 <= c < columns.len() && c != col implies column_has_type(
            #[trigger] columns[c],
            schema,
            c,
        ) == same_type(table, c, schema, c) by {}
        assert(column_has_type(columns[col], schema, col) == (fields[col].kind == FieldKind::Flag));
        if make_table(columns, schema) {
            assert(column_has_type(columns[col], schema, col));
            assert forall|c: int| 0 <= c < columns.len() && c != col implies #[trigger]
                column_stays(table, c, schema) by {
                assert(column_has_type(columns[c], schema, c));
            }
        }
        if can_be_flagged(table, schema, col) {
            assert forall|c: int| 0 <= c < columns.len() implies column_has_type(
                #[trigger] columns[c],
                schema,
                c,
            ) && (fields[c].nullable || without_nulls(column_cells(columns[c]))) by {
                if c != col {
                    assert(column_stays(table, c, schema));
                }
            }
        }
        if has_plain_fields(fields) {
            lemma_plain_table(columns, &schema);
        }
    }
}

/// Columns of one length make a table of a schema with plain fields exactly where their
/// cells fit.
pub(crate) proof fn lemma_plain_table(columns: Seq<Column>, schema: &Schema)
    requires
        has_plain_fields(schema_fields(*schema)),
        columns.len() > 0,
        forall|c: int| 0 <= c < columns.len() ==> types_agree(#[trigger] columns[c]),
        forall|c: int|
            0 <= c < columns.len() ==> cells_len(column_cells(#[trigger] columns[c]))
                == cells_len(column_cells(columns[0])),
    ensures
        make_table(columns, *schema) == columns_fit(schema_fields(*schema), all_cells(columns)),
{
    let fields = schema_fields(*schema);
    let cells = all_cells(columns);
    if columns.len() == fields.len() {
        assert forall|c: int| 0 <= c < columns.len() implies column_has_type(
            #[trigger] columns[c],
            *schema,
            c,
        ) == is_of_kind(column_cells(columns[c]), fields[c].kind) by {
            assert(is_one_type(fields[c].kind));
        }
        if make_table(columns, *schema) {
            assert forall|c: int| 0 <= c < fields.len() implies cells_fit(
                #[trigger] fields[c],
                cells[c],
            ) by {
                assert(column_has_type(columns[c], *schema, c));
            }
        }
        if columns_fit(fields, cells) {
            assert forall|c: int| 0 <= c < columns.len() implies column_has_type(
                #[trigger] columns[c],
                *schema,
                c,
            ) && (fields[c].nullable || without_nulls(column_cells(columns[c]))) by {
                assert(cells_fit(fields[c], cells[c]));
            }
        }
    }
}

proof fn lemma_null_cells(kind: FieldKind, rows: nat)
    ensures
        cells_len(null_cells(kind, rows)) == rows,
        without_nulls(null_cells(kind, rows)) == (rows == 0),
{
    let cells = null_cells(kind, rows);
    if rows > 0 {
        match cells {
            Cells::Text(s) => assert(!s[0].valid),
            Cells::Flag(s) => assert(!s[0].valid),
            Cells::Int(s) => assert(!s[0].valid),
            Cells::Millis(s, _) => assert(!s[0].valid),
            Cells::List(s) => assert(!s[0].valid),
            Cells::Vector(s) => assert(!s[0]),
            Cells::Other(s) => assert(!s[0]),
        }
    }
}

/// Whether the fields beyond a table's columns are of types that the library knows.
pub open spec fn knows_further_fields(table: Table, schema: Schema) -> bool {
    forall|i: int|
        table_columns(table).len() <= i < schema_fields(schema).len() ==> (
        #[trigger] schema_fields(schema)[i]).kind != FieldKind::Other
}

/// Whether the fields beyond a table's columns are of types that the library knows.
pub fn has_known_further_fields(table: &Table, schema: &Schema) -> (r: bool)
    ensures
        r == knows_further_fields(*table, *schema),
{
    let n: usize = field_count(schema);
    let mut i: usize = num_columns(table);
    while i < n
        invariant
            table_columns(*table).len() <= i,
            n == schema_fields(*schema).len(),
            forall|k: int|
                table_columns(*table).len() <= k < i && k < n ==> (
                #[trigger] schema_fields(*schema)[k]).kind != FieldKind::Other,
        decreases n - i,
    {
        if field_kind(schema, i) == FieldKind::Other {
            assert(schema_fields(*schema)[i as int].kind == FieldKind::Other);
            return false;
        }
        i = i + 1;
    }
    true
}

/// A table with a column of nulls for every field of a schema beyond its own columns. It
/// fails exactly where a column does not have the type of its field, or has nulls that it
/// may not have.
pub(crate) fn pad_with_nulls(table: &Table, schema: &Schema) -> (r: Result<Table, ArrowError>)
    requires
        table_columns(*table).len() < schema_fields(*schema).len(),
        knows_further_fields(*table, *schema),
    ensures
        r is Ok == can_be_padded(*table, *schema),
        r is Ok ==> table_rows(r->Ok_0) == table_rows(*table) && table_columns(r->Ok_0) == padded(
            schema_fields(*schema),
            table_columns(*table),
            table_rows(*table),
        ),
{
    let rows: usize = num_rows(table);
    let n: usize = field_count(schema);
    let mut columns: Vec<Column> = columns_of(table);
    let ghost old_len = columns@.len();
    let mut c: usize = columns.len();
    while c < n
        invariant
            old_len == table_columns(*table).len(),
            old_len <= c <= n,
            n == schema_fields(*schema).len(),
            rows == table_rows(*table),
            knows_further_fields(*table, *schema),
            columns@.len() == c,
            forall|k: int| 0 <= k < old_len ==> is_column_of(#[trigger] columns@[k], *table, k),
            forall|k: int|
                old_len <= k < c ==> is_null_column(#[trigger] columns@[k], *schema, k, rows as nat),
        decreases n - c,
    {
        let column: Column = null_column(schema, c, rows);
        proof {
            lemma_null_cells(schema_fields(*schema)[c as int].kind, rows as nat);
        }
        columns.push(column);
        c = c + 1;
    }
    proof {
        lemma_padded(columns@, *table, *schema);
    }
    build_table(schema, columns)
}

/// Whether a column holds nulls of the type of a field.
spec fn is_null_column(column: Column, schema: Schema, field: int, rows: nat) -> bool {
    &&& column_cells(column) == null_cells(schema_fields(schema)[field].kind, rows)
    &&& cells_len(column_cells(column)) == rows
    &&& without_nulls(column_cells(column)) == (rows == 0)
    &&& column_has_type(column, schema, field)
}

proof fn lemma_padded(columns: Seq<Column>, table: Table, schema: Schema)
    requires
        columns.len() == schema_fields(schema).len(),
        table_columns(table).len() < columns.len(),
        forall|k: int|
            0 <= k < table_columns(table).len() ==> is_column_of(#[trigger] columns[k], table, k),
        forall|k: int|
            table_columns(table).len() <= k < columns.len() ==> is_null_column(
                #[trigger] columns[k],
                schema,
                k,
                table_rows(table),
            ),
    ensures
        make_table(columns, schema) == can_be_padded(table, schema),
        cells_len(column_cells(columns[0])) == table_rows(table),
        named_columns(schema_fields(schema), all_cells(columns)) == padded(
            schema_fields(schema),
            table_columns(table),
            table_rows(table),
        ),
{
    let fields = schema_fields(schema);
    let before = table_columns(table);
    assert forall|c: int| 0 <= c < columns.len() implies cells_len(
        column_cells(#[trigger] columns[c]),
    ) == table_rows(table) by {
        if c < before.len() {
            assert(is_column_of(columns[c], table, c));
        } else {
            assert(is_null_column(columns[c], schema, c, table_rows(table)));
        }
    }
    assert(named_columns(fields, all_cells(columns)) =~= padded(fields, before, table_rows(table)));
    if make_table(columns, schema) {
        assert forall|c: int| 0 <= c < before.len() implies #[trigger] same_type(
            table,
            c,
            schema,
            c,
        ) by {
            assert(column_has_type(columns[c], schema, c));
        }
        assert forall|c: int| 0 <= c < before.len() implies (#[trigger] fields[c]).nullable
            || without_nulls(before[c].cells) by {
            assert(is_column_of(columns[c], table, c));
        }
        assert forall|c: int| before.len() <= c < fields.len() implies (
        #[trigger] fields[c]).nullable || table_rows(table) == 0 by {
            assert(is_null_column(columns[c], schema, c, table_rows(table)));
        }
    }
    if can_be_padded(table, schema) {
        assert forall|c: int| 0 <= c < columns.len() implies column_has_type(
            #[trigger] columns[c],
            schema,
            c,
        ) && (fields[c].nullable || without_nulls(column_cells(columns[c]))) by {
            if c < before.len() {
                assert(is_column_of(columns[c], table, c));
                assert(same_type(table, c, schema, c));
            } else {
                assert(is_null_column(columns[c], schema, c, table_rows(table)));
            }
        }
    }
}

/// The `Display` text of an `ArrowError`. Nothing is said of it: the crate words its
/// messages.
#[verifier::external_body]
pub(crate) fn arrow_error_text(error: &ArrowError) -> (r: String) {
    error.to_string()
}

/// A column is found by its name: the first that has it, and none where none has.
pub proof fn law_columns_are_found_by_name(columns: Seq<ColumnView>, name: Seq<char>)
    ensures
        first_named(columns, name) matches Some(c) ==> 0 <= c < columns.len() && columns[c].name
            == name && forall|k: int| 0 <= k < c ==> (#[trigger] columns[k]).name != name,
        first_named(columns, name) is None ==> forall|k: int|
            0 <= k < columns.len() ==> (#[trigger] columns[k]).name != name,
    decreases columns.len(),
{
    if columns.len() > 0 {
        let init = columns.drop_last();
        law_columns_are_found_by_name(init, name);
        assert forall|k: int| 0 <= k < init.len() implies #[trigger] columns[k] == init[k] by {}
    }
}

/// The texts of a list are those of its elements, in their order; a list that is not there
/// has none.
pub proof fn law_lists_give_their_texts(cells: Seq<Cell<Seq<char>>>, i: int)
    ensures
        list_texts(Cell { valid: false, value: ListItems::Texts(cells) }).len() == 0,
        list_texts(Cell { valid: true, value: ListItems::Texts(cells) }).len() == cells.len(),
        0 <= i < cells.len() ==> list_texts(
            Cell { valid: true, value: ListItems::Texts(cells) },
        )[i] == cells[i].value,
{
}

} // verus!
