//! Bringing stored tables up to the current columns.
//!
//! A table that was written before columns were added is read with those columns full of
//! nulls.
use arrow::datatypes::Schema;
use arrow::error::ArrowError;
use vstd::prelude::*;
use crate::columns;
use crate::columns::{ColumnView, Table};
use crate::keyed;

verus! {

/// Whether a table comes up to a schema: it has columns enough, or can be given those that
/// it lacks.
pub open spec fn fits(table: Table, schema: Schema) -> bool {
    columns::table_columns(table).len() >= columns::schema_fields(schema).len()
        || columns::can_be_padded(table, schema)
}

/// The columns of a table that was brought up to a schema: its own where it has columns
/// enough, and else its own with columns of nulls after them.
pub open spec fn normalized(table: Table, schema: Schema) -> Seq<ColumnView> {
    if columns::table_columns(table).len() >= columns::schema_fields(schema).len() {
        columns::table_columns(table)
    } else {
        columns::padded(
            columns::schema_fields(schema),
            columns::table_columns(table),
            columns::table_rows(table),
        )
    }
}

/// Whether a table is another one brought up to a schema.
pub open spec fn is_normalized(table: Table, schema: Schema, after: Table) -> bool {
    &&& columns::table_rows(after) == columns::table_rows(table)
    &&& columns::table_columns(after) == normalized(table, schema)
}

/// Brings a table up to a schema. The fields that it lacks must be of types that the
/// library knows.
pub fn normalize_batch(table: &Table, schema: &Schema) -> (r: Result<Table, ArrowError>)
    requires
        columns::knows_further_fields(*table, *schema),
    ensures
        r is Ok == fits(*table, *schema),
        r is Ok ==> is_normalized(*table, *schema, r->Ok_0),
{
    if columns::num_columns(table) >= columns::field_count(schema) {
        return Ok(columns::copy_table(table));
    }
    columns::pad_with_nulls(table, schema)
}

/// Whether tables are others brought up to a schema, one by one.
pub open spec fn are_normalized(tables: Seq<Table>, schema: Schema, after: Seq<Table>) -> bool {
    &&& after.len() == tables.len()
    &&& forall|i: int|
        0 <= i < tables.len() ==> is_normalized(#[trigger] tables[i], schema, after[i])
}

/// Whether all tables come up to a schema.
pub open spec fn all_fit(tables: Seq<Table>, schema: Schema) -> bool {
    forall|i: int| 0 <= i < tables.len() ==> fits(#[trigger] tables[i], schema)
}

/// Whether the fields that tables lack are of types that the library knows.
pub open spec fn all_known(tables: Seq<Table>, schema: Schema) -> bool {
    forall|i: int|
        0 <= i < tables.len() ==> columns::knows_further_fields(#[trigger] tables[i], schema)
}

/// Brings tables up to a schema.
pub fn normalize_batches(tables: &Vec<Table>, schema: &Schema) -> (r: Result<
    Vec<Table>,
    ArrowError,
>)
    requires
        all_known(tables@, *schema),
    ensures
        r is Ok == all_fit(tables@, *schema),
        r is Ok ==> are_normalized(tables@, *schema, r->Ok_0@),
{
    let mut after: Vec<Table> = Vec::new();
    let mut i: usize = 0;
    while i < tables.len()
        invariant
            i <= tables@.len(),
            all_known(tables@, *schema),
            after@.len() == i,
            forall|k: int| 0 <= k < i ==> fits(#[trigger] tables@[k], *schema),
            forall|k: int|
                0 <= k < i ==> is_normalized(#[trigger] tables@[k], *schema, after@[k]),
        decreases tables@.len() - i,
    {
        match normalize_batch(&tables[i], schema) {
            Ok(table) => {
                after.push(table);
            },
            Err(error) => {
                assert(!fits(tables@[i as int], *schema));
                return Err(error);
            },
        }
        i = i + 1;
    }
    Ok(after)
}

/// The tables of a board.
pub struct BoardTables {
    pub items: Vec<Table>,
    pub runs: Vec<Table>,
    pub comments: Vec<Table>,
    pub relations: Vec<Table>,
}

impl BoardTables {
    /// Whether the comments of a loaded board are to be taken from its runs, where they
    /// stood before they had tables of their own: no table of comments was loaded.
    pub fn takes_comments_from_runs(&self) -> (r: bool)
        ensures
            r == self.lacks_comments(),
    {
        self.comments.len() == 0
    }

    pub open spec fn lacks_comments(self) -> bool {
        self.comments@.len() == 0
    }
}

/// The schemas of a board's tables.
pub struct BoardSchemas {
    pub items: Schema,
    pub runs: Schema,
    pub comments: Schema,
    pub relations: Schema,
}

/// Whether tables are what was stored, brought up to a schema; none where nothing was.
pub open spec fn is_loaded(stored: Option<Vec<Table>>, schema: Schema, after: Seq<Table>) -> bool {
    match stored {
        Some(tables) => are_normalized(tables@, schema, after),
        None => after.len() == 0,
    }
}

/// Whether what was stored, if anything was, comes up to a schema.
pub open spec fn can_load(stored: Option<Vec<Table>>, schema: Schema) -> bool {
    match stored {
        Some(tables) => all_fit(tables@, schema),
        None => true,
    }
}

fn load(stored: Option<&Vec<Table>>, schema: &Schema) -> (r: Result<Vec<Table>, ArrowError>)
    requires
        stored is Some ==> all_known(stored->0@, *schema),
    ensures
        r is Ok == (stored is Some ==> all_fit(stored->0@, *schema)),
        r is Ok ==> match stored {
            Some(tables) => are_normalized(tables@, *schema, r->Ok_0@),
            None => r->Ok_0@.len() == 0,
        },
{
    match stored {
        Some(tables) => normalize_batches(tables, schema),
        None => Ok(Vec::new()),
    }
}

/// The tables stored under a name.
pub open spec fn stored_as(stored: Seq<(String, Vec<Table>)>, name: Seq<char>) -> Option<
    Vec<Table>,
> {
    keyed::lookup_spec(keyed::pairs(stored), name)
}

/// Whether the fields that what was stored lacks, if anything was, are of types that the
/// library knows.
pub open spec fn is_known(stored: Option<Vec<Table>>, schema: Schema) -> bool {
    match stored {
        Some(tables) => all_known(tables@, schema),
        None => true,
    }
}

fn check_known(stored: Option<&Vec<Table>>, schema: &Schema) -> (r: bool)
    ensures
        r == (stored is Some ==> all_known(stored->0@, *schema)),
{
    let tables: &Vec<Table> = match stored {
        Some(tables) => tables,
        None => return true,
    };
    let mut i: usize = 0;
    while i < tables.len()
        invariant
            i <= tables@.len(),
            stored == Some(tables),
            forall|k: int|
                0 <= k < i ==> columns::knows_further_fields(#[trigger] tables@[k], *schema),
        decreases tables@.len() - i,
    {
        if !columns::has_known_further_fields(&tables[i], schema) {
            assert(!columns::knows_further_fields(tables@[i as int], *schema));
            return false;
        }
        i = i + 1;
    }
    true
}

/// Whether the fields that the stored tables of a board lack are of types that the library
/// knows.
pub open spec fn board_is_known(stored: Seq<(String, Vec<Table>)>, schemas: BoardSchemas) -> bool {
    &&& is_known(stored_as(stored, "items"@), schemas.items)
    &&& is_known(stored_as(stored, "runs"@), schemas.runs)
    &&& is_known(stored_as(stored, "item_comments"@), schemas.comments)
    &&& is_known(stored_as(stored, "relations"@), schemas.relations)
}

/// Whether the fields that the stored tables of a board lack are of types that the library
/// knows.
pub fn knows_board(stored: &Vec<(String, Vec<Table>)>, schemas: &BoardSchemas) -> (r: bool)
    ensures
        r == board_is_known(stored@, *schemas),
{
    check_known(keyed::lookup(stored, "items"), &schemas.items) && check_known(
        keyed::lookup(stored, "runs"),
        &schemas.runs,
    ) && check_known(keyed::lookup(stored, "item_comments"), &schemas.comments) && check_known(
        keyed::lookup(stored, "relations"),
        &schemas.relations,
    )
}

/// Whether all that was stored of a board comes up to its schemas.
pub open spec fn board_fits(stored: Seq<(String, Vec<Table>)>, schemas: BoardSchemas) -> bool {
    &&& can_load(stored_as(stored, "items"@), schemas.items)
    &&& can_load(stored_as(stored, "runs"@), schemas.runs)
    &&& can_load(stored_as(stored, "item_comments"@), schemas.comments)
    &&& can_load(stored_as(stored, "relations"@), schemas.relations)
}

/// Whether tables are those of a board as it was stored.
pub open spec fn is_board(
    stored: Seq<(String, Vec<Table>)>,
    schemas: BoardSchemas,
    board: BoardTables,
) -> bool {
    &&& is_loaded(stored_as(stored, "items"@), schemas.items, board.items@)
    &&& is_loaded(stored_as(stored, "runs"@), schemas.runs, board.runs@)
    &&& is_loaded(stored_as(stored, "item_comments"@), schemas.comments, board.comments@)
    &&& is_loaded(stored_as(stored, "relations"@), schemas.relations, board.relations@)
}

/// The tables of a board from what was stored under their names, each brought up to its
/// schema. Names that the board does not know are passed over. A board that comes out
/// without comments takes them from its runs next.
pub fn assemble(stored: &Vec<(String, Vec<Table>)>, schemas: &BoardSchemas) -> (r: Result<
    BoardTables,
    ArrowError,
>)
    requires
        board_is_known(stored@, *schemas),
    ensures
        r is Ok == board_fits(stored@, *schemas),
        r is Ok ==> is_board(stored@, *schemas, r->Ok_0),
{
    let items: Vec<Table> = match load(keyed::lookup(stored, "items"), &schemas.items) {
        Ok(tables) => tables,
        Err(error) => return Err(error),
    };
    let runs: Vec<Table> = match load(keyed::lookup(stored, "runs"), &schemas.runs) {
        Ok(tables) => tables,
        Err(error) => return Err(error),
    };
    let comments: Vec<Table> = match load(
        keyed::lookup(stored, "item_comments"),
        &schemas.comments,
    ) {
        Ok(tables) => tables,
        Err(error) => return Err(error),
    };
    let relations: Vec<Table> = match load(
        keyed::lookup(stored, "relations"),
        &schemas.relations,
    ) {
        Ok(tables) => tables,
        Err(error) => return Err(error),
    };
    Ok(BoardTables { items, runs, comments, relations })
}

/// A table that was written under the first fields of a schema comes up to it, where the
/// fields that were added since may be null.
pub proof fn law_older_tables_load(table: Table, schema: Schema)
    requires
        columns::has_types(table, schema),
        forall|c: int|
            0 <= c < columns::table_columns(table).len() ==> (#[trigger] columns::schema_fields(
                schema,
            )[c]).nullable || columns::without_nulls(columns::table_columns(table)[c].cells),
        forall|c: int|
            columns::table_columns(table).len() <= c < columns::schema_fields(schema).len() ==> (
            #[trigger] columns::schema_fields(schema)[c]).nullable,
    ensures
        fits(table, schema),
{
}

/// Whatever is added, the columns that a table has keep their cells.
pub proof fn law_normalizing_keeps_cells(table: Table, schema: Schema, after: Table, c: int)
    requires
        is_normalized(table, schema, after),
        0 <= c < columns::table_columns(table).len(),
    ensures
        columns::table_columns(after)[c].cells == columns::table_columns(table)[c].cells,
{
}

/// A table that was brought up to a schema stays as it is when that is done again.
pub proof fn law_normalizing_twice_changes_nothing(
    table: Table,
    schema: Schema,
    after: Table,
    again: Table,
)
    requires
        is_normalized(table, schema, after),
        is_normalized(after, schema, again),
    ensures
        columns::table_columns(again) == columns::table_columns(after),
        columns::table_rows(again) == columns::table_rows(after),
{
}

/// Whether tables are the same as others, one by one: as many rows, and the same columns.
pub open spec fn same_tables(tables: Seq<Table>, others: Seq<Table>) -> bool {
    &&& tables.len() == others.len()
    &&& forall|i: int|
        0 <= i < tables.len() ==> {
            &&& columns::table_rows(#[trigger] tables[i]) == columns::table_rows(others[i])
            &&& columns::table_columns(tables[i]) == columns::table_columns(others[i])
        }
}

/// Whether no table lacks a column of a schema.
pub open spec fn all_complete(tables: Seq<Table>, schema: Schema) -> bool {
    forall|i: int|
        0 <= i < tables.len() ==> columns::table_columns(#[trigger] tables[i]).len()
            >= columns::schema_fields(schema).len()
}

/// Whether the tables of a board were stored, each kind under its name.
pub open spec fn stores_board(stored: Seq<(String, Vec<Table>)>, board: BoardTables) -> bool {
    &&& stored_as(stored, "items"@) == Some(board.items)
    &&& stored_as(stored, "runs"@) == Some(board.runs)
    &&& stored_as(stored, "item_comments"@) == Some(board.comments)
    &&& stored_as(stored, "relations"@) == Some(board.relations)
}

/// A board whose tables have all columns comes back from what was stored of it as it was,
/// and its comments with it unless they are taken from its runs.
pub proof fn law_stored_boards_come_back(
    stored: Seq<(String, Vec<Table>)>,
    schemas: BoardSchemas,
    board: BoardTables,
    loaded: BoardTables,
)
    requires
        stores_board(stored, board),
        all_complete(board.items@, schemas.items),
        all_complete(board.runs@, schemas.runs),
        all_complete(board.comments@, schemas.comments),
        all_complete(board.relations@, schemas.relations),
    ensures
        board_fits(stored, schemas),
        is_board(stored, schemas, loaded) ==> {
            &&& same_tables(loaded.items@, board.items@)
            &&& same_tables(loaded.runs@, board.runs@)
            &&& same_tables(loaded.relations@, board.relations@)
            &&& loaded.lacks_comments() == board.lacks_comments()
            &&& !board.lacks_comments() ==> same_tables(loaded.comments@, board.comments@)
        },
{
    if is_board(stored, schemas, loaded) {
        lemma_complete_tables_stay(board.items@, schemas.items, loaded.items@);
        lemma_complete_tables_stay(board.runs@, schemas.runs, loaded.runs@);
        lemma_complete_tables_stay(board.comments@, schemas.comments, loaded.comments@);
        lemma_complete_tables_stay(board.relations@, schemas.relations, loaded.relations@);
    }
}

proof fn lemma_complete_tables_stay(tables: Seq<Table>, schema: Schema, after: Seq<Table>)
    requires
        all_complete(tables, schema),
        are_normalized(tables, schema, after),
    ensures
        same_tables(after, tables),
{
    assert forall|i: int| 0 <= i < after.len() implies {
        &&& columns::table_rows(#[trigger] after[i]) == columns::table_rows(tables[i])
        &&& columns::table_columns(after[i]) == columns::table_columns(tables[i])
    } by {
        assert(is_normalized(tables[i], schema, after[i]));
    }
}

/// A table that lacks columns gets those of the schema, by their names, with nothing in
/// any row.
pub proof fn law_missing_columns_come_empty(table: Table, schema: Schema, after: Table, c: int)
    requires
        is_normalized(table, schema, after),
        columns::table_columns(table).len() <= c < columns::schema_fields(schema).len(),
    ensures
        columns::table_rows(after) == columns::table_rows(table),
        columns::table_columns(after).len() == columns::schema_fields(schema).len(),
        columns::table_columns(after)[c].name == columns::schema_fields(schema)[c].name,
        match columns::table_columns(after)[c].cells {
            columns::Cells::Text(s) => s.len() == columns::table_rows(table) && forall|i: int|
                0 <= i < s.len() ==> !(#[trigger] s[i]).valid,
            columns::Cells::Flag(s) => s.len() == columns::table_rows(table) && forall|i: int|
                0 <= i < s.len() ==> !(#[trigger] s[i]).valid,
            columns::Cells::Int(s) => s.len() == columns::table_rows(table) && forall|i: int|
                0 <= i < s.len() ==> !(#[trigger] s[i]).valid,
            columns::Cells::Millis(s, _) => s.len() == columns::table_rows(table) && forall|i: int|
                0 <= i < s.len() ==> !(#[trigger] s[i]).valid,
            columns::Cells::List(s) => s.len() == columns::table_rows(table) && forall|i: int|
                0 <= i < s.len() ==> !(#[trigger] s[i]).valid,
            columns::Cells::Vector(s) => s.len() == columns::table_rows(table) && forall|i: int|
                0 <= i < s.len() ==> !#[trigger] s[i],
            columns::Cells::Other(s) => s.len() == columns::table_rows(table) && forall|i: int|
                0 <= i < s.len() ==> !#[trigger] s[i],
        },
{
}

} // verus!
