//! The relations of a board: typed edges between items, kept in Arrow tables.
use arrow::datatypes::Field;
use arrow::datatypes::Schema;
use arrow::error::ArrowError;
use std::sync::Arc;
use vstd::prelude::*;
use vstd::string::StringExecFns;
use crate::columns;
use crate::columns::Cells;
use crate::columns::Column;
use crate::columns::FieldKind;
use crate::columns::FieldView;
use crate::columns::NewType;
use crate::columns::Table;
use crate::items;
use crate::sorting;
use crate::text;

verus! {

/// Why an operation on relations failed.
#[derive(Debug)]
pub enum RelationError {
    /// The tables could not be rebuilt.
    Arrow(ArrowError),
    /// No such relation: source, target and predicate.
    NotFound(String, String, String),
}

/// The message of an error of the `arrow` crate, which words the detail itself.
pub open spec fn arrow_message(detail: Seq<char>) -> Seq<char> {
    "Arrow error: "@ + detail
}

impl RelationError {
    /// The error in words.
    pub fn message(&self) -> (r: String)
        ensures
            self is NotFound ==> r@ == "Relation not found: "@ + self->NotFound_0@ + " → "@
                + self->NotFound_1@ + " ("@ + self->NotFound_2@ + ")"@,
            self is Arrow ==> exists|detail: Seq<char>| r@ == #[trigger] arrow_message(detail),
    {
        match self {
            RelationError::Arrow(error) => {
                let mut r: String = text::owned("Arrow error: ");
                let detail: String = columns::arrow_error_text(error);
                r.append(detail.as_str());
                assert(r@ == arrow_message(detail@));
                r
            },
            RelationError::NotFound(source, target, predicate) => {
                let mut r: String = text::owned("Relation not found: ");
                r.append(source.as_str());
                r.append(" → ");
                r.append(target.as_str());
                r.append(" (");
                r.append(predicate.as_str());
                r.append(")");
                r
            },
        }
    }
}

// Positions of the columns.
pub const REL_ID: usize = 0;
pub const SOURCE_ID: usize = 1;
pub const TARGET_ID: usize = 2;
pub const PREDICATE: usize = 3;
pub const CREATED_AT: usize = 4;
pub const REL_DELETED: usize = 5;

/// The fields of a table of relations.
pub open spec fn relation_fields() -> Seq<FieldView> {
    seq![
        FieldView { name: "relation_id"@, kind: FieldKind::Text, nullable: false },
        FieldView { name: "source_id"@, kind: FieldKind::Text, nullable: false },
        FieldView { name: "target_id"@, kind: FieldKind::Text, nullable: false },
        FieldView { name: "predicate"@, kind: FieldKind::Text, nullable: false },
        FieldView { name: "created_at"@, kind: FieldKind::Millis, nullable: false },
        FieldView { name: "deleted"@, kind: FieldKind::Flag, nullable: false },
    ]
}

/// The zone that the times of relations are marked with.
pub const ZONE: &'static str = "UTC";

/// The schema of a table of relations. None of its columns holds nulls.
pub fn relations_schema() -> (r: Arc<Schema>)
    ensures
        columns::schema_fields(*r) == relation_fields(),
{
    let mut fields: Vec<Field> = Vec::new();
    fields.push(columns::make_field("relation_id", NewType::Text, false));
    fields.push(columns::make_field("source_id", NewType::Text, false));
    fields.push(columns::make_field("target_id", NewType::Text, false));
    fields.push(columns::make_field("predicate", NewType::Text, false));
    fields.push(columns::make_field("created_at", NewType::Instant(text::owned(ZONE)), false));
    fields.push(columns::make_field("deleted", NewType::Flag, false));
    assert(columns::field_views(fields@) =~= relation_fields());
    columns::make_schema(fields)
}

// ---- edges --------------------------------------------------------------------------------

/// One relation.
#[verifier::ext_equal]
pub struct EdgeView {
    pub id: Seq<char>,
    pub source: Seq<char>,
    pub target: Seq<char>,
    pub predicate: Seq<char>,
    pub created_at: i64,
    pub deleted: bool,
}

/// Whether a table has the columns of relations.
pub open spec fn is_relation_table(table: Table) -> bool {
    &&& columns::has_text(table, SOURCE_ID as int)
    &&& columns::has_text(table, TARGET_ID as int)
    &&& columns::has_text(table, PREDICATE as int)
    &&& columns::has_flags(table, REL_DELETED as int)
}

/// Whether a table has the columns of relations.
pub fn has_relation_columns(table: &Table) -> (r: bool)
    ensures
        r == is_relation_table(*table),
{
    items::has_text_at(table, SOURCE_ID) && items::has_text_at(table, TARGET_ID)
        && items::has_text_at(table, PREDICATE) && items::has_flags_at(table, REL_DELETED)
}

/// The relation in a row.
pub open spec fn edge_at(table: Table, row: int) -> EdgeView {
    EdgeView {
        id: columns::text_cell(table, REL_ID as int, row).value,
        source: columns::text_cell(table, SOURCE_ID as int, row).value,
        target: columns::text_cell(table, TARGET_ID as int, row).value,
        predicate: columns::text_cell(table, PREDICATE as int, row).value,
        created_at: columns::millis_cell(table, CREATED_AT as int, row).value,
        deleted: columns::flag_cell(table, REL_DELETED as int, row).value,
    }
}

/// The relations of a table.
pub open spec fn table_edges(table: Table) -> Seq<EdgeView> {
    Seq::new(columns::table_rows(table), |row: int| edge_at(table, row))
}

/// The relations of the first `n` tables.
pub open spec fn all_edges(tables: Seq<Table>, n: nat) -> Seq<EdgeView>
    decreases n,
{
    if n == 0 {
        Seq::empty()
    } else {
        all_edges(tables, (n - 1) as nat) + table_edges(tables[n - 1])
    }
}

/// Whether a relation is live and has this source, target and predicate.
pub open spec fn is_live_edge(
    edge: EdgeView,
    source: Seq<char>,
    target: Seq<char>,
    predicate: Seq<char>,
) -> bool {
    !edge.deleted && edge.source == source && edge.target == target && edge.predicate == predicate
}

/// Whether a live relation with this source, target and predicate is among them.
pub open spec fn has_live_edge(
    edges: Seq<EdgeView>,
    source: Seq<char>,
    target: Seq<char>,
    predicate: Seq<char>,
) -> bool {
    exists|i: int|
        0 <= i < edges.len() && is_live_edge(#[trigger] edges[i], source, target, predicate)
}

/// Tables beyond the first `n` do not change the first `n`.
proof fn lemma_edges_prefix(a: Seq<Table>, b: Seq<Table>, n: nat)
    requires
        n <= a.len(),
        n <= b.len(),
        forall|k: int| 0 <= k < n ==> a[k] == b[k],
    ensures
        all_edges(a, n) == all_edges(b, n),
    decreases n,
{
    if n > 0 {
        lemma_edges_prefix(a, b, (n - 1) as nat);
    }
}

/// The place of a table's relations among all.
proof fn lemma_edge_place(tables: Seq<Table>, t: int, row: int, n: nat)
    requires
        0 <= t < n <= tables.len(),
        0 <= row < columns::table_rows(tables[t]),
    ensures
        all_edges(tables, t as nat).len() + row < all_edges(tables, n).len(),
        all_edges(tables, n)[all_edges(tables, t as nat).len() + row] == edge_at(tables[t], row),
    decreases n,
{
    if t < n - 1 {
        lemma_edge_place(tables, t, row, (n - 1) as nat);
    }
}

/// Replacing one table by one that differs in one relation replaces that relation.
proof fn lemma_edges_update(
    tables: Seq<Table>,
    t: int,
    row: int,
    table: Table,
    edge: EdgeView,
    n: nat,
)
    requires
        0 <= t < n <= tables.len(),
        0 <= row < columns::table_rows(tables[t]),
        table_edges(table) == table_edges(tables[t]).update(row, edge),
    ensures
        all_edges(tables.update(t, table), n) == all_edges(tables, n).update(
            all_edges(tables, t as nat).len() + row,
            edge,
        ),
    decreases n,
{
    let after = tables.update(t, table);
    if t < n - 1 {
        lemma_edges_update(tables, t, row, table, edge, (n - 1) as nat);
        lemma_edge_place(tables, t, row, (n - 1) as nat);
        assert(all_edges(after, n) =~= all_edges(tables, n).update(
            all_edges(tables, t as nat).len() + row,
            edge,
        ));
    } else {
        lemma_edges_prefix(tables, after, t as nat);
        assert(all_edges(after, n) =~= all_edges(tables, n).update(
            all_edges(tables, t as nat).len() + row,
            edge,
        ));
    }
}

/// Whether a table is the one row of a new relation.
pub open spec fn is_new_row(
    table: Table,
    id: Seq<char>,
    source: Seq<char>,
    target: Seq<char>,
    predicate: Seq<char>,
    millis: i64,
) -> bool {
    columns::table_columns(table) == columns::named_columns(
        relation_fields(),
        row_cells(id, source, target, predicate, millis),
    )
}

/// The cells of a table of one relation that is not deleted.
pub open spec fn row_cells(
    id: Seq<char>,
    source: Seq<char>,
    target: Seq<char>,
    predicate: Seq<char>,
    millis: i64,
) -> Seq<Cells> {
    seq![
        Cells::Text(seq![columns::cell(id)]),
        Cells::Text(seq![columns::cell(source)]),
        Cells::Text(seq![columns::cell(target)]),
        Cells::Text(seq![columns::cell(predicate)]),
        Cells::Millis(seq![columns::cell(millis)], true),
        Cells::Flag(seq![columns::cell(false)]),
    ]
}

/// The columns of a table of one relation that is not deleted.
fn row_columns(id: &str, source: &str, target: &str, predicate: &str, millis: i64) -> (r: Vec<
    Column,
>)
    requires
        columns::can_stand(id@),
        columns::can_stand(source@),
        columns::can_stand(target@),
        columns::can_stand(predicate@),
    ensures
        columns::all_cells(r@) == row_cells(id@, source@, target@, predicate@, millis),
        forall|c: int| 0 <= c < r@.len() ==> columns::types_agree(#[trigger] r@[c]),
{
    let mut flags: Vec<bool> = Vec::new();
    flags.push(false);
    let mut r: Vec<Column> = Vec::new();
    r.push(columns::text_column(id));
    r.push(columns::text_column(source));
    r.push(columns::text_column(target));
    r.push(columns::text_column(predicate));
    r.push(columns::instant_column(millis, ZONE));
    r.push(columns::flags_column(flags));
    proof {
        assert(columns::flag_cells(flags@) == Cells::Flag(seq![columns::cell(false)])) by {
            assert(columns::flag_cells(flags@)->Flag_0 =~= seq![columns::cell(false)]);
        }
        assert(columns::all_cells(r@) =~= row_cells(id@, source@, target@, predicate@, millis));
    }
    r
}

// ---- the store ------------------------------------------------------------------------------

/// The relations of a board.
#[derive(Debug)]
pub struct RelationsStore {
    batches: Vec<Table>,
    schema: Arc<Schema>,
}

/// `Uuid::new_v4`: a new random id, in the form with hyphens. Which it is rests on chance.
#[verifier::external_body]
fn new_id() -> (r: String)
    ensures
        r@.len() == 36,
{
    uuid::Uuid::new_v4().to_string()
}

/// `Utc::now`: the present in milliseconds since the start of 1970, which a clock is not
/// behind. Which instant it is rests on the clock.
#[verifier::external_body]
fn now_millis() -> (r: i64)
    ensures
        r >= 0,
{
    chrono::Utc::now().timestamp_millis()
}

impl RelationsStore {
    /// The tables of the store.
    pub closed spec fn tables(&self) -> Seq<Table> {
        self.batches@
    }

    /// Whether all tables have the columns of relations.
    pub closed spec fn well_formed(&self) -> bool {
        &&& columns::schema_fields(*self.schema) == relation_fields()
        &&& forall|t: int|
            0 <= t < self.batches@.len() ==> is_relation_table(#[trigger] self.batches@[t])
    }

    /// The relations of the store, deleted ones among them, in the order in which
    /// they were added.
    pub open spec fn edges(&self) -> Seq<EdgeView> {
        all_edges(self.tables(), self.tables().len())
    }

    pub fn new() -> (r: Self)
        ensures
            r.well_formed(),
            r.tables().len() == 0,
            r.edges().len() == 0,
    {
        RelationsStore { batches: Vec::new(), schema: relations_schema() }
    }

    /// Takes in tables of relations that exist already.
    pub fn load(&mut self, tables: Vec<Table>)
        requires
            old(self).well_formed(),
            forall|t: int| 0 <= t < tables@.len() ==> is_relation_table(#[trigger] tables@[t]),
        ensures
            final(self).well_formed(),
            final(self).tables() == old(self).tables() + tables@,
            final(self).edges() == old(self).edges() + all_edges(tables@, tables@.len()),
    {
        let ghost before = self.batches@;
        let mut more: Vec<Table> = tables;
        let ghost added = more@;
        self.batches.append(&mut more);
        proof {
            assert(self.batches@ =~= before + added);
            lemma_edges_concat(before, added, added.len());
        }
    }

    /// Adds a relation with a given id and time. The texts must be short enough to stand
    /// in a column.
    pub fn add_relation_as(
        &mut self,
        id: &str,
        source_id: &str,
        target_id: &str,
        predicate: &str,
        millis: i64,
    ) -> (r: Result<String, RelationError>)
        requires
            old(self).well_formed(),
            columns::can_stand(id@),
            columns::can_stand(source_id@),
            columns::can_stand(target_id@),
            columns::can_stand(predicate@),
        ensures
            final(self).well_formed(),
            r is Ok,
            r->Ok_0@ == id@,
            final(self).tables().len() == old(self).tables().len() + 1,
            final(self).tables().drop_last() == old(self).tables(),
            is_new_row(
                final(self).tables().last(),
                id@,
                source_id@,
                target_id@,
                predicate@,
                millis,
            ),
            final(self).edges() == old(self).edges().push(
                new_edge(id@, source_id@, target_id@, predicate@, millis),
            ),
    {
        let ghost before = self.batches@;
        let row: Vec<Column> = row_columns(id, source_id, target_id, predicate, millis);
        let ghost cells = row_cells(id@, source_id@, target_id@, predicate@, millis);
        proof {
            assert(columns::columns_fit(relation_fields(), cells));
            assert forall|c: int| 0 <= c < row@.len() implies columns::cells_len(
                columns::column_cells(#[trigger] row@[c]),
            ) == 1 by {
                assert(columns::all_cells(row@)[c] == cells[c]);
            }
            columns::lemma_plain_table(row@, &self.schema);
        }
        match columns::build_table(&self.schema, row) {
            Ok(table) => {
                let ghost edge = new_edge(id@, source_id@, target_id@, predicate@, millis);
                assert(columns::cells_of(columns::table_columns(table)) =~= cells);
                assert(is_relation_table(table));
                assert(table_edges(table) =~= seq![edge]);
                let ghost added = table;
                self.batches.push(table);
                proof {
                    assert(self.batches@.drop_last() =~= before);
                    lemma_edges_prefix(before, self.batches@, before.len());
                    assert(self.edges() =~= old(self).edges().push(edge));
                }
                Ok(text::owned(id))
            },
            Err(error) => Err(RelationError::Arrow(error)),
        }
    }

    /// Adds a relation between two items and returns its new id.
    pub fn add_relation(&mut self, source_id: &str, target_id: &str, predicate: &str) -> (r: Result<
        String,
        RelationError,
    >)
        requires
            old(self).well_formed(),
            columns::can_stand(source_id@),
            columns::can_stand(target_id@),
            columns::can_stand(predicate@),
        ensures
            final(self).well_formed(),
            r is Ok,
            r->Ok_0@.len() == 36,
            final(self).tables().len() == old(self).tables().len() + 1,
            final(self).tables().drop_last() == old(self).tables(),
            exists|millis: i64|
                millis >= 0 && #[trigger] is_new_row(
                    final(self).tables().last(),
                    r->Ok_0@,
                    source_id@,
                    target_id@,
                    predicate@,
                    millis,
                ) && final(self).edges() == old(self).edges().push(
                    new_edge(r->Ok_0@, source_id@, target_id@, predicate@, millis),
                ),
    {
        let id: String = new_id();
        proof {
            columns::lemma_encoded_length(id@);
        }
        let millis: i64 = now_millis();
        let r: Result<String, RelationError> = self.add_relation_as(
            id.as_str(),
            source_id,
            target_id,
            predicate,
            millis,
        );
        r
    }
}

impl Default for RelationsStore {
    fn default() -> (r: Self)
        ensures
            r.well_formed(),
            r.tables().len() == 0,
            r.edges().len() == 0,
    {
        RelationsStore::new()
    }
}

/// Whether tables hold the same as others, one by one.
pub open spec fn same_contents(a: Seq<Table>, b: Seq<Table>) -> bool {
    &&& a.len() == b.len()
    &&& forall|t: int|
        0 <= t < a.len() ==> columns::table_rows(#[trigger] a[t]) == columns::table_rows(b[t])
            && columns::table_columns(a[t]) == columns::table_columns(b[t])
}

proof fn lemma_same_edges(a: Seq<Table>, b: Seq<Table>, n: nat)
    requires
        same_contents(a, b),
        n <= a.len(),
    ensures
        all_edges(a, n) == all_edges(b, n),
    decreases n,
{
    if n > 0 {
        lemma_same_edges(a, b, (n - 1) as nat);
        assert(columns::table_rows(a[n - 1]) == columns::table_rows(b[n - 1]));
        assert(table_edges(a[n - 1]) =~= table_edges(b[n - 1]));
    }
}

impl Clone for RelationsStore {
    /// A snapshot: later changes of the one do not show in the other.
    fn clone(&self) -> (r: Self)
        ensures
            same_contents(r.tables(), self.tables()),
            r.edges() == self.edges(),
            self.well_formed() ==> r.well_formed(),
    {
        let mut batches: Vec<Table> = Vec::new();
        let mut t: usize = 0;
        while t < self.batches.len()
            invariant
                t <= self.batches@.len(),
                batches@.len() == t,
                forall|k: int|
                    0 <= k < t ==> columns::table_rows(#[trigger] batches@[k])
                        == columns::table_rows(self.batches@[k]) && columns::table_columns(
                        batches@[k],
                    ) == columns::table_columns(self.batches@[k]),
            decreases self.batches@.len() - t,
        {
            batches.push(columns::copy_table(&self.batches[t]));
            t = t + 1;
        }
        let r: RelationsStore = RelationsStore { batches, schema: relations_schema() };
        proof {
            assert(same_contents(r.batches@, self.batches@));
            lemma_same_edges(r.batches@, self.batches@, r.batches@.len());
            if self.well_formed() {
                assert forall|t: int| 0 <= t < r.batches@.len() implies is_relation_table(
                    #[trigger] r.batches@[t],
                ) by {
                    assert(is_relation_table(self.batches@[t]));
                    assert(columns::table_columns(r.batches@[t]) == columns::table_columns(
                        self.batches@[t],
                    ));
                }
            }
        }
        r
    }
}

proof fn lemma_edges_concat(a: Seq<Table>, b: Seq<Table>, n: nat)
    requires
        n <= b.len(),
    ensures
        all_edges(a + b, a.len() + n) == all_edges(a, a.len()) + all_edges(b, n),
    decreases n,
{
    if n == 0 {
        lemma_edges_prefix(a, a + b, a.len());
        assert(all_edges(a + b, a.len()) =~= all_edges(a, a.len()) + all_edges(b, 0));
    } else {
        lemma_edges_concat(a, b, (n - 1) as nat);
        assert((a + b)[a.len() + n - 1] == b[n - 1]);
        assert(all_edges(a + b, a.len() + n) =~= all_edges(a, a.len()) + all_edges(b, n));
    }
}

// ---- looking through the tables ------------------------------------------------------------

fn row_is_live_edge(table: &Table, row: usize, source: &str, target: &str, predicate: &str) -> (r:
    bool)
    requires
        is_relation_table(*table),
        row < columns::table_rows(*table),
    ensures
        r == is_live_edge(edge_at(*table, row as int), source@, target@, predicate@),
{
    let s: String = columns::text_value(table, SOURCE_ID, row);
    let t: String = columns::text_value(table, TARGET_ID, row);
    let p: String = columns::text_value(table, PREDICATE, row);
    !columns::flag_value(table, REL_DELETED, row) && text::same(s.as_str(), source) && text::same(
        t.as_str(),
        target,
    ) && text::same(p.as_str(), predicate)
}

/// The table and the row of the first live relation with this source, target and
/// predicate.
fn find_live_edge(tables: &Vec<Table>, source: &str, target: &str, predicate: &str) -> (r: Option<
    (usize, usize),
>)
    requires
        forall|t: int| 0 <= t < tables@.len() ==> is_relation_table(#[trigger] tables@[t]),
    ensures
        r is Some == has_live_edge(
            all_edges(tables@, tables@.len()),
            source@,
            target@,
            predicate@,
        ),
        r is Some ==> ({
            let (t, row) = r->0;
            let edges = all_edges(tables@, tables@.len());
            let at = all_edges(tables@, t as nat).len() + row;
            &&& t < tables@.len()
            &&& row < columns::table_rows(tables@[t as int])
            &&& at < edges.len()
            &&& edges[at] == edge_at(tables@[t as int], row as int)
            &&& is_live_edge(edges[at], source@, target@, predicate@)
            &&& forall|k: int|
                0 <= k < at ==> !is_live_edge(#[trigger] edges[k], source@, target@, predicate@)
        }),
{
    let ghost all = tables@;
    let ghost edges = all_edges(all, all.len());
    let mut t: usize = 0;
    while t < tables.len()
        invariant
            t <= tables@.len(),
            all == tables@,
            edges == all_edges(all, all.len()),
            forall|t: int| 0 <= t < all.len() ==> is_relation_table(#[trigger] all[t]),
            forall|k: int|
                0 <= k < all_edges(all, t as nat).len() ==> !is_live_edge(
                    #[trigger] all_edges(all, t as nat)[k],
                    source@,
                    target@,
                    predicate@,
                ),
        decreases tables@.len() - t,
    {
        let table: &Table = &tables[t];
        let n: usize = columns::num_rows(table);
        let ghost before = all_edges(all, t as nat);
        let mut row: usize = 0;
        while row < n
            invariant
                t < all.len(),
                all == tables@,
                edges == all_edges(all, all.len()),
                *table == all[t as int],
                is_relation_table(*table),
                row <= n,
                n == columns::table_rows(*table),
                before == all_edges(all, t as nat),
                forall|k: int|
                    0 <= k < before.len() ==> !is_live_edge(
                        #[trigger] before[k],
                        source@,
                        target@,
                        predicate@,
                    ),
                forall|k: int|
                    0 <= k < row ==> !is_live_edge(
                        #[trigger] edge_at(*table, k),
                        source@,
                        target@,
                        predicate@,
                    ),
            decreases n - row,
        {
            if row_is_live_edge(table, row, source, target, predicate) {
                proof {
                    lemma_edge_place(all, t as int, row as int, all.len());
                    let at = before.len() + row;
                    assert forall|k: int| 0 <= k < at implies !is_live_edge(
                        #[trigger] edges[k],
                        source@,
                        target@,
                        predicate@,
                    ) by {
                        lemma_edges_extend(all, t as nat, all.len());
                        if k < before.len() {
                            assert(edges[k] == before[k]);
                        } else {
                            lemma_edge_place(all, t as int, k - before.len(), all.len());
                            assert(edges[k] == edge_at(*table, k - before.len()));
                        }
                    }
                }
                return Some((t, row));
            }
            row = row + 1;
        }
        proof {
            let after = all_edges(all, (t + 1) as nat);
            assert forall|k: int| 0 <= k < after.len() implies !is_live_edge(
                #[trigger] after[k],
                source@,
                target@,
                predicate@,
            ) by {
                if k < before.len() {
                    assert(after[k] == before[k]);
                } else {
                    assert(after[k] == edge_at(*table, k - before.len()));
                }
            }
        }
        t = t + 1;
    }
    None
}

proof fn lemma_edges_extend(tables: Seq<Table>, m: nat, n: nat)
    requires
        m <= n <= tables.len(),
    ensures
        all_edges(tables, m).len() <= all_edges(tables, n).len(),
        all_edges(tables, n).take(all_edges(tables, m).len() as int) == all_edges(tables, m),
        forall|k: int|
            0 <= k < all_edges(tables, m).len() ==> #[trigger] all_edges(tables, n)[k] == all_edges(
                tables,
                m,
            )[k],
    decreases n - m,
{
    if m < n {
        lemma_edges_extend(tables, m, (n - 1) as nat);
        let shorter = all_edges(tables, (n - 1) as nat);
        let longer = all_edges(tables, n);
        assert(longer.take(all_edges(tables, m).len() as int) =~= shorter.take(
            all_edges(tables, m).len() as int,
        ));
    } else {
        assert(all_edges(tables, n).take(all_edges(tables, n).len() as int) =~= all_edges(
            tables,
            n,
        ));
    }
}

/// The flags of a column with one of them set.
fn flags_with(table: &Table, row: usize) -> (r: Vec<bool>)
    requires
        is_relation_table(*table),
        row < columns::table_rows(*table),
    ensures
        r@.len() == columns::table_rows(*table),
        forall|k: int|
            0 <= k < r@.len() ==> #[trigger] r@[k] == (k == row || columns::flag_cell(
                *table,
                REL_DELETED as int,
                k,
            ).value),
{
    let n: usize = columns::num_rows(table);
    let mut r: Vec<bool> = Vec::new();
    let mut i: usize = 0;
    while i < n
        invariant
            i <= n,
            n == columns::table_rows(*table),
            is_relation_table(*table),
            r@.len() == i,
            forall|k: int|
                0 <= k < i ==> #[trigger] r@[k] == (k == row || columns::flag_cell(
                    *table,
                    REL_DELETED as int,
                    k,
                ).value),
        decreases n - i,
    {
        r.push(i == row || columns::flag_value(table, REL_DELETED, i));
        i = i + 1;
    }
    r
}

/// The relations that touch an item, among the first `n` tables, by table and row.
pub open spec fn touching(tables: Seq<Table>, id: Seq<char>, n: nat) -> Seq<(int, int)>
    decreases n,
{
    if n == 0 {
        Seq::empty()
    } else {
        touching(tables, id, (n - 1) as nat) + touching_rows(
            tables[n - 1],
            id,
            n - 1,
            columns::table_rows(tables[n - 1]),
        )
    }
}

pub open spec fn touching_rows(table: Table, id: Seq<char>, t: int, n: nat) -> Seq<(int, int)>
    decreases n,
{
    if n == 0 {
        Seq::empty()
    } else {
        let before = touching_rows(table, id, t, (n - 1) as nat);
        let edge = edge_at(table, n - 1);
        if !edge.deleted && (edge.source == id || edge.target == id) {
            before.push((t, n - 1))
        } else {
            before
        }
    }
}

/// Whether a table is the one row at a place.
pub open spec fn is_row_at(table: Table, tables: Seq<Table>, place: (int, int)) -> bool {
    columns::table_rows(table) == 1 && columns::table_columns(table) == columns::one_row(
        columns::table_columns(tables[place.0]),
        place.1,
    )
}

/// The number of live relations among the first `n`.
pub open spec fn live_count(edges: Seq<EdgeView>, n: nat) -> nat
    decreases n,
{
    if n == 0 {
        0
    } else {
        live_count(edges, (n - 1) as nat) + if edges[n - 1].deleted {
            0nat
        } else {
            1nat
        }
    }
}

/// What relations hold, given as source, predicate and target.
pub open spec fn triple_views(list: Seq<(String, String, String)>) -> Seq<
    (Seq<char>, Seq<char>, Seq<char>),
> {
    Seq::new(list.len(), |i: int| (list[i].0@, list[i].1@, list[i].2@))
}

/// The source, predicate and target of those among the first `n` relations that are live
/// and have an item as source or target.
pub open spec fn live_triples(edges: Seq<EdgeView>, id: Seq<char>, n: nat) -> Seq<
    (Seq<char>, Seq<char>, Seq<char>),
>
    decreases n,
{
    if n == 0 {
        Seq::empty()
    } else {
        let before = live_triples(edges, id, (n - 1) as nat);
        let edge = edges[n - 1];
        if !edge.deleted && (edge.source == id || edge.target == id) {
            before.push((edge.source, edge.predicate, edge.target))
        } else {
            before
        }
    }
}

impl RelationsStore {
    /// Marks the first live relation with this source, target and predicate as
    /// deleted.
    ///
    /// Where the rebuilt table is not accepted, which cannot happen to tables that fit
    /// the schema, nothing changes.
    pub fn remove_relation(&mut self, source_id: &str, target_id: &str, predicate: &str) -> (r:
        Result<(), RelationError>)
        requires
            old(self).well_formed(),
        ensures
            final(self).well_formed(),
            !has_live_edge(old(self).edges(), source_id@, target_id@, predicate@) ==> r is Err
                && r->Err_0 is NotFound && r->Err_0->NotFound_0@ == source_id@
                && r->Err_0->NotFound_1@ == target_id@ && r->Err_0->NotFound_2@ == predicate@,
            r is Ok ==> exists|t: int, row: int| #[trigger]
                is_first_place(old(self).tables(), source_id@, target_id@, predicate@, t, row)
                    && final(self).tables() == old(self).tables().update(
                    t,
                    final(self).tables()[t],
                ) && is_marked(old(self).tables()[t], final(self).tables()[t], row),
            r is Ok ==> exists|i: int| #[trigger]
                is_first_live(old(self).edges(), source_id@, target_id@, predicate@, i)
                    && final(self).edges() == old(self).edges().update(
                    i,
                    gone(old(self).edges()[i]),
                ),
            r is Err ==> final(self).tables() == old(self).tables(),
            has_live_edge(old(self).edges(), source_id@, target_id@, predicate@) ==> exists|
                t: int,
                row: int,
            | #[trigger]
                is_first_place(old(self).tables(), source_id@, target_id@, predicate@, t, row)
                    && r is Ok == fits_schema(old(self).tables()[t]),
            r is Err && has_live_edge(old(self).edges(), source_id@, target_id@, predicate@)
                ==> r->Err_0 is Arrow,
    {
        let ghost before = self.batches@;
        let ghost edges = self.edges();
        match find_live_edge(&self.batches, source_id, target_id, predicate) {
            Some((t, row)) => {
                let flags: Vec<bool> = flags_with(&self.batches[t], row);
                let ghost old_table = before[t as int];
                let ghost new_flags = flags@;
                let ghost cells = columns::cells_of(columns::table_columns(old_table)).update(
                    REL_DELETED as int,
                    columns::flag_cells(new_flags),
                );
                proof {
                    let at = all_edges(before, t as nat).len() + row;
                    assert(is_first_live(edges, source_id@, target_id@, predicate@, at));
                    assert(is_first_place(
                        before,
                        source_id@,
                        target_id@,
                        predicate@,
                        t as int,
                        row as int,
                    ));
                    assert(new_flags =~= marks_with(old_table, row as int));
                    lemma_fit(old_table, new_flags);
                }
                match columns::with_flags(&self.schema, &self.batches[t], REL_DELETED, flags) {
                    Ok(table) => {
                        let ghost edge = gone(edge_at(old_table, row as int));
                        proof {
                            assert(columns::cells_of(columns::table_columns(table)) =~= cells);
                            lemma_rebuilt(old_table, table, new_flags, row as int);
                            lemma_edges_update(
                                before,
                                t as int,
                                row as int,
                                table,
                                edge,
                                before.len(),
                            );
                        }
                        self.batches.set(t, table);
                        proof {
                            assert(self.batches@ =~= before.update(t as int, table));
                            assert(is_marked(old_table, self.batches@[t as int], row as int));
                        }
                        Ok(())
                    },
                    Err(error) => Err(RelationError::Arrow(error)),
                }
            },
            None => Err(
                RelationError::NotFound(
                    text::owned(source_id),
                    text::owned(target_id),
                    text::owned(predicate),
                ),
            ),
        }
    }

    /// Whether a live relation with this source, target and predicate exists.
    pub fn has_relation(&self, source_id: &str, target_id: &str, predicate: &str) -> (r: bool)
        requires
            self.well_formed(),
        ensures
            r == has_live_edge(self.edges(), source_id@, target_id@, predicate@),
    {
        match find_live_edge(&self.batches, source_id, target_id, predicate) {
            Some(_) => true,
            None => false,
        }
    }

    /// The source, predicate and target of the live relations of an item, as source or
    /// target.
    pub fn live_edges_of(&self, item_id: &str) -> (r: Vec<(String, String, String)>)
        requires
            self.well_formed(),
        ensures
            triple_views(r@) == live_triples(self.edges(), item_id@, self.edges().len()),
    {
        let ghost all = self.batches@;
        let ghost edges = self.edges();
        let mut r: Vec<(String, String, String)> = Vec::new();
        let mut t: usize = 0;
        assert(triple_views(r@) =~= live_triples(edges, item_id@, 0));
        while t < self.batches.len()
            invariant
                t <= all.len(),
                all == self.batches@,
                edges == all_edges(all, all.len()),
                forall|t: int| 0 <= t < all.len() ==> is_relation_table(#[trigger] all[t]),
                triple_views(r@) == live_triples(
                    edges,
                    item_id@,
                    all_edges(all, t as nat).len(),
                ),
            decreases all.len() - t,
        {
            let table: &Table = &self.batches[t];
            let n: usize = columns::num_rows(table);
            let ghost before = all_edges(all, t as nat).len();
            let mut row: usize = 0;
            while row < n
                invariant
                    t < all.len(),
                    edges == all_edges(all, all.len()),
                    *table == all[t as int],
                    is_relation_table(*table),
                    before == all_edges(all, t as nat).len(),
                    n == columns::table_rows(*table),
                    row <= n,
                    triple_views(r@) == live_triples(edges, item_id@, before + row as nat),
                decreases n - row,
            {
                let ghost so_far = triple_views(r@);
                proof {
                    lemma_edge_place(all, t as int, row as int, all.len());
                }
                let source: String = columns::text_value(table, SOURCE_ID, row);
                let target: String = columns::text_value(table, TARGET_ID, row);
                if !columns::flag_value(table, REL_DELETED, row) && (text::same(
                    source.as_str(),
                    item_id,
                ) || text::same(target.as_str(), item_id)) {
                    let predicate: String = columns::text_value(table, PREDICATE, row);
                    let ghost shown = (source@, predicate@, target@);
                    r.push((source, predicate, target));
                    assert(triple_views(r@) =~= so_far.push(shown));
                }
                row = row + 1;
            }
            t = t + 1;
        }
        r
    }

    /// The live relations of an item, as source or target, each as a table of one row.
    pub fn query_relations(&self, item_id: &str) -> (r: Vec<Table>)
        requires
            self.well_formed(),
        ensures
            ({
                let places = touching(self.tables(), item_id@, self.tables().len());
                &&& r@.len() == places.len()
                &&& forall|k: int|
                    0 <= k < r@.len() ==> is_row_at(#[trigger] r@[k], self.tables(), places[k])
            }),
    {
        let ghost all = self.batches@;
        let mut r: Vec<Table> = Vec::new();
        let mut t: usize = 0;
        while t < self.batches.len()
            invariant
                t <= all.len(),
                all == self.batches@,
                forall|t: int| 0 <= t < all.len() ==> is_relation_table(#[trigger] all[t]),
                r@.len() == touching(all, item_id@, t as nat).len(),
                forall|k: int|
                    0 <= k < r@.len() ==> is_row_at(
                        #[trigger] r@[k],
                        all,
                        touching(all, item_id@, t as nat)[k],
                    ),
            decreases all.len() - t,
        {
            let table: &Table = &self.batches[t];
            let n: usize = columns::num_rows(table);
            let ghost before = touching(all, item_id@, t as nat);
            let mut row: usize = 0;
            while row < n
                invariant
                    t < all.len(),
                    *table == all[t as int],
                    is_relation_table(*table),
                    row <= n,
                    n == columns::table_rows(*table),
                    r@.len() == (before + touching_rows(
                        *table,
                        item_id@,
                        t as int,
                        row as nat,
                    )).len(),
                    forall|k: int|
                        0 <= k < r@.len() ==> is_row_at(
                            #[trigger] r@[k],
                            all,
                            (before + touching_rows(*table, item_id@, t as int, row as nat))[k],
                        ),
                decreases n - row,
            {
                let s: String = columns::text_value(table, SOURCE_ID, row);
                let g: String = columns::text_value(table, TARGET_ID, row);
                let ghost places = before + touching_rows(
                    *table,
                    item_id@,
                    t as int,
                    row as nat,
                );
                if !columns::flag_value(table, REL_DELETED, row) && (text::same(
                    s.as_str(),
                    item_id,
                ) || text::same(g.as_str(), item_id)) {
                    let ghost rows = r@;
                    r.push(columns::table_row(table, row));
                    assert(before + touching_rows(*table, item_id@, t as int, (row + 1) as nat)
                        =~= places.push((t as int, row as int)));
                    assert forall|k: int| 0 <= k < r@.len() implies is_row_at(
                        #[trigger] r@[k],
                        all,
                        places.push((t as int, row as int))[k],
                    ) by {
                        if k < rows.len() {
                            assert(r@[k] == rows[k]);
                        }
                    }
                }
                row = row + 1;
            }
            t = t + 1;
        }
        r
    }

    /// The sources of the live relations to a target with a predicate, sorted, each
    /// once.
    pub fn incoming_by_predicate(&self, target_id: &str, predicate: &str) -> (r: Vec<String>)
        requires
            self.well_formed(),
        ensures
            sorting::is_strictly_sorted(text::views(r@)),
            forall|s: Seq<char>| #[trigger]
                text::views(r@).contains(s) == has_live_edge(
                    self.edges(),
                    s,
                    target_id@,
                    predicate@,
                ),
    {
        let ghost all = self.batches@;
        let mut found: Vec<String> = Vec::new();
        let mut t: usize = 0;
        while t < self.batches.len()
            invariant
                t <= all.len(),
                all == self.batches@,
                forall|t: int| 0 <= t < all.len() ==> is_relation_table(#[trigger] all[t]),
                forall|s: Seq<char>| #[trigger]
                    text::views(found@).contains(s) == has_live_edge(
                        all_edges(all, t as nat),
                        s,
                        target_id@,
                        predicate@,
                    ),
            decreases all.len() - t,
        {
            let table: &Table = &self.batches[t];
            let n: usize = columns::num_rows(table);
            let ghost before = all_edges(all, t as nat);
            let mut row: usize = 0;
            assert(before =~= before + table_edges(*table).take(0));
            while row < n
                invariant
                    t < all.len(),
                    *table == all[t as int],
                    is_relation_table(*table),
                    row <= n,
                    n == columns::table_rows(*table),
                    forall|s: Seq<char>| #[trigger]
                        text::views(found@).contains(s) == has_live_edge(
                            before + table_edges(*table).take(row as int),
                            s,
                            target_id@,
                            predicate@,
                        ),
                decreases n - row,
            {
                let g: String = columns::text_value(table, TARGET_ID, row);
                let p: String = columns::text_value(table, PREDICATE, row);
                let ghost edge = edge_at(*table, row as int);
                let ghost so_far = before + table_edges(*table).take(row as int);
                let ghost names = text::views(found@);
                let hit: bool = !columns::flag_value(table, REL_DELETED, row) && text::same(
                    g.as_str(),
                    target_id,
                ) && text::same(p.as_str(), predicate);
                if hit {
                    found.push(columns::text_value(table, SOURCE_ID, row));
                    assert(text::views(found@) =~= names.push(edge.source));
                }
                proof {
                    let next = before + table_edges(*table).take(row + 1);
                    assert(next =~= so_far.push(edge));
                    assert forall|s: Seq<char>| #[trigger]
                        text::views(found@).contains(s) == has_live_edge(
                            next,
                            s,
                            target_id@,
                            predicate@,
                        ) by {
                        lemma_live_push(so_far, edge, s, target_id@, predicate@);
                        assert(names.contains(s) == has_live_edge(
                            so_far,
                            s,
                            target_id@,
                            predicate@,
                        ));
                        if hit {
                            vstd::seq_lib::lemma_seq_contains_after_push(names, edge.source, s);
                        }
                    }
                }
                row = row + 1;
            }
            assert(table_edges(*table).take(n as int) =~= table_edges(*table));
            t = t + 1;
        }
        sorting::sort_and_dedup(&found)
    }

    /// The schema of the store's tables.
    pub fn schema(&self) -> (r: &Schema)
        requires
            self.well_formed(),
        ensures
            columns::schema_fields(*r) == relation_fields(),
    {
        &self.schema
    }

    /// The tables of the store.
    pub fn batches(&self) -> (r: &Vec<Table>)
        ensures
            r@ == self.tables(),
    {
        &self.batches
    }

    /// How many live relations there are.
    pub fn active_count(&self) -> (r: usize)
        requires
            self.well_formed(),
            self.edges().len() <= usize::MAX,
        ensures
            r == live_count(self.edges(), self.edges().len()),
    {
        let ghost all = self.batches@;
        let ghost edges = self.edges();
        let mut count: usize = 0;
        let mut t: usize = 0;
        while t < self.batches.len()
            invariant
                t <= all.len(),
                all == self.batches@,
                edges == all_edges(all, all.len()),
                edges.len() <= usize::MAX,
                forall|t: int| 0 <= t < all.len() ==> is_relation_table(#[trigger] all[t]),
                count == live_count(edges, all_edges(all, t as nat).len()),
                count <= all_edges(all, t as nat).len(),
            decreases all.len() - t,
        {
            let table: &Table = &self.batches[t];
            let n: usize = columns::num_rows(table);
            let ghost start = all_edges(all, t as nat).len();
            let mut row: usize = 0;
            while row < n
                invariant
                    t < all.len(),
                    *table == all[t as int],
                    is_relation_table(*table),
                    edges == all_edges(all, all.len()),
                    edges.len() <= usize::MAX,
                    start == all_edges(all, t as nat).len(),
                    row <= n,
                    n == columns::table_rows(*table),
                    count == live_count(edges, (start + row) as nat),
                    count <= start + row,
                decreases n - row,
            {
                proof {
                    lemma_edge_place(all, t as int, row as int, all.len());
                }
                if !columns::flag_value(table, REL_DELETED, row) {
                    count = count + 1;
                }
                row = row + 1;
            }
            proof {
                assert(all_edges(all, (t + 1) as nat).len() == start + n);
            }
            t = t + 1;
        }
        count
    }
}

proof fn lemma_live_push(
    edges: Seq<EdgeView>,
    edge: EdgeView,
    s: Seq<char>,
    target: Seq<char>,
    predicate: Seq<char>,
)
    ensures
        has_live_edge(edges.push(edge), s, target, predicate) == (has_live_edge(
            edges,
            s,
            target,
            predicate,
        ) || is_live_edge(edge, s, target, predicate)),
{
    let more = edges.push(edge);
    if has_live_edge(edges, s, target, predicate) {
        let i = choose|i: int|
            0 <= i < edges.len() && is_live_edge(#[trigger] edges[i], s, target, predicate);
        assert(more[i] == edges[i]);
    }
    if is_live_edge(edge, s, target, predicate) {
        assert(more[edges.len() as int] == edge);
    }
    if has_live_edge(more, s, target, predicate) {
        let i = choose|i: int|
            0 <= i < more.len() && is_live_edge(#[trigger] more[i], s, target, predicate);
        if i < edges.len() {
            assert(edges[i] == more[i]);
        }
    }
}

/// The relation after its deletion.
pub open spec fn gone(edge: EdgeView) -> EdgeView {
    EdgeView { deleted: true, ..edge }
}

/// Whether position `i` holds the first live relation with this source, target and
/// predicate.
pub open spec fn is_first_live(
    edges: Seq<EdgeView>,
    source: Seq<char>,
    target: Seq<char>,
    predicate: Seq<char>,
    i: int,
) -> bool {
    &&& 0 <= i < edges.len()
    &&& is_live_edge(edges[i], source, target, predicate)
    &&& forall|k: int|
        0 <= k < i ==> !is_live_edge(#[trigger] edges[k], source, target, predicate)
}

/// Whether a row of a table holds the first live relation with this source, target and
/// predicate.
pub open spec fn is_first_place(
    tables: Seq<Table>,
    source: Seq<char>,
    target: Seq<char>,
    predicate: Seq<char>,
    t: int,
    row: int,
) -> bool {
    &&& 0 <= t < tables.len()
    &&& 0 <= row < columns::table_rows(tables[t])
    &&& is_first_live(
        all_edges(tables, tables.len()),
        source,
        target,
        predicate,
        all_edges(tables, t as nat).len() + row,
    )
}

/// The marks of deletion of a table with one more row marked.
pub open spec fn marks_with(table: Table, row: int) -> Seq<bool> {
    Seq::new(
        columns::table_rows(table),
        |k: int| k == row || columns::flag_cell(table, REL_DELETED as int, k).value,
    )
}

/// Whether a table is another one with one more row marked as deleted: under the names of
/// the schema, every column but that of the marks keeps its cells.
pub open spec fn is_marked(before: Table, after: Table, row: int) -> bool {
    &&& columns::table_rows(after) == columns::table_rows(before)
    &&& columns::table_columns(after) == columns::named_columns(
        relation_fields(),
        columns::cells_of(columns::table_columns(before)).update(
            REL_DELETED as int,
            columns::flag_cells(marks_with(before, row)),
        ),
    )
}

/// Whether the columns of a table fit the schema of relations, that of the marks aside.
pub open spec fn fits_schema(table: Table) -> bool {
    let all = columns::table_columns(table);
    &&& all.len() == relation_fields().len()
    &&& forall|c: int|
        0 <= c < all.len() && c != REL_DELETED ==> columns::cells_fit(
            relation_fields()[c],
            (#[trigger] all[c]).cells,
        )
}

proof fn lemma_fit(table: Table, flags: Seq<bool>)
    requires
        columns::table_columns(table).len() > REL_DELETED,
    ensures
        fits_schema(table) == columns::columns_fit(
            relation_fields(),
            columns::cells_of(columns::table_columns(table)).update(
                REL_DELETED as int,
                columns::flag_cells(flags),
            ),
        ),
        columns::has_plain_fields(relation_fields()),
{
    let all = columns::table_columns(table);
    let fields = relation_fields();
    let cells = columns::cells_of(all).update(REL_DELETED as int, columns::flag_cells(flags));
    assert(columns::cells_fit(fields[REL_DELETED as int], cells[REL_DELETED as int]));
    if fits_schema(table) {
        assert forall|c: int| 0 <= c < fields.len() implies columns::cells_fit(
            #[trigger] fields[c],
            cells[c],
        ) by {
            if c != REL_DELETED {
                assert(columns::cells_fit(fields[c], all[c].cells));
            }
        }
    }
    if columns::columns_fit(fields, cells) {
        assert forall|c: int| 0 <= c < all.len() && c != REL_DELETED implies columns::cells_fit(
            fields[c],
            (#[trigger] all[c]).cells,
        ) by {
            assert(columns::cells_fit(fields[c], cells[c]));
        }
    }
}

proof fn lemma_rebuilt(before: Table, after: Table, flags: Seq<bool>, row: int)
    requires
        is_relation_table(before),
        0 <= row < columns::table_rows(before),
        flags.len() == columns::table_rows(before),
        forall|k: int|
            0 <= k < flags.len() ==> #[trigger] flags[k] == (k == row || columns::flag_cell(
                before,
                REL_DELETED as int,
                k,
            ).value),
        columns::table_rows(after) == columns::table_rows(before),
        columns::cells_of(columns::table_columns(after)) == columns::cells_of(
            columns::table_columns(before),
        ).update(REL_DELETED as int, columns::flag_cells(flags)),
    ensures
        is_relation_table(after),
        table_edges(after) == table_edges(before).update(row, gone(edge_at(before, row))),
{
    let old_cells = columns::cells_of(columns::table_columns(before));
    let cells = columns::cells_of(columns::table_columns(after));
    assert(cells.len() == old_cells.len());
    assert(cells[REL_ID as int] == old_cells[REL_ID as int]);
    assert(cells[CREATED_AT as int] == old_cells[CREATED_AT as int]);
    assert(cells[SOURCE_ID as int] == old_cells[SOURCE_ID as int]);
    assert(cells[TARGET_ID as int] == old_cells[TARGET_ID as int]);
    assert(cells[PREDICATE as int] == old_cells[PREDICATE as int]);
    assert(cells[REL_DELETED as int] == columns::flag_cells(flags));
    assert(table_edges(after) =~= table_edges(before).update(row, gone(edge_at(before, row))));
}

// ---- what holds of the store ----------------------------------------------------------------

/// The relation that is added with an id and a time.
pub open spec fn new_edge(
    id: Seq<char>,
    source: Seq<char>,
    target: Seq<char>,
    predicate: Seq<char>,
    created_at: i64,
) -> EdgeView {
    EdgeView { id, source, target, predicate, created_at, deleted: false }
}

/// Adding a relation makes it found, and changes nothing about any other.
pub proof fn law_add_is_found(
    edges: Seq<EdgeView>,
    edge: EdgeView,
    s: Seq<char>,
    t: Seq<char>,
    p: Seq<char>,
)
    requires
        !edge.deleted,
    ensures
        has_live_edge(edges.push(edge), s, t, p) == (has_live_edge(edges, s, t, p) || (s
            == edge.source && t == edge.target && p == edge.predicate)),
{
    lemma_live_push(edges, edge, s, t, p);
}

/// Adding a relation adds one to the count of live relations.
pub proof fn law_add_counts(edges: Seq<EdgeView>, edge: EdgeView)
    requires
        !edge.deleted,
    ensures
        live_count(edges.push(edge), edges.len() + 1) == live_count(edges, edges.len()) + 1,
{
    lemma_count_same(edges, edges.push(edge), edges.len());
}

proof fn lemma_count_same(a: Seq<EdgeView>, b: Seq<EdgeView>, n: nat)
    requires
        n <= a.len(),
        n <= b.len(),
        forall|k: int| 0 <= k < n ==> a[k] == b[k],
    ensures
        live_count(a, n) == live_count(b, n),
    decreases n,
{
    if n > 0 {
        lemma_count_same(a, b, (n - 1) as nat);
    }
}

/// Removing a relation takes one from the count of live relations.
pub proof fn law_remove_counts(
    edges: Seq<EdgeView>,
    source: Seq<char>,
    target: Seq<char>,
    predicate: Seq<char>,
    i: int,
)
    requires
        is_first_live(edges, source, target, predicate, i),
    ensures
        live_count(edges.update(i, gone(edges[i])), edges.len()) + 1 == live_count(
            edges,
            edges.len(),
        ),
{
    lemma_count_gone(edges, i, edges.len());
}

proof fn lemma_count_gone(edges: Seq<EdgeView>, i: int, n: nat)
    requires
        0 <= i < n <= edges.len(),
        !edges[i].deleted,
    ensures
        live_count(edges.update(i, gone(edges[i])), n) + 1 == live_count(edges, n),
    decreases n,
{
    let after = edges.update(i, gone(edges[i]));
    if i < n - 1 {
        lemma_count_gone(edges, i, (n - 1) as nat);
    } else {
        lemma_count_same(edges, after, i as nat);
    }
}

/// Removing a relation changes nothing about relations with another source, target
/// or predicate.
pub proof fn law_remove_keeps_others(
    edges: Seq<EdgeView>,
    source: Seq<char>,
    target: Seq<char>,
    predicate: Seq<char>,
    i: int,
    s: Seq<char>,
    t: Seq<char>,
    p: Seq<char>,
)
    requires
        is_first_live(edges, source, target, predicate, i),
        !(s == source && t == target && p == predicate),
    ensures
        has_live_edge(edges.update(i, gone(edges[i])), s, t, p) == has_live_edge(edges, s, t, p),
{
    let after = edges.update(i, gone(edges[i]));
    if has_live_edge(edges, s, t, p) {
        let k = choose|k: int| 0 <= k < edges.len() && is_live_edge(#[trigger] edges[k], s, t, p);
        assert(after[k] == edges[k]);
    }
    if has_live_edge(after, s, t, p) {
        let k = choose|k: int| 0 <= k < after.len() && is_live_edge(#[trigger] after[k], s, t, p);
        assert(after[k] == edges[k]);
    }
}

/// A relation that was not there is not there after it has been added and removed.
pub proof fn law_remove_undoes_add(edges: Seq<EdgeView>, edge: EdgeView, i: int)
    requires
        !edge.deleted,
        !has_live_edge(edges, edge.source, edge.target, edge.predicate),
        is_first_live(edges.push(edge), edge.source, edge.target, edge.predicate, i),
    ensures
        i == edges.len(),
        !has_live_edge(
            edges.push(edge).update(i, gone(edge)),
            edge.source,
            edge.target,
            edge.predicate,
        ),
{
    let (source, target, predicate) = (edge.source, edge.target, edge.predicate);
    let added = edges.push(edge);
    if i < edges.len() {
        assert(added[i] == edges[i]);
        assert(is_live_edge(edges[i], source, target, predicate));
    }
    let after = added.update(i, gone(edge));
    if has_live_edge(after, source, target, predicate) {
        let k = choose|k: int|
            0 <= k < after.len() && is_live_edge(#[trigger] after[k], source, target, predicate);
        assert(edges[k] == after[k]);
        assert(is_live_edge(edges[k], source, target, predicate));
    }
}

/// A change of a store.
pub enum Change {
    /// A relation with this source, target and predicate was added.
    Added(Seq<char>, Seq<char>, Seq<char>),
    /// A relation with this source, target and predicate was removed.
    Removed(Seq<char>, Seq<char>, Seq<char>),
}

/// Whether a change leads from some relations to others.
pub open spec fn leads_to(before: Seq<EdgeView>, change: Change, after: Seq<EdgeView>) -> bool {
    match change {
        Change::Added(s, t, p) => exists|id: Seq<char>, created_at: i64|
            after == before.push(#[trigger] new_edge(id, s, t, p, created_at)),
        Change::Removed(s, t, p) => exists|i: int| #[trigger]
            is_first_live(before, s, t, p, i) && after == before.update(i, gone(before[i])),
    }
}

/// Whether changes, one after the other, lead from no relations through the given ones.
pub open spec fn is_history(states: Seq<Seq<EdgeView>>, changes: Seq<Change>) -> bool {
    &&& states.len() == changes.len() + 1
    &&& states[0].len() == 0
    &&& forall|i: int|
        0 <= i < changes.len() ==> leads_to(states[i], #[trigger] changes[i], states[i + 1])
}

/// How many of the first `n` changes are the given one.
pub open spec fn times(changes: Seq<Change>, change: Change, n: nat) -> nat
    decreases n,
{
    if n == 0 {
        0
    } else {
        times(changes, change, (n - 1) as nat) + if changes[n - 1] == change {
            1nat
        } else {
            0nat
        }
    }
}

/// How many of the first `n` relations are live and have this source, target and
/// predicate.
pub open spec fn copies(
    edges: Seq<EdgeView>,
    source: Seq<char>,
    target: Seq<char>,
    predicate: Seq<char>,
    n: nat,
) -> nat
    decreases n,
{
    if n == 0 {
        0
    } else {
        copies(edges, source, target, predicate, (n - 1) as nat) + if is_live_edge(
            edges[n - 1],
            source,
            target,
            predicate,
        ) {
            1nat
        } else {
            0nat
        }
    }
}

proof fn lemma_copies_same(
    a: Seq<EdgeView>,
    b: Seq<EdgeView>,
    s: Seq<char>,
    t: Seq<char>,
    p: Seq<char>,
    n: nat,
)
    requires
        n <= a.len(),
        n <= b.len(),
        forall|k: int| 0 <= k < n ==> is_live_edge(#[trigger] a[k], s, t, p) == is_live_edge(b[k], s, t, p),
    ensures
        copies(a, s, t, p, n) == copies(b, s, t, p, n),
    decreases n,
{
    if n > 0 {
        lemma_copies_same(a, b, s, t, p, (n - 1) as nat);
        assert(is_live_edge(a[n - 1], s, t, p) == is_live_edge(b[n - 1], s, t, p));
    }
}

proof fn lemma_copies_gone(
    edges: Seq<EdgeView>,
    i: int,
    s: Seq<char>,
    t: Seq<char>,
    p: Seq<char>,
    n: nat,
)
    requires
        0 <= i < n <= edges.len(),
        is_live_edge(edges[i], s, t, p),
    ensures
        copies(edges.update(i, gone(edges[i])), s, t, p, n) + 1 == copies(edges, s, t, p, n),
    decreases n,
{
    let after = edges.update(i, gone(edges[i]));
    if i < n - 1 {
        lemma_copies_gone(edges, i, s, t, p, (n - 1) as nat);
    } else {
        lemma_copies_same(edges, after, s, t, p, i as nat);
    }
}

proof fn lemma_copies_found(
    edges: Seq<EdgeView>,
    s: Seq<char>,
    t: Seq<char>,
    p: Seq<char>,
    n: nat,
)
    requires
        n <= edges.len(),
    ensures
        (copies(edges, s, t, p, n) > 0) == has_live_edge(edges.take(n as int), s, t, p),
    decreases n,
{
    if n > 0 {
        let m = (n - 1) as nat;
        lemma_copies_found(edges, s, t, p, m);
        assert(edges.take(n as int) =~= edges.take(m as int).push(edges[m as int]));
        lemma_live_push(edges.take(m as int), edges[m as int], s, t, p);
    }
}

/// What one change does to the number of live copies.
proof fn lemma_copies_changed(
    before: Seq<EdgeView>,
    change: Change,
    after: Seq<EdgeView>,
    s: Seq<char>,
    t: Seq<char>,
    p: Seq<char>,
)
    requires
        leads_to(before, change, after),
    ensures
        copies(after, s, t, p, after.len()) + if change == Change::Removed(s, t, p) {
            1nat
        } else {
            0nat
        } == copies(before, s, t, p, before.len()) + if change == Change::Added(s, t, p) {
            1nat
        } else {
            0nat
        },
{
    match change {
        Change::Added(a, b, c) => {
            lemma_copies_same(before, after, s, t, p, before.len());
        },
        Change::Removed(a, b, c) => {
            let i = choose|i: int| #[trigger]
                is_first_live(before, a, b, c, i) && after == before.update(i, gone(before[i]));
            if a == s && b == t && c == p {
                lemma_copies_gone(before, i, s, t, p, before.len());
            } else {
                lemma_copies_same(before, after, s, t, p, before.len());
            }
        },
    }
}

proof fn lemma_history(
    states: Seq<Seq<EdgeView>>,
    changes: Seq<Change>,
    s: Seq<char>,
    t: Seq<char>,
    p: Seq<char>,
    n: nat,
)
    requires
        is_history(states, changes),
        n <= changes.len(),
    ensures
        copies(states[n as int], s, t, p, states[n as int].len()) + times(
            changes,
            Change::Removed(s, t, p),
            n,
        ) == times(changes, Change::Added(s, t, p), n),
    decreases n,
{
    if n > 0 {
        lemma_history(states, changes, s, t, p, (n - 1) as nat);
        assert(leads_to(states[n - 1], changes[n - 1], states[n as int]));
        lemma_copies_changed(states[n - 1], changes[n - 1], states[n as int], s, t, p);
    }
}

/// In a store that only additions and removals have changed, a relation is found exactly
/// when it was added more often than removed, whatever else was added and removed.
pub proof fn law_found_iff_added_more_often(
    states: Seq<Seq<EdgeView>>,
    changes: Seq<Change>,
    source: Seq<char>,
    target: Seq<char>,
    predicate: Seq<char>,
)
    requires
        is_history(states, changes),
    ensures
        has_live_edge(states.last(), source, target, predicate) == (times(
            changes,
            Change::Added(source, target, predicate),
            changes.len(),
        ) > times(changes, Change::Removed(source, target, predicate), changes.len())),
{
    let last = states.last();
    lemma_history(states, changes, source, target, predicate, changes.len());
    lemma_copies_found(last, source, target, predicate, last.len());
    assert(last.take(last.len() as int) =~= last);
}

// ---- reads, by the rows ---------------------------------------------------------------------------------------

/// Whether a row says that a relation holds: it names source, target and predicate, and
/// is not deleted.
pub open spec fn says_relation(
    table: Table,
    row: int,
    source: Seq<char>,
    target: Seq<char>,
    predicate: Seq<char>,
) -> bool {
    &&& 0 <= row < columns::table_rows(table)
    &&& columns::text_cell(table, SOURCE_ID as int, row).value == source
    &&& columns::text_cell(table, TARGET_ID as int, row).value == target
    &&& columns::text_cell(table, PREDICATE as int, row).value == predicate
    &&& !columns::flag_cell(table, REL_DELETED as int, row).value
}

/// A relation is found if and only if some row of some table says that it holds.
pub proof fn law_relations_are_what_rows_say(
    tables: Seq<Table>,
    n: nat,
    source: Seq<char>,
    target: Seq<char>,
    predicate: Seq<char>,
)
    requires
        n <= tables.len(),
    ensures
        has_live_edge(all_edges(tables, n), source, target, predicate) <==> exists|t: int, row: int|
            0 <= t < n && #[trigger] says_relation(tables[t], row, source, target, predicate),
    decreases n,
{
    if n > 0 {
        let m = (n - 1) as nat;
        law_relations_are_what_rows_say(tables, m, source, target, predicate);
        let before = all_edges(tables, m);
        let here = table_edges(tables[n - 1]);
        let all = all_edges(tables, n);
        if has_live_edge(before, source, target, predicate) {
            let i = choose|i: int|
                0 <= i < before.len() && is_live_edge(
                    #[trigger] before[i],
                    source,
                    target,
                    predicate,
                );
            assert(all[i] == before[i]);
        }
        if exists|row: int| #[trigger]
            says_relation(tables[n - 1], row, source, target, predicate) {
            let row = choose|row: int| #[trigger]
                says_relation(tables[n - 1], row, source, target, predicate);
            assert(all[before.len() + row] == here[row]);
            assert(is_live_edge(all[before.len() + row], source, target, predicate));
        }
        if has_live_edge(all, source, target, predicate) {
            let i = choose|i: int|
                0 <= i < all.len() && is_live_edge(#[trigger] all[i], source, target, predicate);
            if i < before.len() {
                assert(all[i] == before[i]);
                let (t, row) = choose|t: int, row: int|
                    0 <= t < m && #[trigger] says_relation(
                        tables[t],
                        row,
                        source,
                        target,
                        predicate,
                    );
                assert(0 <= t < n && says_relation(tables[t], row, source, target, predicate));
            } else {
                assert(all[i] == here[i - before.len()]);
                assert(says_relation(
                    tables[n - 1],
                    i - before.len(),
                    source,
                    target,
                    predicate,
                ));
            }
        }
        if exists|t: int, row: int|
            0 <= t < n && #[trigger] says_relation(tables[t], row, source, target, predicate) {
            let (t, row) = choose|t: int, row: int|
                0 <= t < n && #[trigger] says_relation(tables[t], row, source, target, predicate);
            if t < m {
                assert(0 <= t < m && says_relation(tables[t], row, source, target, predicate));
            } else {
                assert(says_relation(tables[n - 1], row, source, target, predicate));
            }
        }
    }
}

/// The relations of an item are exactly those that lead from it or to it.
pub proof fn law_relations_of_an_item(
    edges: Seq<EdgeView>,
    id: Seq<char>,
    n: nat,
    source: Seq<char>,
    predicate: Seq<char>,
    target: Seq<char>,
)
    requires
        n <= edges.len(),
    ensures
        live_triples(edges, id, n).contains((source, predicate, target)) <==> (source == id || target
            == id) && exists|i: int|
            0 <= i < n && (#[trigger] edges[i]).source == source && edges[i].predicate == predicate
                && edges[i].target == target && !edges[i].deleted,
    decreases n,
{
    if n > 0 {
        let m = (n - 1) as nat;
        law_relations_of_an_item(edges, id, m, source, predicate, target);
        let edge = edges[n - 1];
        vstd::seq_lib::lemma_seq_contains_after_push(
            live_triples(edges, id, m),
            (edge.source, edge.predicate, edge.target),
            (source, predicate, target),
        );
    }
}

/// The relations of a store are counted one by one, but for those that were removed.
pub proof fn law_live_relations_are_counted(edges: Seq<EdgeView>, n: nat)
    requires
        n <= edges.len(),
    ensures
        live_count(edges, n) == edges.take(n as int).filter(|e: EdgeView| !e.deleted).len(),
    decreases n,
{
    reveal(Seq::filter);
    if n > 0 {
        let m = (n - 1) as nat;
        law_live_relations_are_counted(edges, m);
        assert(edges.take(n as int).drop_last() =~= edges.take(m as int));
        assert(edges.take(n as int).last() == edges[n - 1]);
    }
}

proof fn lemma_touching_rows(table: Table, id: Seq<char>, t: int, n: nat, place: (int, int))
    requires
        n <= columns::table_rows(table),
    ensures
        touching_rows(table, id, t, n).contains(place) <==> place.0 == t && 0 <= place.1 < n
            && !columns::flag_cell(table, REL_DELETED as int, place.1).value && (columns::text_cell(
            table,
            SOURCE_ID as int,
            place.1,
        ).value == id || columns::text_cell(table, TARGET_ID as int, place.1).value == id),
    decreases n,
{
    if n > 0 {
        let m = (n - 1) as nat;
        lemma_touching_rows(table, id, t, m, place);
        vstd::seq_lib::lemma_seq_contains_after_push(
            touching_rows(table, id, t, m),
            (t, n - 1),
            place,
        );
    }
}

/// The rows that are read for an item are those that are not deleted and have it as their
/// source or target.
pub proof fn law_rows_of_an_item(tables: Seq<Table>, id: Seq<char>, n: nat, t: int, row: int)
    requires
        n <= tables.len(),
    ensures
        touching(tables, id, n).contains((t, row)) <==> 0 <= t < n && 0 <= row
            < columns::table_rows(tables[t]) && !columns::flag_cell(
            tables[t],
            REL_DELETED as int,
            row,
        ).value && (columns::text_cell(tables[t], SOURCE_ID as int, row).value == id
            || columns::text_cell(tables[t], TARGET_ID as int, row).value == id),
    decreases n,
{
    if n > 0 {
        let m = (n - 1) as nat;
        law_rows_of_an_item(tables, id, m, t, row);
        let rows = columns::table_rows(tables[n - 1]);
        lemma_touching_rows(tables[n - 1], id, n - 1, rows, (t, row));
        vstd::seq_lib::lemma_seq_concat_contains_all_elements(
            touching(tables, id, m),
            touching_rows(tables[n - 1], id, n - 1, rows),
            (t, row),
        );
    }
}

} // verus!
