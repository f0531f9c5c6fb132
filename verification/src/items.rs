//! The table of items: its columns, and the items it holds.
use vstd::prelude::*;
use crate::columns;
use crate::columns::Table;
use crate::critical_path;
use crate::critical_path::ItemInfo;
use crate::critical_path::ItemView;
use crate::text;

verus! {

// Positions of the columns.
pub const ID: usize = 0;
pub const TITLE: usize = 1;
pub const ITEM_TYPE: usize = 2;
pub const STATUS: usize = 3;
pub const PRIORITY: usize = 4;
pub const CREATED: usize = 5;
pub const ASSIGNEE: usize = 6;
pub const BOARD: usize = 7;
pub const TAGS: usize = 8;
pub const RELATED: usize = 9;
pub const DEPENDS_ON: usize = 10;
pub const BODY: usize = 11;
pub const BODY_HASH: usize = 12;
pub const DELETED: usize = 13;
pub const RESOLUTION: usize = 14;
pub const CLOSED_BY: usize = 15;
pub const UPDATED_AT: usize = 16;
pub const PRIORITY_RANK: usize = 17;
pub const ATTEMPT_COUNT: usize = 18;
pub const EMBEDDING: usize = 19;

/// Whether a table has the columns that the analyses read.
pub open spec fn is_item_table(table: Table) -> bool {
    &&& columns::has_text(table, ID as int)
    &&& columns::has_text(table, TITLE as int)
    &&& columns::has_text(table, ITEM_TYPE as int)
    &&& columns::has_text(table, STATUS as int)
    &&& columns::has_text(table, PRIORITY as int)
    &&& columns::has_text(table, ASSIGNEE as int)
    &&& columns::has_flags(table, DELETED as int)
    &&& columns::has_text_lists(table, RELATED as int)
    &&& columns::has_text_lists(table, DEPENDS_ON as int)
    &&& columns::has_ints(table, PRIORITY_RANK as int)
}

/// Whether column `col` exists and holds texts.
pub fn has_text_at(table: &Table, col: usize) -> (r: bool)
    ensures
        r == columns::has_text(*table, col as int),
{
    col < columns::num_columns(table) && columns::is_text(table, col)
}

/// Whether column `col` exists and holds flags.
pub fn has_flags_at(table: &Table, col: usize) -> (r: bool)
    ensures
        r == columns::has_flags(*table, col as int),
{
    col < columns::num_columns(table) && columns::is_flags(table, col)
}

/// Whether a table has the columns that the analyses read.
pub fn has_item_columns(table: &Table) -> (r: bool)
    ensures
        r == is_item_table(*table),
{
    has_text_at(table, ID) && has_text_at(table, TITLE) && has_text_at(table, ITEM_TYPE)
        && has_text_at(table, STATUS) && has_text_at(table, PRIORITY) && has_text_at(
        table,
        ASSIGNEE,
    ) && has_flags_at(table, DELETED) && columns::is_text_lists(table, RELATED)
        && columns::is_text_lists(table, DEPENDS_ON) && PRIORITY_RANK < columns::num_columns(table)
        && columns::is_ints(table, PRIORITY_RANK)
}

/// The text in a row, or a dash where it is null.
pub open spec fn text_or_dash(table: Table, col: int, row: int) -> Seq<char> {
    if columns::text_cell(table, col, row).valid {
        columns::text_cell(table, col, row).value
    } else {
        "-"@
    }
}

fn read_or_dash(table: &Table, col: usize, row: usize) -> (r: String)
    requires
        columns::has_text(*table, col as int),
        row < columns::table_rows(*table),
    ensures
        r@ == text_or_dash(*table, col as int, row as int),
{
    if columns::text_is_null(table, col, row) {
        text::owned("-")
    } else {
        columns::text_value(table, col, row)
    }
}

/// The item in a row.
pub open spec fn item_at(table: Table, row: int) -> ItemView {
    let rank = columns::int_cell(table, PRIORITY_RANK as int, row);
    ItemView {
        id: columns::text_cell(table, ID as int, row).value,
        title: columns::text_cell(table, TITLE as int, row).value,
        item_type: columns::text_cell(table, ITEM_TYPE as int, row).value,
        status: columns::text_cell(table, STATUS as int, row).value,
        priority: text_or_dash(table, PRIORITY as int, row),
        assignee: text_or_dash(table, ASSIGNEE as int, row),
        related: columns::list_texts(columns::list_cell(table, RELATED as int, row)),
        depends_on: columns::list_texts(columns::list_cell(table, DEPENDS_ON as int, row)),
        rank: if rank.valid {
            Some(rank.value)
        } else {
            None
        },
    }
}

fn read_item(table: &Table, row: usize) -> (r: ItemInfo)
    requires
        is_item_table(*table),
        row < columns::table_rows(*table),
    ensures
        r@ == item_at(*table, row as int),
{
    assert(columns::readable_list(columns::list_cell(*table, RELATED as int, row as int)));
    assert(columns::readable_list(columns::list_cell(*table, DEPENDS_ON as int, row as int)));
    let rank: Option<i32> = if columns::int_is_null(table, PRIORITY_RANK, row) {
        None
    } else {
        Some(columns::int_value(table, PRIORITY_RANK, row))
    };
    ItemInfo {
        id: columns::text_value(table, ID, row),
        title: columns::text_value(table, TITLE, row),
        item_type: columns::text_value(table, ITEM_TYPE, row),
        status: columns::text_value(table, STATUS, row),
        priority: read_or_dash(table, PRIORITY, row),
        assignee: read_or_dash(table, ASSIGNEE, row),
        related: columns::extract_list_values(table, RELATED, row),
        depends_on: columns::extract_list_values(table, DEPENDS_ON, row),
        rank,
    }
}

/// The items in the first `n` rows of a table that are not deleted.
pub open spec fn live_items(table: Table, n: nat) -> Seq<ItemView>
    decreases n,
{
    if n == 0 {
        Seq::empty()
    } else {
        let before = live_items(table, (n - 1) as nat);
        if columns::flag_cell(table, DELETED as int, n - 1).value {
            before
        } else {
            before.push(item_at(table, n - 1))
        }
    }
}

/// The items of the first `n` tables that are not deleted.
pub open spec fn items_spec(tables: Seq<Table>, n: nat) -> Seq<ItemView>
    decreases n,
{
    if n == 0 {
        Seq::empty()
    } else {
        items_spec(tables, (n - 1) as nat) + live_items(
            tables[n - 1],
            columns::table_rows(tables[n - 1]),
        )
    }
}

/// Reads the items of a board from its tables.
pub fn extract_items(tables: &[Table]) -> (r: Vec<ItemInfo>)
    requires
        forall|t: int| 0 <= t < tables@.len() ==> is_item_table(#[trigger] tables@[t]),
    ensures
        critical_path::item_views(r@) == items_spec(tables@, tables@.len()),
{
    let mut r: Vec<ItemInfo> = Vec::new();
    let mut t: usize = 0;
    assert(critical_path::item_views(r@) =~= items_spec(tables@, 0));
    while t < tables.len()
        invariant
            t <= tables@.len(),
            forall|t: int| 0 <= t < tables@.len() ==> is_item_table(#[trigger] tables@[t]),
            critical_path::item_views(r@) == items_spec(tables@, t as nat),
        decreases tables@.len() - t,
    {
        let table: &Table = &tables[t];
        assert(is_item_table(tables@[t as int]));
        let ghost before = critical_path::item_views(r@);
        let n: usize = columns::num_rows(table);
        let mut row: usize = 0;
        assert(critical_path::item_views(r@) =~= before + live_items(*table, 0));
        while row < n
            invariant
                row <= n,
                n == columns::table_rows(*table),
                is_item_table(*table),
                critical_path::item_views(r@) == before + live_items(*table, row as nat),
            decreases n - row,
        {
            if !columns::flag_value(table, DELETED, row) {
                let ghost so_far = critical_path::item_views(r@);
                let item: ItemInfo = read_item(table, row);
                let ghost shown = item@;
                r.push(item);
                assert(critical_path::item_views(r@) =~= so_far.push(shown));
                assert(critical_path::item_views(r@) =~= before + live_items(
                    *table,
                    (row + 1) as nat,
                ));
            }
            row = row + 1;
        }
        t = t + 1;
    }
    r
}

// ---- what is read, by the rows ---------------------------------------------------------------------------------

/// Whether an item is what a row says that is not deleted. An item without a priority or
/// an assignee has a dash there.
pub open spec fn is_live_row(table: Table, row: int, x: ItemView) -> bool {
    let cell = |col: usize| columns::text_cell(table, col as int, row);
    let rank = columns::int_cell(table, PRIORITY_RANK as int, row);
    &&& 0 <= row < columns::table_rows(table)
    &&& !columns::flag_cell(table, DELETED as int, row).value
    &&& x.id == cell(ID).value
    &&& x.title == cell(TITLE).value
    &&& x.item_type == cell(ITEM_TYPE).value
    &&& x.status == cell(STATUS).value
    &&& x.priority == (if cell(PRIORITY).valid {
        cell(PRIORITY).value
    } else {
        "-"@
    })
    &&& x.assignee == (if cell(ASSIGNEE).valid {
        cell(ASSIGNEE).value
    } else {
        "-"@
    })
    &&& x.related == columns::list_texts(columns::list_cell(table, RELATED as int, row))
    &&& x.depends_on == columns::list_texts(columns::list_cell(table, DEPENDS_ON as int, row))
    &&& rank.valid ==> x.rank == Some(rank.value)
    &&& !rank.valid ==> x.rank is None
}

proof fn lemma_live_items(table: Table, n: nat, x: ItemView)
    requires
        n <= columns::table_rows(table),
    ensures
        live_items(table, n).contains(x) <==> exists|row: int|
            0 <= row < n && #[trigger] is_live_row(table, row, x),
    decreases n,
{
    if n > 0 {
        let m = (n - 1) as nat;
        lemma_live_items(table, m, x);
        vstd::seq_lib::lemma_seq_contains_after_push(live_items(table, m), item_at(table, n - 1), x);
        assert((!columns::flag_cell(table, DELETED as int, n - 1).value && x == item_at(
            table,
            n - 1,
        )) == is_live_row(table, n - 1, x));
        if exists|row: int| 0 <= row < m && #[trigger] is_live_row(table, row, x) {
            let row = choose|row: int| 0 <= row < m && #[trigger] is_live_row(table, row, x);
            assert(0 <= row < n && is_live_row(table, row, x));
        }
    }
}

/// The items that are read are those of all rows of all tables that are not deleted.
pub proof fn law_items_are_the_live_rows(tables: Seq<Table>, n: nat, x: ItemView)
    requires
        n <= tables.len(),
    ensures
        items_spec(tables, n).contains(x) <==> exists|t: int, row: int|
            0 <= t < n && #[trigger] is_live_row(tables[t], row, x),
    decreases n,
{
    if n > 0 {
        let m = (n - 1) as nat;
        law_items_are_the_live_rows(tables, m, x);
        let table = tables[n - 1];
        let here = live_items(table, columns::table_rows(table));
        lemma_live_items(table, columns::table_rows(table), x);
        vstd::seq_lib::lemma_seq_concat_contains_all_elements(items_spec(tables, m), here, x);
        if here.contains(x) {
            let row = choose|row: int|
                0 <= row < columns::table_rows(table) && #[trigger] is_live_row(table, row, x);
            assert(is_live_row(tables[n - 1], row, x));
        }
        if exists|t: int, row: int| 0 <= t < m && #[trigger] is_live_row(tables[t], row, x) {
            let (t, row) = choose|t: int, row: int|
                0 <= t < m && #[trigger] is_live_row(tables[t], row, x);
            assert(0 <= t < n && is_live_row(tables[t], row, x));
        }
    }
}

} // verus!
