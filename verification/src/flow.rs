//! The flow of work: what is in progress, how long it has been there, what gets done,
//! and how the board looked over time.
//!
//! Chores and expeditions are one series: the two types are not used strictly enough for
//! a split to mean anything.
use vstd::prelude::*;
use crate::columns;
use crate::columns::Table;
use crate::config::BoardConfig;
use crate::keyed;
use crate::relation_vocab;
use crate::sorting;
use crate::sorting::SortKey;
use crate::tally;
use crate::text;
pub use crate::flow_render::{render_aging, render_cfd, render_throughput, render_wip};

verus! {

/// A change of an item's status.
#[derive(Debug, Clone)]
pub struct Transition {
    pub item_id: String,
    /// The status before, or `None` where the item was made.
    pub from: Option<String>,
    pub to: String,
    /// When, in milliseconds.
    pub ts_ms: i64,
    pub forced: bool,
}

#[verifier::ext_equal]
pub struct TransitionView {
    pub item_id: Seq<char>,
    pub from: Option<Seq<char>>,
    pub to: Seq<char>,
    pub ts_ms: i64,
    pub forced: bool,
}

impl View for Transition {
    type V = TransitionView;

    open spec fn view(&self) -> TransitionView {
        TransitionView {
            item_id: self.item_id@,
            from: relation_vocab::option_view(self.from),
            to: self.to@,
            ts_ms: self.ts_ms,
            forced: self.forced,
        }
    }
}

pub open spec fn transition_views(list: Seq<Transition>) -> Seq<TransitionView> {
    Seq::new(list.len(), |i: int| list[i]@)
}

/// What the charts read of an item.
#[derive(Debug, Clone)]
pub struct FlowItem {
    pub id: String,
    pub item_type: String,
    pub board: String,
    pub status: String,
    pub assignee: String,
}

#[verifier::ext_equal]
pub struct FlowItemView {
    pub id: Seq<char>,
    pub item_type: Seq<char>,
    pub board: Seq<char>,
    pub status: Seq<char>,
    pub assignee: Seq<char>,
}

impl View for FlowItem {
    type V = FlowItemView;

    open spec fn view(&self) -> FlowItemView {
        FlowItemView {
            id: self.id@,
            item_type: self.item_type@,
            board: self.board@,
            status: self.status@,
            assignee: self.assignee@,
        }
    }
}

pub open spec fn flow_views(list: Seq<FlowItem>) -> Seq<FlowItemView> {
    Seq::new(list.len(), |i: int| list[i]@)
}

// ---- reading tables -------------------------------------------------------------------------

/// The column of texts with a name, if the first column of that name holds texts.
pub open spec fn text_named(table: Table, name: Seq<char>) -> Option<int> {
    match columns::first_named(columns::table_columns(table), name) {
        Some(col) => if columns::has_text(table, col) {
            Some(col)
        } else {
            None
        },
        None => None,
    }
}

pub open spec fn flags_named(table: Table, name: Seq<char>) -> Option<int> {
    match columns::first_named(columns::table_columns(table), name) {
        Some(col) => if columns::has_flags(table, col) {
            Some(col)
        } else {
            None
        },
        None => None,
    }
}

pub open spec fn millis_named(table: Table, name: Seq<char>) -> Option<int> {
    match columns::first_named(columns::table_columns(table), name) {
        Some(col) => if columns::has_millis(table, col) {
            Some(col)
        } else {
            None
        },
        None => None,
    }
}

/// A column that was found, as a number.
pub open spec fn column_view(col: Option<usize>) -> Option<int> {
    match col {
        Some(col) => Some(col as int),
        None => None,
    }
}

fn text_column(table: &Table, name: &str) -> (r: Option<usize>)
    ensures
        column_view(r) == text_named(*table, name@),
        r is Some ==> columns::has_text(*table, r->0 as int),
{
    match columns::column_named(table, name) {
        Some(col) => {
            proof {
                columns::lemma_first_named(columns::table_columns(*table), name@);
            }
            if columns::is_text(table, col) {
                Some(col)
            } else {
                None
            }
        },
        None => None,
    }
}

fn flags_column(table: &Table, name: &str) -> (r: Option<usize>)
    ensures
        column_view(r) == flags_named(*table, name@),
        r is Some ==> columns::has_flags(*table, r->0 as int),
{
    match columns::column_named(table, name) {
        Some(col) => {
            proof {
                columns::lemma_first_named(columns::table_columns(*table), name@);
            }
            if columns::is_flags(table, col) {
                Some(col)
            } else {
                None
            }
        },
        None => None,
    }
}

fn millis_column(table: &Table, name: &str) -> (r: Option<usize>)
    ensures
        column_view(r) == millis_named(*table, name@),
        r is Some ==> columns::has_millis(*table, r->0 as int),
{
    match columns::column_named(table, name) {
        Some(col) => {
            proof {
                columns::lemma_first_named(columns::table_columns(*table), name@);
            }
            if columns::is_millis(table, col) {
                Some(col)
            } else {
                None
            }
        },
        None => None,
    }
}

/// Whether the flag in a row is set: whether the column exists and the cell is neither
/// null nor unset.
pub open spec fn flag_set(table: Table, col: Option<int>, row: int) -> bool {
    match col {
        Some(col) => columns::flag_cell(table, col, row).valid && columns::flag_cell(
            table,
            col,
            row,
        ).value,
        None => false,
    }
}

fn read_flag(table: &Table, col: Option<usize>, row: usize) -> (r: bool)
    requires
        col is Some ==> columns::has_flags(*table, col->0 as int),
        row < columns::table_rows(*table),
    ensures
        r == flag_set(*table, column_view(col), row as int),
{
    match col {
        Some(col) => !columns::flag_is_null(table, col, row) && columns::flag_value(
            table,
            col,
            row,
        ),
        None => false,
    }
}

/// The text in a row, or nothing where the column does not exist.
pub open spec fn text_or_nothing(table: Table, col: Option<int>, row: int) -> Seq<char> {
    match col {
        Some(col) => columns::text_cell(table, col, row).value,
        None => Seq::empty(),
    }
}

fn read_text(table: &Table, col: Option<usize>, row: usize) -> (r: String)
    requires
        col is Some ==> columns::has_text(*table, col->0 as int),
        row < columns::table_rows(*table),
    ensures
        r@ == text_or_nothing(*table, column_view(col), row as int),
{
    match col {
        Some(col) => columns::text_value(table, col, row),
        None => String::new(),
    }
}

/// The change of status in a row.
pub open spec fn transition_at(table: Table, row: int) -> TransitionView {
    let from = text_named(table, "from_status"@);
    let at = columns::millis_cell(table, millis_named(table, "timestamp"@)->0, row);
    TransitionView {
        item_id: columns::text_cell(table, text_named(table, "item_id"@)->0, row).value,
        from: match from {
            Some(col) => if columns::text_cell(table, col, row).valid {
                Some(columns::text_cell(table, col, row).value)
            } else {
                None
            },
            None => None,
        },
        to: columns::text_cell(table, text_named(table, "to_status"@)->0, row).value,
        ts_ms: if at.valid {
            at.value
        } else {
            0
        },
        forced: flag_set(table, flags_named(table, "forced"@), row),
    }
}

/// Whether a table has the columns that changes of status are read from.
pub open spec fn has_transitions(table: Table) -> bool {
    &&& text_named(table, "item_id"@) is Some
    &&& text_named(table, "to_status"@) is Some
    &&& millis_named(table, "timestamp"@) is Some
}

/// The changes of status in the first `n` tables, in the order of their rows. Tables
/// without the columns for them are passed over.
pub open spec fn recorded(tables: Seq<Table>, n: nat) -> Seq<TransitionView>
    decreases n,
{
    if n == 0 {
        Seq::empty()
    } else {
        let before = recorded(tables, (n - 1) as nat);
        let table = tables[n - 1];
        if has_transitions(table) {
            before + Seq::new(
                columns::table_rows(table),
                |row: int| transition_at(table, row),
            )
        } else {
            before
        }
    }
}

impl SortKey for i64 {
    type Model = i64;

    open spec fn model(&self) -> i64 {
        *self
    }

    open spec fn precedes(a: i64, b: i64) -> bool {
        a <= b
    }

    proof fn le_transitive(a: i64, b: i64, c: i64) {
    }

    proof fn le_total(a: i64, b: i64) {
    }

    fn at_most(&self, other: &Self) -> (r: bool) {
        *self <= *other
    }
}

pub open spec fn times(list: Seq<TransitionView>) -> Seq<i64> {
    Seq::new(list.len(), |i: int| list[i].ts_ms)
}

/// Changes of status from the earliest to the latest; those of one time stay in order.
pub open spec fn by_time(list: Seq<TransitionView>) -> Seq<TransitionView> {
    sorting::pick(list, sorting::stable_order::<i64>(times(list)))
}

fn copy_transition(t: &Transition) -> (r: Transition)
    ensures
        r@ == t@,
{
    let from: Option<String> = match &t.from {
        Some(from) => Some(from.clone()),
        None => None,
    };
    Transition { item_id: t.item_id.clone(), from, to: t.to.clone(), ts_ms: t.ts_ms, forced: t.forced }
}

/// Sorts changes of status by their time.
pub fn sort_by_time(list: &Vec<Transition>) -> (r: Vec<Transition>)
    ensures
        transition_views(r@) == by_time(transition_views(list@)),
{
    let ghost all = transition_views(list@);
    let mut keys: Vec<i64> = Vec::new();
    let mut i: usize = 0;
    while i < list.len()
        invariant
            i <= list@.len(),
            keys@.len() == i,
            forall|k: int| 0 <= k < i ==> #[trigger] keys@[k] == list@[k].ts_ms,
        decreases list@.len() - i,
    {
        keys.push(list[i].ts_ms);
        i = i + 1;
    }
    assert(sorting::models(keys@) =~= times(all));
    let order: Vec<usize> = sorting::sort_positions(&keys);
    let mut r: Vec<Transition> = Vec::new();
    let mut j: usize = 0;
    while j < order.len()
        invariant
            j <= order@.len(),
            all == transition_views(list@),
            forall|k: int| 0 <= k < order@.len() ==> (#[trigger] order@[k]) < list@.len(),
            r@.len() == j,
            forall|k: int| 0 <= k < j ==> (#[trigger] r@[k])@ == all[order@[k] as int],
        decreases order@.len() - j,
    {
        assert(order@[j as int] < list@.len());
        r.push(copy_transition(&list[order[j]]));
        j = j + 1;
    }
    assert(transition_views(r@) =~= by_time(all));
    r
}

fn read_transition(
    table: &Table,
    ids: usize,
    froms: Option<usize>,
    tos: usize,
    stamps: usize,
    forced: Option<usize>,
    row: usize,
) -> (r: Transition)
    requires
        has_transitions(*table),
        text_named(*table, "item_id"@) == Some(ids as int),
        text_named(*table, "from_status"@) == column_view(froms),
        text_named(*table, "to_status"@) == Some(tos as int),
        millis_named(*table, "timestamp"@) == Some(stamps as int),
        flags_named(*table, "forced"@) == column_view(forced),
        row < columns::table_rows(*table),
    ensures
        r@ == transition_at(*table, row as int),
{
    let from: Option<String> = match froms {
        Some(col) => if columns::text_is_null(table, col, row) {
            None
        } else {
            Some(columns::text_value(table, col, row))
        },
        None => None,
    };
    let ts_ms: i64 = if columns::millis_is_null(table, stamps, row) {
        0
    } else {
        columns::millis_value(table, stamps, row)
    };
    Transition {
        item_id: columns::text_value(table, ids, row),
        from,
        to: columns::text_value(table, tos, row),
        ts_ms,
        forced: read_flag(table, forced, row),
    }
}

fn push_transitions(list: &mut Vec<Transition>, table: &Table)
    ensures
        transition_views(final(list)@) == transition_views(old(list)@) + (if has_transitions(
            *table,
        ) {
            Seq::new(columns::table_rows(*table), |row: int| transition_at(*table, row))
        } else {
            Seq::empty()
        }),
{
    let ghost before = transition_views(list@);
    let froms: Option<usize> = text_column(table, "from_status");
    let forced: Option<usize> = flags_column(table, "forced");
    let ids: Option<usize> = text_column(table, "item_id");
    let tos: Option<usize> = text_column(table, "to_status");
    let stamps: Option<usize> = millis_column(table, "timestamp");
    if let (Some(ids), Some(tos), Some(stamps)) = (ids, tos, stamps) {
        let n: usize = columns::num_rows(table);
        let mut row: usize = 0;
        assert(transition_views(list@) =~= before + Seq::new(
            0,
            |row: int| transition_at(*table, row),
        ));
        while row < n
            invariant
                row <= n,
                n == columns::table_rows(*table),
                has_transitions(*table),
                text_named(*table, "item_id"@) == Some(ids as int),
                text_named(*table, "from_status"@) == column_view(froms),
                text_named(*table, "to_status"@) == Some(tos as int),
                millis_named(*table, "timestamp"@) == Some(stamps as int),
                flags_named(*table, "forced"@) == column_view(forced),
                transition_views(list@) == before + Seq::new(
                    row as nat,
                    |row: int| transition_at(*table, row),
                ),
            decreases n - row,
        {
            let t: Transition = read_transition(table, ids, froms, tos, stamps, forced, row);
            let ghost so_far = transition_views(list@);
            let ghost shown = t@;
            list.push(t);
            assert(transition_views(list@) =~= so_far.push(shown));
            assert(transition_views(list@) =~= before + Seq::new(
                (row + 1) as nat,
                |row: int| transition_at(*table, row),
            ));
            row = row + 1;
        }
    } else {
        assert(transition_views(list@) =~= before + Seq::<TransitionView>::empty());
    }
}

/// Reads the changes of status from the tables that record them, from the earliest to
/// the latest.
pub fn transitions(runs: &[Table]) -> (r: Vec<Transition>)
    ensures
        transition_views(r@) == by_time(recorded(runs@, runs@.len())),
{
    let mut list: Vec<Transition> = Vec::new();
    let mut t: usize = 0;
    assert(transition_views(list@) =~= recorded(runs@, 0));
    while t < runs.len()
        invariant
            t <= runs@.len(),
            transition_views(list@) == recorded(runs@, t as nat),
        decreases runs@.len() - t,
    {
        let ghost before = transition_views(list@);
        push_transitions(&mut list, &runs[t]);
        assert(before + Seq::<TransitionView>::empty() =~= before);
        t = t + 1;
    }
    sort_by_time(&list)
}

/// Whether a table has the columns that items are read from.
pub open spec fn has_flow_items(table: Table) -> bool {
    text_named(table, "id"@) is Some && text_named(table, "status"@) is Some
}

pub open spec fn flow_item_at(table: Table, row: int) -> FlowItemView {
    FlowItemView {
        id: text_or_nothing(table, text_named(table, "id"@), row),
        item_type: text_or_nothing(table, text_named(table, "item_type"@), row),
        board: text_or_nothing(table, text_named(table, "board"@), row),
        status: text_or_nothing(table, text_named(table, "status"@), row),
        assignee: text_or_nothing(table, text_named(table, "assignee"@), row),
    }
}

/// The items in the first `n` rows of a table that are not deleted.
pub open spec fn live_rows(table: Table, n: nat) -> Seq<FlowItemView>
    decreases n,
{
    if n == 0 {
        Seq::empty()
    } else {
        let before = live_rows(table, (n - 1) as nat);
        if flag_set(table, flags_named(table, "deleted"@), n - 1) {
            before
        } else {
            before.push(flow_item_at(table, n - 1))
        }
    }
}

/// The items of the first `n` tables that are not deleted. Tables without the columns for
/// them are passed over.
pub open spec fn flow_items_spec(tables: Seq<Table>, n: nat) -> Seq<FlowItemView>
    decreases n,
{
    if n == 0 {
        Seq::empty()
    } else {
        let before = flow_items_spec(tables, (n - 1) as nat);
        let table = tables[n - 1];
        if has_flow_items(table) {
            before + live_rows(table, columns::table_rows(table))
        } else {
            before
        }
    }
}

fn push_flow_items(list: &mut Vec<FlowItem>, table: &Table)
    ensures
        flow_views(final(list)@) == flow_views(old(list)@) + (if has_flow_items(*table) {
            live_rows(*table, columns::table_rows(*table))
        } else {
            Seq::empty()
        }),
{
    let ghost before = flow_views(list@);
    let ids: Option<usize> = text_column(table, "id");
    let types: Option<usize> = text_column(table, "item_type");
    let boards: Option<usize> = text_column(table, "board");
    let statuses: Option<usize> = text_column(table, "status");
    let assignees: Option<usize> = text_column(table, "assignee");
    let deleted: Option<usize> = flags_column(table, "deleted");
    if ids.is_none() || statuses.is_none() {
        assert(flow_views(list@) =~= before + Seq::<FlowItemView>::empty());
        return ;
    }
    let n: usize = columns::num_rows(table);
    let mut row: usize = 0;
    assert(flow_views(list@) =~= before + live_rows(*table, 0));
    while row < n
        invariant
            row <= n,
            n == columns::table_rows(*table),
            has_flow_items(*table),
            text_named(*table, "id"@) == column_view(ids),
            text_named(*table, "item_type"@) == column_view(types),
            text_named(*table, "board"@) == column_view(boards),
            text_named(*table, "status"@) == column_view(statuses),
            text_named(*table, "assignee"@) == column_view(assignees),
            flags_named(*table, "deleted"@) == column_view(deleted),
            flow_views(list@) == before + live_rows(*table, row as nat),
        decreases n - row,
    {
        if !read_flag(table, deleted, row) {
            let item: FlowItem = FlowItem {
                id: read_text(table, ids, row),
                item_type: read_text(table, types, row),
                board: read_text(table, boards, row),
                status: read_text(table, statuses, row),
                assignee: read_text(table, assignees, row),
            };
            let ghost so_far = flow_views(list@);
            let ghost shown = item@;
            list.push(item);
            assert(flow_views(list@) =~= so_far.push(shown));
            assert(flow_views(list@) =~= before + live_rows(*table, (row + 1) as nat));
        }
        row = row + 1;
    }
}

/// Reads the items that are not deleted, with what the charts need of them.
pub fn flow_items(tables: &[Table]) -> (r: Vec<FlowItem>)
    ensures
        flow_views(r@) == flow_items_spec(tables@, tables@.len()),
{
    let mut list: Vec<FlowItem> = Vec::new();
    let mut t: usize = 0;
    assert(flow_views(list@) =~= flow_items_spec(tables@, 0));
    while t < tables.len()
        invariant
            t <= tables@.len(),
            flow_views(list@) == flow_items_spec(tables@, t as nat),
        decreases tables@.len() - t,
    {
        let ghost before = flow_views(list@);
        push_flow_items(&mut list, &tables[t]);
        assert(before + Seq::<FlowItemView>::empty() =~= before);
        t = t + 1;
    }
    list
}

// ---- the board over time ----------------------------------------------------------------------

/// The types that make up the one series of work.
pub open spec fn in_series(item_type: Seq<char>) -> bool {
    text::lower_spec(item_type) == "chore"@ || text::lower_spec(item_type) == "expedition"@
}

/// Whether a type is part of the one series of work: chores and expeditions together.
pub fn combined_series_type(item_type: &str) -> (r: bool)
    ensures
        r == in_series(item_type@),
{
    let lowered: String = text::lower(item_type);
    text::same(lowered.as_str(), "chore") || text::same(lowered.as_str(), "expedition")
}

/// Whether an id is of a board's series.
pub open spec fn in_scope(items: Seq<FlowItemView>, board: Seq<char>, id: Seq<char>) -> bool {
    exists|i: int|
        0 <= i < items.len() && (#[trigger] items[i]).board == board && in_series(
            items[i].item_type,
        ) && items[i].id == id
}

fn is_in_scope(items: &[FlowItem], board: &str, id: &str) -> (r: bool)
    ensures
        r == in_scope(flow_views(items@), board@, id@),
{
    let ghost views = flow_views(items@);
    let mut i: usize = 0;
    while i < items.len()
        invariant
            i <= items@.len(),
            views == flow_views(items@),
            forall|k: int|
                0 <= k < i ==> !((#[trigger] views[k]).board == board@ && in_series(
                    views[k].item_type,
                ) && views[k].id == id@),
        decreases items@.len() - i,
    {
        let item: &FlowItem = &items[i];
        assert(views[i as int] == item@);
        if text::same(item.id.as_str(), id) && text::same(item.board.as_str(), board)
            && combined_series_type(item.item_type.as_str()) {
            return true;
        }
        i = i + 1;
    }
    false
}

/// Whether a change of status is the one that holds for its item at a time: it is the
/// last of the item's changes up to that time.
pub open spec fn holds_at(trans: Seq<TransitionView>, p: int, at: int) -> bool {
    &&& trans[p].ts_ms <= at
    &&& forall|q: int|
        p < q < trans.len() && (#[trigger] trans[q]).item_id == trans[p].item_id ==> trans[q].ts_ms
            > at
}

/// The statuses at a time of the items in scope, as the first `n` changes give them.
pub open spec fn statuses_at(
    trans: Seq<TransitionView>,
    items: Seq<FlowItemView>,
    board: Seq<char>,
    at: int,
    n: nat,
) -> Seq<Seq<char>>
    decreases n,
{
    if n == 0 {
        Seq::empty()
    } else {
        let before = statuses_at(trans, items, board, at, (n - 1) as nat);
        if in_scope(items, board, trans[n - 1].item_id) && holds_at(trans, n - 1, at) {
            before.push(trans[n - 1].to)
        } else {
            before
        }
    }
}

/// The earliest time after the epoch among the first `n` changes, if there is one.
pub open spec fn earliest(trans: Seq<TransitionView>, n: nat) -> Option<i64>
    decreases n,
{
    if n == 0 {
        None
    } else {
        let t = trans[n - 1].ts_ms;
        match earliest(trans, (n - 1) as nat) {
            Some(e) => Some(
                if 0 < t < e {
                    t
                } else {
                    e
                },
            ),
            None => if t > 0 {
                Some(t)
            } else {
                None
            },
        }
    }
}

/// The latest time among the first `n` changes, of which there is one at least.
pub open spec fn latest(trans: Seq<TransitionView>, n: nat) -> i64
    decreases n,
{
    if n <= 1 {
        trans[0].ts_ms
    } else {
        let l = latest(trans, (n - 1) as nat);
        if trans[n - 1].ts_ms > l {
            trans[n - 1].ts_ms
        } else {
            l
        }
    }
}

/// Where a series starts: at the earliest time after the epoch, or at the epoch.
pub open spec fn series_start(trans: Seq<TransitionView>) -> int {
    match earliest(trans, trans.len()) {
        Some(t) => t as int,
        None => 0,
    }
}

pub open spec fn series_view(series: Seq<(i64, Vec<(String, usize)>)>) -> Seq<
    (i64, Seq<(Seq<char>, usize)>),
> {
    Seq::new(series.len(), |i: int| (series[i].0, keyed::pairs(series[i].1@)))
}

/// The width of buckets, at least one.
pub open spec fn width(bucket_ms: i64) -> int {
    if bucket_ms > 1 {
        bucket_ms as int
    } else {
        1
    }
}

/// Whether any change is of an item in scope.
pub open spec fn any_in_scope(
    trans: Seq<TransitionView>,
    items: Seq<FlowItemView>,
    board: Seq<char>,
) -> bool {
    exists|p: int| 0 <= p < trans.len() && in_scope(items, board, (#[trigger] trans[p]).item_id)
}

/// Whether the first entries of a series are right: a bucket's width apart, from the
/// start on, each with the count of the statuses at its time.
pub open spec fn is_series_prefix(
    series: Seq<(i64, Seq<(Seq<char>, usize)>)>,
    trans: Seq<TransitionView>,
    items: Seq<FlowItemView>,
    bucket_ms: i64,
    board: Seq<char>,
) -> bool {
    forall|k: int|
        0 <= k < series.len() ==> {
            &&& (#[trigger] series[k]).0 == series_start(trans) + k * width(bucket_ms)
            &&& series[k].0 <= latest(trans, trans.len())
            &&& tally::is_tally(
                series[k].1,
                statuses_at(trans, items, board, series[k].0 as int, trans.len()),
            )
        }
}

/// The board over time: empty where no change is in scope, and else one entry for every
/// bucket from the first change to the last.
pub open spec fn is_series(
    series: Seq<(i64, Seq<(Seq<char>, usize)>)>,
    trans: Seq<TransitionView>,
    items: Seq<FlowItemView>,
    bucket_ms: i64,
    board: Seq<char>,
) -> bool {
    if any_in_scope(trans, items, board) {
        &&& is_series_prefix(series, trans, items, bucket_ms, board)
        &&& series_start(trans) + series.len() * width(bucket_ms) > latest(trans, trans.len())
    } else {
        series.len() == 0
    }
}

/// When a later change of the same item sets in, if one does.
spec fn is_next(trans: Seq<TransitionView>, p: int, next: Option<i64>) -> bool {
    match next {
        Some(t) => {
            &&& exists|q: int|
                p < q < trans.len() && (#[trigger] trans[q]).item_id == trans[p].item_id
                    && trans[q].ts_ms == t
            &&& forall|q: int|
                p < q < trans.len() && (#[trigger] trans[q]).item_id == trans[p].item_id
                    ==> trans[q].ts_ms >= t
        },
        None => forall|q: int|
            p < q < trans.len() ==> (#[trigger] trans[q]).item_id != trans[p].item_id,
    }
}

fn find_next(trans: &[Transition], p: usize) -> (r: Option<i64>)
    requires
        p < trans.len(),
    ensures
        is_next(transition_views(trans@), p as int, r),
{
    let ghost views = transition_views(trans@);
    let mut r: Option<i64> = None;
    let mut q: usize = p + 1;
    while q < trans.len()
        invariant
            p < q <= trans@.len(),
            views == transition_views(trans@),
            is_next(views.take(q as int), p as int, r),
        decreases trans@.len() - q,
    {
        let ghost before = views.take(q as int);
        let ghost after = views.take(q + 1);
        let ghost was = r;
        assert(after[q as int] == trans@[q as int]@);
        assert(before[p as int] == after[p as int]);
        assert forall|k: int| p < k < q implies before[k] == #[trigger] after[k] by {}
        if text::same(trans[q].item_id.as_str(), trans[p].item_id.as_str()) {
            let t: i64 = trans[q].ts_ms;
            r = match r {
                Some(s) => if t < s {
                    Some(t)
                } else {
                    Some(s)
                },
                None => Some(t),
            };
        }
        proof {
            if let Some(s) = was {
                let k = choose|k: int|
                    p < k < before.len() && (#[trigger] before[k]).item_id == before[p as int].item_id
                        && before[k].ts_ms == s;
                assert(after[k].item_id == after[p as int].item_id && after[k].ts_ms == s);
            }
            assert(is_next(after, p as int, r));
        }
        q = q + 1;
    }
    assert(views.take(q as int) =~= views);
    r
}

proof fn lemma_holds(trans: Seq<TransitionView>, p: int, at: int, next: Option<i64>)
    requires
        0 <= p < trans.len(),
        is_next(trans, p, next),
    ensures
        holds_at(trans, p, at) == (trans[p].ts_ms <= at && (match next {
            Some(t) => t > at,
            None => true,
        })),
{
    if let Some(t) = next {
        let q = choose|q: int|
            p < q < trans.len() && (#[trigger] trans[q]).item_id == trans[p].item_id
                && trans[q].ts_ms == t;
        assert(trans[q].item_id == trans[p].item_id);
    }
}

fn tally_at(
    trans: &[Transition],
    items: &[FlowItem],
    board: &str,
    scope: &Vec<bool>,
    nexts: &Vec<Option<i64>>,
    at: i64,
) -> (r: Vec<(String, usize)>)
    requires
        scope@.len() == trans@.len(),
        nexts@.len() == trans@.len(),
        forall|p: int|
            0 <= p < trans@.len() ==> #[trigger] scope@[p] == in_scope(
                flow_views(items@),
                board@,
                transition_views(trans@)[p].item_id,
            ),
        forall|p: int|
            0 <= p < trans@.len() ==> is_next(
                transition_views(trans@),
                p,
                #[trigger] nexts@[p],
            ),
    ensures
        tally::is_tally(
            keyed::pairs(r@),
            statuses_at(
                transition_views(trans@),
                flow_views(items@),
                board@,
                at as int,
                trans@.len(),
            ),
        ),
{
    let ghost views = transition_views(trans@);
    let ghost its = flow_views(items@);
    let mut names: Vec<String> = Vec::new();
    let mut p: usize = 0;
    assert(text::views(names@) =~= statuses_at(views, its, board@, at as int, 0));
    while p < trans.len()
        invariant
            p <= trans@.len(),
            views == transition_views(trans@),
            its == flow_views(items@),
            scope@.len() == trans@.len(),
            nexts@.len() == trans@.len(),
            forall|p: int|
                0 <= p < trans@.len() ==> #[trigger] scope@[p] == in_scope(
                    its,
                    board@,
                    views[p].item_id,
                ),
            forall|p: int| 0 <= p < trans@.len() ==> is_next(views, p, #[trigger] nexts@[p]),
            text::views(names@) == statuses_at(views, its, board@, at as int, p as nat),
        decreases trans@.len() - p,
    {
        assert(views[p as int] == trans@[p as int]@);
        proof {
            lemma_holds(views, p as int, at as int, nexts@[p as int]);
        }
        let current: bool = trans[p].ts_ms <= at && match nexts[p] {
            Some(t) => t > at,
            None => true,
        };
        if scope[p] && current {
            let ghost before = text::views(names@);
            names.push(trans[p].to.clone());
            assert(text::views(names@) =~= before.push(views[p as int].to));
        }
        p = p + 1;
    }
    tally::tally(&names)
}

fn bounds(trans: &[Transition]) -> (r: (i64, i64))
    requires
        trans@.len() > 0,
    ensures
        r.0 == series_start(transition_views(trans@)),
        r.0 >= 0,
        r.1 == latest(transition_views(trans@), trans@.len()),
{
    let ghost views = transition_views(trans@);
    let mut first: Option<i64> = None;
    let mut last: i64 = trans[0].ts_ms;
    assert(views[0] == trans@[0]@);
    let mut i: usize = 0;
    while i < trans.len()
        invariant
            i <= trans@.len(),
            trans@.len() > 0,
            views == transition_views(trans@),
            first == earliest(views, i as nat),
            first is Some ==> first->0 > 0,
            last == latest(views, i as nat),
        decreases trans@.len() - i,
    {
        let t: i64 = trans[i].ts_ms;
        assert(views[i as int] == trans@[i as int]@);
        first = match first {
            Some(e) => if 0 < t && t < e {
                Some(t)
            } else {
                Some(e)
            },
            None => if t > 0 {
                Some(t)
            } else {
                None
            },
        };
        if i > 0 && t > last {
            last = t;
        }
        i = i + 1;
    }
    let start: i64 = match first {
        Some(t) => t,
        None => 0,
    };
    (start, last)
}

/// How many items of a board's series were in each status, at every bucket's boundary
/// from the first change to the last.
pub fn status_series(trans: &[Transition], items: &[FlowItem], bucket_ms: i64, board: &str) -> (r:
    Vec<(i64, Vec<(String, usize)>)>)
    ensures
        is_series(
            series_view(r@),
            transition_views(trans@),
            flow_views(items@),
            bucket_ms,
            board@,
        ),
{
    let ghost views = transition_views(trans@);
    let ghost its = flow_views(items@);
    let mut out: Vec<(i64, Vec<(String, usize)>)> = Vec::new();
    let mut scope: Vec<bool> = Vec::new();
    let mut nexts: Vec<Option<i64>> = Vec::new();
    let mut any: bool = false;
    let mut p: usize = 0;
    while p < trans.len()
        invariant
            p <= trans@.len(),
            views == transition_views(trans@),
            its == flow_views(items@),
            scope@.len() == p,
            nexts@.len() == p,
            forall|k: int|
                0 <= k < p ==> #[trigger] scope@[k] == in_scope(its, board@, views[k].item_id),
            forall|k: int| 0 <= k < p ==> is_next(views, k, #[trigger] nexts@[k]),
            any == exists|k: int| 0 <= k < p && in_scope(its, board@, (#[trigger] views[k]).item_id),
        decreases trans@.len() - p,
    {
        assert(views[p as int] == trans@[p as int]@);
        let inside: bool = is_in_scope(items, board, trans[p].item_id.as_str());
        scope.push(inside);
        nexts.push(find_next(trans, p));
        any = any || inside;
        p = p + 1;
    }
    if !any {
        return out;
    }
    let (start, end) = bounds(trans);
    let bucket: i64 = if bucket_ms > 1 {
        bucket_ms
    } else {
        1
    };
    let ghost w = width(bucket_ms);
    let mut at: i64 = start;
    let mut more: bool = start <= end;
    assert(0 * w == 0);
    while more
        invariant
            views == transition_views(trans@),
            its == flow_views(items@),
            scope@.len() == trans@.len(),
            nexts@.len() == trans@.len(),
            forall|p: int|
                0 <= p < trans@.len() ==> #[trigger] scope@[p] == in_scope(
                    its,
                    board@,
                    views[p].item_id,
                ),
            forall|p: int| 0 <= p < trans@.len() ==> is_next(views, p, #[trigger] nexts@[p]),
            w == width(bucket_ms),
            bucket == w,
            start == series_start(views),
            start >= 0,
            end == latest(views, views.len()),
            start <= at,
            is_series_prefix(series_view(out@), views, its, bucket_ms, board@),
            more ==> at == start + out@.len() * w && at <= end,
            !more ==> start + out@.len() * w > end,
        decreases
                if more {
                    end - at + 1
                } else {
                    0
                },
    {
        let counts: Vec<(String, usize)> = tally_at(trans, items, board, &scope, &nexts, at);
        let ghost before = series_view(out@);
        let ghost n = out@.len();
        let ghost shown = (at, keyed::pairs(counts@));
        out.push((at, counts));
        assert(series_view(out@) =~= before.push(shown));
        assert((n + 1) * w == n * w + w) by (nonlinear_arith);
        assert forall|k: int| 0 <= k < series_view(out@).len() implies {
            &&& (#[trigger] series_view(out@)[k]).0 == series_start(views) + k * width(bucket_ms)
            &&& series_view(out@)[k].0 <= latest(views, views.len())
            &&& tally::is_tally(
                series_view(out@)[k].1,
                statuses_at(views, its, board@, series_view(out@)[k].0 as int, views.len()),
            )
        } by {
            if k < n {
                assert(series_view(out@)[k] == before[k]);
            }
        }
        if end - at < bucket {
            more = false;
        } else {
            at = at + bucket;
        }
    }
    out
}

// ---- work in progress ------------------------------------------------------------------------

/// A status, how many items are in it, and its limit.
#[derive(Debug)]
pub struct WipRow {
    pub status: String,
    pub count: usize,
    pub limit: Option<u32>,
    /// Whether there are more items than the limit allows.
    pub breach: bool,
}

/// Whether an item counts as work in progress on a board.
pub open spec fn counts_as_work(item: FlowItemView, config: BoardConfig) -> bool {
    item.board == config.name@ && !text::views(config.wip_exempt_types@).contains(item.item_type)
}

/// Who has an item; a dash where nobody has.
pub open spec fn agent_spec(item: FlowItemView) -> Seq<char> {
    if item.assignee.len() == 0 {
        "-"@
    } else {
        item.assignee
    }
}

/// The statuses of the work among the first `n` items.
pub open spec fn work_statuses(items: Seq<FlowItemView>, config: BoardConfig, n: nat) -> Seq<
    Seq<char>,
>
    decreases n,
{
    if n == 0 {
        Seq::empty()
    } else {
        let before = work_statuses(items, config, (n - 1) as nat);
        if counts_as_work(items[n - 1], config) {
            before.push(items[n - 1].status)
        } else {
            before
        }
    }
}

/// Who has the work among the first `n` items.
pub open spec fn work_agents(items: Seq<FlowItemView>, config: BoardConfig, n: nat) -> Seq<
    Seq<char>,
>
    decreases n,
{
    if n == 0 {
        Seq::empty()
    } else {
        let before = work_agents(items, config, (n - 1) as nat);
        if counts_as_work(items[n - 1], config) {
            before.push(agent_spec(items[n - 1]))
        } else {
            before
        }
    }
}

/// The statuses of the work that an agent has among the first `n` items.
pub open spec fn statuses_of_agent(
    items: Seq<FlowItemView>,
    config: BoardConfig,
    agent: Seq<char>,
    n: nat,
) -> Seq<Seq<char>>
    decreases n,
{
    if n == 0 {
        Seq::empty()
    } else {
        let before = statuses_of_agent(items, config, agent, (n - 1) as nat);
        if counts_as_work(items[n - 1], config) && agent_spec(items[n - 1]) == agent {
            before.push(items[n - 1].status)
        } else {
            before
        }
    }
}

pub open spec fn row_counts(rows: Seq<WipRow>) -> Seq<(Seq<char>, usize)> {
    Seq::new(rows.len(), |i: int| (rows[i].status@, rows[i].count))
}

/// Whether rows show the work in progress: they count it by status, and each carries its
/// limit and whether it is broken.
pub open spec fn is_wip(rows: Seq<WipRow>, items: Seq<FlowItemView>, config: BoardConfig) -> bool {
    &&& tally::is_tally(row_counts(rows), work_statuses(items, config, items.len()))
    &&& forall|i: int|
        0 <= i < rows.len() ==> (#[trigger] rows[i]).limit == config.limit(rows[i].status@)
            && rows[i].breach == (rows[i].limit is Some && rows[i].count > rows[i].limit->0)
}

pub open spec fn agents_view(list: Seq<(String, Vec<(String, usize)>)>) -> Seq<
    (Seq<char>, Seq<(Seq<char>, usize)>),
> {
    Seq::new(list.len(), |i: int| (list[i].0@, keyed::pairs(list[i].1@)))
}

/// Whether a list shows who has the work: every agent once, in order, with the statuses
/// of the agent's work counted.
pub open spec fn is_by_agent(
    list: Seq<(Seq<char>, Seq<(Seq<char>, usize)>)>,
    items: Seq<FlowItemView>,
    config: BoardConfig,
) -> bool {
    &&& sorting::is_strictly_sorted(tally::keys(list))
    &&& forall|s: Seq<char>| #[trigger]
        tally::keys(list).contains(s) == work_agents(items, config, items.len()).contains(s)
    &&& forall|i: int|
        0 <= i < list.len() ==> tally::is_tally(
            (#[trigger] list[i]).1,
            statuses_of_agent(items, config, list[i].0, items.len()),
        )
}

fn is_work(item: &FlowItem, config: &BoardConfig) -> (r: bool)
    ensures
        r == counts_as_work(item@, *config),
{
    text::same(item.board.as_str(), config.name.as_str()) && !config.is_wip_exempt(
        item.item_type.as_str(),
    )
}

fn agent_of(item: &FlowItem) -> (r: String)
    ensures
        r@ == agent_spec(item@),
{
    if item.assignee.as_str().is_empty() {
        text::owned("-")
    } else {
        item.assignee.clone()
    }
}

fn wip_rows(items: &[FlowItem], config: &BoardConfig) -> (r: Vec<WipRow>)
    ensures
        is_wip(r@, flow_views(items@), *config),
{
    let ghost its = flow_views(items@);
    let mut statuses: Vec<String> = Vec::new();
    let mut i: usize = 0;
    assert(text::views(statuses@) =~= work_statuses(its, *config, 0));
    while i < items.len()
        invariant
            i <= items@.len(),
            its == flow_views(items@),
            text::views(statuses@) == work_statuses(its, *config, i as nat),
        decreases items@.len() - i,
    {
        assert(its[i as int] == items@[i as int]@);
        if is_work(&items[i], config) {
            let ghost before = text::views(statuses@);
            statuses.push(items[i].status.clone());
            assert(text::views(statuses@) =~= before.push(its[i as int].status));
        }
        i = i + 1;
    }
    let counts: Vec<(String, usize)> = tally::tally(&statuses);
    let mut rows: Vec<WipRow> = Vec::new();
    let mut j: usize = 0;
    while j < counts.len()
        invariant
            j <= counts@.len(),
            rows@.len() == j,
            forall|k: int|
                0 <= k < j ==> (#[trigger] rows@[k]).status@ == counts@[k].0@ && rows@[k].count
                    == counts@[k].1 && rows@[k].limit == config.limit(rows@[k].status@)
                    && rows@[k].breach == (rows@[k].limit is Some && rows@[k].count
                    > rows@[k].limit->0),
        decreases counts@.len() - j,
    {
        let status: String = counts[j].0.clone();
        let count: usize = counts[j].1;
        let limit: Option<u32> = config.wip_limit(status.as_str());
        let breach: bool = match limit {
            Some(l) => count > l as usize,
            None => false,
        };
        rows.push(WipRow { status, count, limit, breach });
        j = j + 1;
    }
    assert(row_counts(rows@) =~= keyed::pairs(counts@));
    rows
}

fn tally_of_agent(items: &[FlowItem], config: &BoardConfig, agent: &str) -> (r: Vec<
    (String, usize),
>)
    ensures
        tally::is_tally(
            keyed::pairs(r@),
            statuses_of_agent(flow_views(items@), *config, agent@, items@.len()),
        ),
{
    let ghost its = flow_views(items@);
    let mut statuses: Vec<String> = Vec::new();
    let mut i: usize = 0;
    assert(text::views(statuses@) =~= statuses_of_agent(its, *config, agent@, 0));
    while i < items.len()
        invariant
            i <= items@.len(),
            its == flow_views(items@),
            text::views(statuses@) == statuses_of_agent(its, *config, agent@, i as nat),
        decreases items@.len() - i,
    {
        assert(its[i as int] == items@[i as int]@);
        let own: String = agent_of(&items[i]);
        if is_work(&items[i], config) && text::same(own.as_str(), agent) {
            let ghost before = text::views(statuses@);
            statuses.push(items[i].status.clone());
            assert(text::views(statuses@) =~= before.push(its[i as int].status));
        }
        i = i + 1;
    }
    tally::tally(&statuses)
}

fn agents_at_work(items: &[FlowItem], config: &BoardConfig) -> (r: Vec<String>)
    ensures
        text::views(r@) == work_agents(flow_views(items@), *config, items@.len()),
{
    let ghost its = flow_views(items@);
    let mut agents: Vec<String> = Vec::new();
    let mut i: usize = 0;
    assert(text::views(agents@) =~= work_agents(its, *config, 0));
    while i < items.len()
        invariant
            i <= items@.len(),
            its == flow_views(items@),
            text::views(agents@) == work_agents(its, *config, i as nat),
        decreases items@.len() - i,
    {
        assert(its[i as int] == items@[i as int]@);
        if is_work(&items[i], config) {
            let ghost before = text::views(agents@);
            agents.push(agent_of(&items[i]));
            assert(text::views(agents@) =~= before.push(agent_spec(its[i as int])));
        }
        i = i + 1;
    }
    agents
}

/// The work in progress on a board: by status against the limits, and by agent.
pub fn wip(items: &[FlowItem], config: &BoardConfig) -> (r: (
    Vec<WipRow>,
    Vec<(String, Vec<(String, usize)>)>,
))
    ensures
        is_wip(r.0@, flow_views(items@), *config),
        is_by_agent(agents_view(r.1@), flow_views(items@), *config),
{
    let ghost its = flow_views(items@);
    let rows: Vec<WipRow> = wip_rows(items, config);
    let agents: Vec<String> = agents_at_work(items, config);
    let distinct: Vec<String> = sorting::sort_and_dedup(&agents);
    let mut per_agent: Vec<(String, Vec<(String, usize)>)> = Vec::new();
    let mut i: usize = 0;
    while i < distinct.len()
        invariant
            i <= distinct@.len(),
            its == flow_views(items@),
            per_agent@.len() == i,
            forall|k: int|
                0 <= k < i ==> (#[trigger] per_agent@[k]).0@ == distinct@[k]@ && tally::is_tally(
                    keyed::pairs(per_agent@[k].1@),
                    statuses_of_agent(its, *config, distinct@[k]@, its.len()),
                ),
        decreases distinct@.len() - i,
    {
        let counts: Vec<(String, usize)> = tally_of_agent(items, config, distinct[i].as_str());
        per_agent.push((distinct[i].clone(), counts));
        i = i + 1;
    }
    assert(tally::keys(agents_view(per_agent@)) =~= text::views(distinct@));
    assert forall|k: int| 0 <= k < per_agent@.len() implies tally::is_tally(
        (#[trigger] agents_view(per_agent@)[k]).1,
        statuses_of_agent(its, *config, agents_view(per_agent@)[k].0, its.len()),
    ) by {
        assert(per_agent@[k].0@ == distinct@[k]@);
    }
    (rows, per_agent)
}

// ---- aging -------------------------------------------------------------------------------------

/// An item and how long it has been in its status.
#[derive(Debug)]
pub struct AgingRow {
    pub id: String,
    pub status: String,
    /// Milliseconds since the last change into the status.
    pub in_status_ms: i64,
}

#[verifier::ext_equal]
pub struct AgingView {
    pub id: Seq<char>,
    pub status: Seq<char>,
    pub in_status_ms: i64,
}

impl View for AgingRow {
    type V = AgingView;

    open spec fn view(&self) -> AgingView {
        AgingView { id: self.id@, status: self.status@, in_status_ms: self.in_status_ms }
    }
}

pub open spec fn aging_views(list: Seq<AgingRow>) -> Seq<AgingView> {
    Seq::new(list.len(), |i: int| list[i]@)
}

/// The time of the last of the first `n` changes that put an item in a status.
pub open spec fn entered(
    trans: Seq<TransitionView>,
    id: Seq<char>,
    status: Seq<char>,
    n: nat,
) -> Option<i64>
    decreases n,
{
    if n == 0 {
        None
    } else if trans[n - 1].item_id == id && trans[n - 1].to == status {
        Some(trans[n - 1].ts_ms)
    } else {
        entered(trans, id, status, (n - 1) as nat)
    }
}

/// The ages of those of the first `n` items that are open and whose entry into their
/// status is recorded.
pub open spec fn ages(
    items: Seq<FlowItemView>,
    trans: Seq<TransitionView>,
    terminal: Seq<Seq<char>>,
    now_ms: i64,
    n: nat,
) -> Seq<AgingView>
    decreases n,
{
    if n == 0 {
        Seq::empty()
    } else {
        let before = ages(items, trans, terminal, now_ms, (n - 1) as nat);
        let item = items[n - 1];
        match entered(trans, item.id, item.status, trans.len()) {
            Some(ts) => if terminal.contains(item.status) {
                before
            } else {
                before.push(
                    AgingView {
                        id: item.id,
                        status: item.status,
                        in_status_ms: if ts < now_ms {
                            (now_ms - ts) as i64
                        } else {
                            0
                        },
                    },
                )
            },
            None => before,
        }
    }
}

/// A time that sorts from the longest to the shortest.
#[derive(Debug)]
pub struct Longest(pub i64);

impl SortKey for Longest {
    type Model = i64;

    open spec fn model(&self) -> i64 {
        self.0
    }

    open spec fn precedes(a: i64, b: i64) -> bool {
        a >= b
    }

    proof fn le_transitive(a: i64, b: i64, c: i64) {
    }

    proof fn le_total(a: i64, b: i64) {
    }

    fn at_most(&self, other: &Self) -> (r: bool) {
        self.0 >= other.0
    }
}

pub open spec fn durations(list: Seq<AgingView>) -> Seq<i64> {
    Seq::new(list.len(), |i: int| list[i].in_status_ms)
}

/// Ages from the longest to the shortest; items of one age stay in order.
pub open spec fn oldest_first(list: Seq<AgingView>) -> Seq<AgingView> {
    sorting::pick(list, sorting::stable_order::<Longest>(durations(list)))
}

fn find_entry(trans: &[Transition], id: &str, status: &str) -> (r: Option<i64>)
    ensures
        r == entered(transition_views(trans@), id@, status@, trans@.len()),
        r is Some ==> exists|k: int| 0 <= k < trans@.len() && (#[trigger] trans@[k]).ts_ms == r->0,
{
    let ghost views = transition_views(trans@);
    let mut i: usize = trans.len();
    while i > 0
        invariant
            i <= trans@.len(),
            views == transition_views(trans@),
            entered(views, id@, status@, views.len()) == entered(views, id@, status@, i as nat),
        decreases i,
    {
        let t: &Transition = &trans[i - 1];
        assert(views[i - 1] == t@);
        if text::same(t.item_id.as_str(), id) && text::same(t.to.as_str(), status) {
            assert(trans@[i - 1].ts_ms == t.ts_ms);
            return Some(t.ts_ms);
        }
        i = i - 1;
    }
    None
}

/// How long the open items have been in their statuses, the longest first. Items whose
/// entry into their status is not recorded are left out, not guessed.
pub fn aging(items: &[FlowItem], trans: &[Transition], terminal: &Vec<String>, now_ms: i64) -> (r:
    Vec<AgingRow>)
    requires
        forall|i: int|
            0 <= i < trans@.len() ==> now_ms - (#[trigger] trans@[i]).ts_ms <= i64::MAX,
    ensures
        aging_views(r@) == oldest_first(
            ages(
                flow_views(items@),
                transition_views(trans@),
                text::views(terminal@),
                now_ms,
                items@.len(),
            ),
        ),
{
    let ghost its = flow_views(items@);
    let ghost views = transition_views(trans@);
    let ghost ends = text::views(terminal@);
    let mut found: Vec<AgingRow> = Vec::new();
    let mut keys: Vec<Longest> = Vec::new();
    let mut i: usize = 0;
    assert(aging_views(found@) =~= ages(its, views, ends, now_ms, 0));
    while i < items.len()
        invariant
            i <= items@.len(),
            its == flow_views(items@),
            views == transition_views(trans@),
            ends == text::views(terminal@),
            forall|i: int|
                0 <= i < trans@.len() ==> now_ms - (#[trigger] trans@[i]).ts_ms <= i64::MAX,
            aging_views(found@) == ages(its, views, ends, now_ms, i as nat),
            keys@.len() == found@.len(),
            forall|k: int|
                0 <= k < keys@.len() ==> (#[trigger] keys@[k]).0 == found@[k].in_status_ms,
        decreases items@.len() - i,
    {
        let item: &FlowItem = &items[i];
        assert(its[i as int] == item@);
        let entry: Option<i64> = find_entry(trans, item.id.as_str(), item.status.as_str());
        if let Some(ts) = entry {
            if !text::contains_string(terminal, item.status.as_str()) {
                let in_status_ms: i64 = if ts < now_ms {
                    now_ms - ts
                } else {
                    0
                };
                let row: AgingRow = AgingRow {
                    id: item.id.clone(),
                    status: item.status.clone(),
                    in_status_ms,
                };
                let ghost before = aging_views(found@);
                let ghost shown = row@;
                found.push(row);
                keys.push(Longest(in_status_ms));
                assert(aging_views(found@) =~= before.push(shown));
            }
        }
        i = i + 1;
    }
    let ghost all = aging_views(found@);
    assert(sorting::models(keys@) =~= durations(all));
    let order: Vec<usize> = sorting::sort_positions(&keys);
    let mut r: Vec<AgingRow> = Vec::new();
    let mut j: usize = 0;
    while j < order.len()
        invariant
            j <= order@.len(),
            all == aging_views(found@),
            forall|k: int| 0 <= k < order@.len() ==> (#[trigger] order@[k]) < found@.len(),
            r@.len() == j,
            forall|k: int| 0 <= k < j ==> (#[trigger] r@[k])@ == all[order@[k] as int],
        decreases order@.len() - j,
    {
        assert(order@[j as int] < found@.len());
        let row: &AgingRow = &found[order[j]];
        r.push(
            AgingRow {
                id: row.id.clone(),
                status: row.status.clone(),
                in_status_ms: row.in_status_ms,
            },
        );
        j = j + 1;
    }
    assert(aging_views(r@) =~= oldest_first(all));
    r
}

// ---- throughput --------------------------------------------------------------------------------

/// Whether an id is of the series, on whatever board.
pub open spec fn known(items: Seq<FlowItemView>, id: Seq<char>) -> bool {
    exists|i: int|
        0 <= i < items.len() && in_series((#[trigger] items[i]).item_type) && items[i].id == id
}

fn is_known(items: &[FlowItem], id: &str) -> (r: bool)
    ensures
        r == known(flow_views(items@), id@),
{
    let ghost views = flow_views(items@);
    let mut i: usize = 0;
    while i < items.len()
        invariant
            i <= items@.len(),
            views == flow_views(items@),
            forall|k: int|
                0 <= k < i ==> !(in_series((#[trigger] views[k]).item_type) && views[k].id == id@),
        decreases items@.len() - i,
    {
        let item: &FlowItem = &items[i];
        assert(views[i as int] == item@);
        if text::same(item.id.as_str(), id) && combined_series_type(item.item_type.as_str()) {
            return true;
        }
        i = i + 1;
    }
    false
}

/// Whether a change closes an item of the series, at a time that is known.
pub open spec fn closes(
    t: TransitionView,
    items: Seq<FlowItemView>,
    terminal: Seq<Seq<char>>,
) -> bool {
    terminal.contains(t.to) && known(items, t.item_id) && t.ts_ms > 0
}

/// The start of the bucket that a time falls in.
pub open spec fn bucket_of(ts_ms: i64, bucket_ms: i64) -> int {
    (ts_ms as int / width(bucket_ms)) * width(bucket_ms)
}

/// The items that the first `n` changes close in a bucket.
pub open spec fn arrivals(
    trans: Seq<TransitionView>,
    items: Seq<FlowItemView>,
    terminal: Seq<Seq<char>>,
    bucket_ms: i64,
    bucket: int,
    n: nat,
) -> Seq<Seq<char>>
    decreases n,
{
    if n == 0 {
        Seq::empty()
    } else {
        let before = arrivals(trans, items, terminal, bucket_ms, bucket, (n - 1) as nat);
        if closes(trans[n - 1], items, terminal) && bucket_of(trans[n - 1].ts_ms, bucket_ms)
            == bucket {
            before.push(trans[n - 1].item_id)
        } else {
            before
        }
    }
}

pub open spec fn is_ascending(list: Seq<(i64, usize)>) -> bool {
    forall|i: int, j: int|
        0 <= i < j < list.len() ==> (#[trigger] list[i]).0 < (#[trigger] list[j]).0
}

/// Whether something was closed in a bucket.
pub open spec fn has_arrivals(
    trans: Seq<TransitionView>,
    items: Seq<FlowItemView>,
    terminal: Seq<Seq<char>>,
    bucket_ms: i64,
    bucket: int,
) -> bool {
    exists|p: int|
        0 <= p < trans.len() && closes(#[trigger] trans[p], items, terminal) && bucket_of(
            trans[p].ts_ms,
            bucket_ms,
        ) == bucket
}

pub open spec fn lists_bucket(list: Seq<(i64, usize)>, bucket: int) -> bool {
    exists|i: int| 0 <= i < list.len() && (#[trigger] list[i]).0 == bucket
}

/// Whether a list shows what gets done: the buckets in which something was closed, in
/// order, each with the number of different items that were.
pub open spec fn is_throughput(
    list: Seq<(i64, usize)>,
    trans: Seq<TransitionView>,
    items: Seq<FlowItemView>,
    terminal: Seq<Seq<char>>,
    bucket_ms: i64,
) -> bool {
    &&& is_ascending(list)
    &&& forall|b: int| #[trigger]
        lists_bucket(list, b) == has_arrivals(trans, items, terminal, bucket_ms, b)
    &&& forall|i: int|
        0 <= i < list.len() ==> (#[trigger] list[i]).1 == arrivals(
            trans,
            items,
            terminal,
            bucket_ms,
            list[i].0 as int,
            trans.len(),
        ).to_set().len()
}

fn does_close(t: &Transition, items: &[FlowItem], terminal: &Vec<String>) -> (r: bool)
    ensures
        r == closes(t@, flow_views(items@), text::views(terminal@)),
{
    text::contains_string(terminal, t.to.as_str()) && is_known(items, t.item_id.as_str())
        && t.ts_ms > 0
}

fn start_of_bucket(ts_ms: i64, bucket_ms: i64) -> (r: i64)
    requires
        ts_ms > 0,
    ensures
        r == bucket_of(ts_ms, bucket_ms),
{
    let w: i64 = if bucket_ms > 1 {
        bucket_ms
    } else {
        1
    };
    assert(0 <= (ts_ms as int / w as int) * w as int <= ts_ms) by (nonlinear_arith)
        requires
            ts_ms > 0,
            w > 0,
    ;
    (ts_ms / w) * w
}

pub open spec fn rises(list: Seq<i64>) -> bool {
    forall|i: int, j: int| 0 <= i < j < list.len() ==> #[trigger] list[i] < #[trigger] list[j]
}

fn insert_time(list: &mut Vec<i64>, x: i64)
    requires
        rises(old(list)@),
    ensures
        rises(final(list)@),
        forall|y: i64| #[trigger]
            final(list)@.contains(y) <==> old(list)@.contains(y) || y == x,
{
    let ghost before = list@;
    let mut at: usize = 0;
    while at < list.len() && list[at] < x
        invariant
            at <= list@.len(),
            list@ == before,
            forall|k: int| 0 <= k < at ==> #[trigger] list@[k] < x,
        decreases list@.len() - at,
    {
        at = at + 1;
    }
    if at < list.len() && list[at] == x {
        assert(before[at as int] == x);
        return ;
    }
    list.insert(at, x);
    let ghost after = list@;
    assert forall|i: int, j: int| 0 <= i < j < after.len() implies #[trigger] after[i]
        < #[trigger] after[j] by {
        if at < before.len() && j > at {
            assert(before[at as int] <= before[j - 1]);
        }
    }
    assert forall|y: i64| #[trigger] after.contains(y) <==> before.contains(y) || y == x by {
        if before.contains(y) {
            let k = choose|k: int| 0 <= k < before.len() && before[k] == y;
            if k < at {
                assert(after[k] == y);
            } else {
                assert(after[k + 1] == y);
            }
        }
        if y == x {
            assert(after[at as int] == y);
        }
        if after.contains(y) {
            let k = choose|k: int| 0 <= k < after.len() && after[k] == y;
            if k < at {
                assert(before[k] == y);
            } else if k > at {
                assert(before[k - 1] == y);
            }
        }
    }
}

fn count_arrivals(
    trans: &[Transition],
    items: &[FlowItem],
    terminal: &Vec<String>,
    bucket_ms: i64,
    bucket: i64,
) -> (r: usize)
    ensures
        r == arrivals(
            transition_views(trans@),
            flow_views(items@),
            text::views(terminal@),
            bucket_ms,
            bucket as int,
            trans@.len(),
        ).to_set().len(),
{
    let ghost views = transition_views(trans@);
    let ghost its = flow_views(items@);
    let ghost ends = text::views(terminal@);
    let mut ids: Vec<String> = Vec::new();
    let mut p: usize = 0;
    while p < trans.len()
        invariant
            p <= trans@.len(),
            views == transition_views(trans@),
            its == flow_views(items@),
            ends == text::views(terminal@),
            text::views(ids@).no_duplicates(),
            forall|s: Seq<char>| #[trigger]
                text::views(ids@).contains(s) == arrivals(
                    views,
                    its,
                    ends,
                    bucket_ms,
                    bucket as int,
                    p as nat,
                ).contains(s),
        decreases trans@.len() - p,
    {
        let t: &Transition = &trans[p];
        assert(views[p as int] == t@);
        let ghost before = text::views(ids@);
        let ghost old_arrivals = arrivals(views, its, ends, bucket_ms, bucket as int, p as nat);
        let ghost new_arrivals = arrivals(
            views,
            its,
            ends,
            bucket_ms,
            bucket as int,
            (p + 1) as nat,
        );
        if does_close(t, items, terminal) && start_of_bucket(t.ts_ms, bucket_ms) == bucket {
            let known_id: bool = text::contains_string(&ids, t.item_id.as_str());
            if !known_id {
                ids.push(t.item_id.clone());
                assert(text::views(ids@) =~= before.push(t@.item_id));
            }
            assert forall|s: Seq<char>| #[trigger]
                text::views(ids@).contains(s) == new_arrivals.contains(s) by {
                assert(before.contains(s) == old_arrivals.contains(s));
                vstd::seq_lib::lemma_seq_contains_after_push(old_arrivals, t@.item_id, s);
                vstd::seq_lib::lemma_seq_contains_after_push(before, t@.item_id, s);
            }
        }
        p = p + 1;
    }
    proof {
        let all = arrivals(views, its, ends, bucket_ms, bucket as int, views.len());
        let distinct = text::views(ids@);
        assert(all.to_set() =~= distinct.to_set()) by {
            assert forall|s: Seq<char>| all.to_set().contains(s) == distinct.to_set().contains(
                s,
            ) by {
                assert(distinct.contains(s) == all.contains(s));
            }
        }
        distinct.unique_seq_to_set();
    }
    ids.len()
}

/// How many items of the series were closed in each bucket. An item that was closed more
/// than once in a bucket counts once there.
pub fn throughput(
    trans: &[Transition],
    items: &[FlowItem],
    terminal: &Vec<String>,
    bucket_ms: i64,
) -> (r: Vec<(i64, usize)>)
    ensures
        is_throughput(
            r@,
            transition_views(trans@),
            flow_views(items@),
            text::views(terminal@),
            bucket_ms,
        ),
{
    let ghost views = transition_views(trans@);
    let ghost its = flow_views(items@);
    let ghost ends = text::views(terminal@);
    let mut buckets: Vec<i64> = Vec::new();
    let mut p: usize = 0;
    while p < trans.len()
        invariant
            p <= trans@.len(),
            views == transition_views(trans@),
            its == flow_views(items@),
            ends == text::views(terminal@),
            rises(buckets@),
            forall|b: i64| #[trigger]
                buckets@.contains(b) == has_arrivals(
                    views.take(p as int),
                    its,
                    ends,
                    bucket_ms,
                    b as int,
                ),
        decreases trans@.len() - p,
    {
        let t: &Transition = &trans[p];
        assert(views[p as int] == t@);
        let ghost before = views.take(p as int);
        let ghost after = views.take(p + 1);
        let ghost old_buckets = buckets@;
        let closing: bool = does_close(t, items, terminal);
        let ghost mut entered_at: int = -1;
        if closing {
            let b: i64 = start_of_bucket(t.ts_ms, bucket_ms);
            insert_time(&mut buckets, b);
            proof {
                entered_at = b as int;
            }
        }
        assert forall|b: i64| #[trigger] buckets@.contains(b) == has_arrivals(
            after,
            its,
            ends,
            bucket_ms,
            b as int,
        ) by {
            assert(old_buckets.contains(b) == has_arrivals(before, its, ends, bucket_ms, b as int));
            if has_arrivals(before, its, ends, bucket_ms, b as int) {
                let k = choose|k: int|
                    0 <= k < before.len() && closes(#[trigger] before[k], its, ends) && bucket_of(
                        before[k].ts_ms,
                        bucket_ms,
                    ) == b;
                assert(after[k] == before[k]);
            }
            if has_arrivals(after, its, ends, bucket_ms, b as int) {
                let k = choose|k: int|
                    0 <= k < after.len() && closes(#[trigger] after[k], its, ends) && bucket_of(
                        after[k].ts_ms,
                        bucket_ms,
                    ) == b;
                if k < p {
                    assert(before[k] == after[k]);
                }
            }
            if closing && b == entered_at {
                assert(after[p as int] == t@);
            }
        }
        p = p + 1;
    }
    assert(views.take(p as int) =~= views);
    let mut r: Vec<(i64, usize)> = Vec::new();
    let mut i: usize = 0;
    while i < buckets.len()
        invariant
            i <= buckets@.len(),
            views == transition_views(trans@),
            its == flow_views(items@),
            ends == text::views(terminal@),
            r@.len() == i,
            forall|k: int|
                0 <= k < i ==> (#[trigger] r@[k]).0 == buckets@[k] && r@[k].1 == arrivals(
                    views,
                    its,
                    ends,
                    bucket_ms,
                    buckets@[k] as int,
                    views.len(),
                ).to_set().len(),
        decreases buckets@.len() - i,
    {
        let n: usize = count_arrivals(trans, items, terminal, bucket_ms, buckets[i]);
        r.push((buckets[i], n));
        i = i + 1;
    }
    assert forall|b: int| #[trigger] lists_bucket(r@, b) == has_arrivals(
        views,
        its,
        ends,
        bucket_ms,
        b,
    ) by {
        if lists_bucket(r@, b) {
            let k = choose|k: int| 0 <= k < r@.len() && (#[trigger] r@[k]).0 == b;
            assert(buckets@[k] == b);
            assert(buckets@.contains(b as i64));
        }
        if has_arrivals(views, its, ends, bucket_ms, b) {
            let q = choose|q: int|
                0 <= q < views.len() && closes(#[trigger] views[q], its, ends) && bucket_of(
                    views[q].ts_ms,
                    bucket_ms,
                ) == b;
            lemma_bucket_fits(views[q].ts_ms, bucket_ms);
            assert(buckets@.contains(b as i64));
            let k = choose|k: int| 0 <= k < buckets@.len() && buckets@[k] == b as i64;
            assert(r@[k].0 == b);
        }
    }
    r
}

proof fn lemma_bucket_fits(ts_ms: i64, bucket_ms: i64)
    requires
        ts_ms > 0,
    ensures
        0 <= bucket_of(ts_ms, bucket_ms) <= ts_ms,
{
    let w = width(bucket_ms);
    let t = ts_ms as int;
    assert(0 <= (t / w) * w <= t) by (nonlinear_arith)
        requires
            t > 0,
            w > 0,
    ;
}

// ---- what holds of the charts ------------------------------------------------------------------------

/// At most one change holds for an item at a time, so no item is counted twice in an
/// entry of a series.
pub proof fn law_one_status_at_a_time(trans: Seq<TransitionView>, p: int, q: int, at: int)
    requires
        0 <= p < trans.len(),
        0 <= q < trans.len(),
        trans[p].item_id == trans[q].item_id,
        holds_at(trans, p, at),
        holds_at(trans, q, at),
    ensures
        p == q,
{
    if p < q {
        assert(trans[q].ts_ms > at);
    } else if q < p {
        assert(trans[p].ts_ms > at);
    }
}

/// An item whose first change has come has a status: some change holds for it.
pub proof fn law_every_item_has_a_status(trans: Seq<TransitionView>, p: int, at: int)
    requires
        0 <= p < trans.len(),
        trans[p].ts_ms <= at,
    ensures
        exists|q: int|
            p <= q < trans.len() && (#[trigger] trans[q]).item_id == trans[p].item_id && holds_at(
                trans,
                q,
                at,
            ),
    decreases trans.len() - p,
{
    if !holds_at(trans, p, at) {
        let k = choose|k: int|
            p < k < trans.len() && (#[trigger] trans[k]).item_id == trans[p].item_id
                && trans[k].ts_ms <= at;
        law_every_item_has_a_status(trans, k, at);
        let q = choose|q: int|
            k <= q < trans.len() && (#[trigger] trans[q]).item_id == trans[k].item_id && holds_at(
                trans,
                q,
                at,
            );
        assert(trans[q].item_id == trans[p].item_id);
    }
}

/// The rows of the work in progress add up to the items that count as work: none is left
/// out, and none is counted twice.
pub proof fn law_rows_add_up(
    rows: Seq<WipRow>,
    items: Seq<FlowItemView>,
    config: BoardConfig,
)
    requires
        is_wip(rows, items, config),
    ensures
        tally::total(row_counts(rows), rows.len()) == work_statuses(
            items,
            config,
            items.len(),
        ).len(),
{
    tally::law_tally_adds_up(row_counts(rows), work_statuses(items, config, items.len()));
}

/// A type that limits do not count for never shows up as work in progress.
pub proof fn law_exempt_types_are_not_counted(item: FlowItemView, config: BoardConfig)
    requires
        text::views(config.wip_exempt_types@).contains(item.item_type),
    ensures
        !counts_as_work(item, config),
{
}

/// A closed item has no age, and neither has one whose entry into its status is not
/// recorded.
pub proof fn law_ages_are_of_open_items(
    items: Seq<FlowItemView>,
    trans: Seq<TransitionView>,
    terminal: Seq<Seq<char>>,
    now_ms: i64,
    n: nat,
    i: int,
)
    requires
        n <= items.len(),
        0 <= i < ages(items, trans, terminal, now_ms, n).len(),
    ensures
        ({
            let age = ages(items, trans, terminal, now_ms, n)[i];
            !terminal.contains(age.status) && entered(
                trans,
                age.id,
                age.status,
                trans.len(),
            ) is Some
        }),
    decreases n,
{
    if n > 0 {
        let before = ages(items, trans, terminal, now_ms, (n - 1) as nat);
        if i < before.len() {
            law_ages_are_of_open_items(items, trans, terminal, now_ms, (n - 1) as nat, i);
        }
    }
}

// ---- the charts, by the items and their changes -----------------------------------------------------

/// Whether a change at a position is the last recorded one of an item into a status.
pub open spec fn is_last_entry(
    trans: Seq<TransitionView>,
    p: int,
    id: Seq<char>,
    status: Seq<char>,
) -> bool {
    &&& 0 <= p < trans.len()
    &&& trans[p].item_id == id
    &&& trans[p].to == status
    &&& forall|q: int|
        p < q < trans.len() ==> !((#[trigger] trans[q]).item_id == id && trans[q].to == status)
}

proof fn lemma_entered(
    trans: Seq<TransitionView>,
    p: int,
    id: Seq<char>,
    status: Seq<char>,
    n: nat,
)
    requires
        is_last_entry(trans, p, id, status),
        p < n <= trans.len(),
    ensures
        entered(trans, id, status, n) == Some(trans[p].ts_ms),
    decreases n,
{
    if p < n - 1 {
        assert(!(trans[n - 1].item_id == id && trans[n - 1].to == status));
        lemma_entered(trans, p, id, status, (n - 1) as nat);
    }
}

proof fn lemma_entry_is_recorded(
    trans: Seq<TransitionView>,
    id: Seq<char>,
    status: Seq<char>,
    n: nat,
)
    requires
        n <= trans.len(),
        forall|q: int|
            n <= q < trans.len() ==> !((#[trigger] trans[q]).item_id == id && trans[q].to
                == status),
    ensures
        entered(trans, id, status, n) matches Some(ts) ==> exists|p: int| #[trigger]
            is_last_entry(trans, p, id, status) && trans[p].ts_ms == ts,
    decreases n,
{
    if n > 0 {
        if trans[n - 1].item_id == id && trans[n - 1].to == status {
            assert(is_last_entry(trans, n - 1, id, status));
        } else {
            lemma_entry_is_recorded(trans, id, status, (n - 1) as nat);
        }
    }
}

/// Whether a row shows an open item with the time since it came into its status.
pub open spec fn is_age_of(
    age: AgingView,
    item: FlowItemView,
    trans: Seq<TransitionView>,
    terminal: Seq<Seq<char>>,
    now_ms: i64,
) -> bool {
    &&& age.id == item.id
    &&& age.status == item.status
    &&& !terminal.contains(item.status)
    &&& exists|p: int| #[trigger]
        is_last_entry(trans, p, item.id, item.status) && age.in_status_ms == (if trans[p].ts_ms
            < now_ms {
            now_ms - trans[p].ts_ms
        } else {
            0
        })
}

proof fn lemma_ages(
    items: Seq<FlowItemView>,
    trans: Seq<TransitionView>,
    terminal: Seq<Seq<char>>,
    now_ms: i64,
    n: nat,
)
    requires
        n <= items.len(),
        forall|i: int| 0 <= i < trans.len() ==> now_ms - (#[trigger] trans[i]).ts_ms <= i64::MAX,
    ensures
        ages(items, trans, terminal, now_ms, n).len() <= n,
        forall|k: int|
            0 <= k < ages(items, trans, terminal, now_ms, n).len() ==> exists|i: int|
                0 <= i < n && is_age_of(
                    #[trigger] ages(items, trans, terminal, now_ms, n)[k],
                    #[trigger] items[i],
                    trans,
                    terminal,
                    now_ms,
                ),
    decreases n,
{
    if n > 0 {
        let m = (n - 1) as nat;
        lemma_ages(items, trans, terminal, now_ms, m);
        let before = ages(items, trans, terminal, now_ms, m);
        let now = ages(items, trans, terminal, now_ms, n);
        let item = items[n - 1];
        lemma_entry_is_recorded(trans, item.id, item.status, trans.len());
        let shown = entered(trans, item.id, item.status, trans.len()) is Some && !terminal.contains(
            item.status,
        );
        if shown {
            let p = choose|p: int| #[trigger]
                is_last_entry(trans, p, item.id, item.status) && trans[p].ts_ms == entered(
                    trans,
                    item.id,
                    item.status,
                    trans.len(),
                )->0;
            assert(is_last_entry(trans, p, item.id, item.status));
            assert(now_ms - trans[p].ts_ms <= i64::MAX);
            assert(is_age_of(now[now.len() - 1], item, trans, terminal, now_ms));
        }
        assert forall|k: int| 0 <= k < now.len() implies exists|i: int|
            0 <= i < n && is_age_of(
                #[trigger] now[k],
                #[trigger] items[i],
                trans,
                terminal,
                now_ms,
            ) by {
            if k < before.len() {
                let i = choose|i: int|
                    0 <= i < m && is_age_of(
                        before[k],
                        #[trigger] items[i],
                        trans,
                        terminal,
                        now_ms,
                    );
                assert(is_age_of(now[k], items[i], trans, terminal, now_ms));
            } else {
                assert(is_age_of(now[k], items[n - 1], trans, terminal, now_ms));
            }
        }
    }
}

proof fn lemma_age_shown(
    items: Seq<FlowItemView>,
    trans: Seq<TransitionView>,
    terminal: Seq<Seq<char>>,
    now_ms: i64,
    n: nat,
    i: int,
    p: int,
)
    requires
        0 <= i < n <= items.len(),
        now_ms - trans[p].ts_ms <= i64::MAX,
        !terminal.contains(items[i].status),
        is_last_entry(trans, p, items[i].id, items[i].status),
    ensures
        ages(items, trans, terminal, now_ms, n).contains(
            AgingView {
                id: items[i].id,
                status: items[i].status,
                in_status_ms: (if trans[p].ts_ms < now_ms {
                    now_ms - trans[p].ts_ms
                } else {
                    0
                }) as i64,
            },
        ),
    decreases n,
{
    let m = (n - 1) as nat;
    let before = ages(items, trans, terminal, now_ms, m);
    let now = ages(items, trans, terminal, now_ms, n);
    let wanted = AgingView {
        id: items[i].id,
        status: items[i].status,
        in_status_ms: (if trans[p].ts_ms < now_ms {
            now_ms - trans[p].ts_ms
        } else {
            0
        }) as i64,
    };
    if i < m {
        lemma_age_shown(items, trans, terminal, now_ms, m, i, p);
        let k = choose|k: int| 0 <= k < before.len() && before[k] == wanted;
        assert(now[k] == wanted);
    } else {
        lemma_entered(trans, p, items[i].id, items[i].status, trans.len());
        assert(now.last() == wanted);
    }
}

proof fn lemma_oldest_first(list: Seq<AgingView>)
    requires
        list.len() <= usize::MAX,
    ensures
        oldest_first(list).len() == list.len(),
        forall|x: AgingView| #[trigger] oldest_first(list).contains(x) == list.contains(x),
        forall|i: int, j: int|
            0 <= i < j < list.len() ==> (#[trigger] oldest_first(list)[i]).in_status_ms >= (
            #[trigger] oldest_first(list)[j]).in_status_ms,
{
    let keys = durations(list);
    sorting::lemma_stable_order_exists::<Longest>(keys);
    let order = sorting::stable_order::<Longest>(keys);
    let sorted = oldest_first(list);
    assert forall|x: AgingView| #[trigger] sorted.contains(x) == list.contains(x) by {
        if sorted.contains(x) {
            let k = choose|k: int| 0 <= k < sorted.len() && sorted[k] == x;
            assert(list[order[k] as int] == x);
        }
        if list.contains(x) {
            let k = choose|k: int| 0 <= k < list.len() && list[k] == x;
            assert(order.contains(k as usize));
            let m = choose|m: int| 0 <= m < order.len() && order[m] == k as usize;
            assert(sorted[m] == x);
        }
    }
    assert forall|i: int, j: int| 0 <= i < j < list.len() implies (
    #[trigger] sorted[i]).in_status_ms >= (#[trigger] sorted[j]).in_status_ms by {
        assert(Longest::precedes(keys[order[i] as int], keys[order[j] as int]));
    }
}

/// Every item in a status that is not terminal, and whose coming into it is recorded, is
/// shown with the time since then, whatever the status is.
pub proof fn law_every_open_item_has_its_age(
    items: Seq<FlowItemView>,
    trans: Seq<TransitionView>,
    terminal: Seq<Seq<char>>,
    now_ms: i64,
    rows: Seq<AgingView>,
    i: int,
    p: int,
)
    requires
        items.len() <= usize::MAX,
        forall|i: int| 0 <= i < trans.len() ==> now_ms - (#[trigger] trans[i]).ts_ms <= i64::MAX,
        rows == oldest_first(ages(items, trans, terminal, now_ms, items.len())),
        0 <= i < items.len(),
        !terminal.contains(items[i].status),
        is_last_entry(trans, p, items[i].id, items[i].status),
    ensures
        exists|k: int|
            0 <= k < rows.len() && (#[trigger] rows[k]).id == items[i].id && rows[k].status
                == items[i].status && rows[k].in_status_ms == (if trans[p].ts_ms < now_ms {
                now_ms - trans[p].ts_ms
            } else {
                0
            }),
{
    let list = ages(items, trans, terminal, now_ms, items.len());
    lemma_ages(items, trans, terminal, now_ms, items.len());
    lemma_oldest_first(list);
    lemma_age_shown(items, trans, terminal, now_ms, items.len(), i, p);
    let wanted = AgingView {
        id: items[i].id,
        status: items[i].status,
        in_status_ms: (if trans[p].ts_ms < now_ms {
            now_ms - trans[p].ts_ms
        } else {
            0
        }) as i64,
    };
    assert(rows.contains(wanted));
    let m = choose|m: int| 0 <= m < rows.len() && rows[m] == wanted;
    assert(rows[m].id == items[i].id);
}

/// Every row shows an open item with the time since it came into its status, the longest
/// time first, and there are no more rows than items.
pub proof fn law_rows_are_ages_of_open_items(
    items: Seq<FlowItemView>,
    trans: Seq<TransitionView>,
    terminal: Seq<Seq<char>>,
    now_ms: i64,
    rows: Seq<AgingView>,
    k: int,
)
    requires
        items.len() <= usize::MAX,
        forall|i: int| 0 <= i < trans.len() ==> now_ms - (#[trigger] trans[i]).ts_ms <= i64::MAX,
        rows == oldest_first(ages(items, trans, terminal, now_ms, items.len())),
        0 <= k < rows.len(),
    ensures
        rows.len() <= items.len(),
        exists|i: int|
            0 <= i < items.len() && is_age_of(
                rows[k],
                #[trigger] items[i],
                trans,
                terminal,
                now_ms,
            ),
        forall|j: int| 0 <= j < k ==> (#[trigger] rows[j]).in_status_ms >= rows[k].in_status_ms,
{
    let list = ages(items, trans, terminal, now_ms, items.len());
    lemma_ages(items, trans, terminal, now_ms, items.len());
    lemma_oldest_first(list);
    assert(rows.contains(rows[k]));
    let m = choose|m: int| 0 <= m < list.len() && list[m] == rows[k];
    let i = choose|i: int|
        0 <= i < items.len() && is_age_of(list[m], #[trigger] items[i], trans, terminal, now_ms);
    assert(is_age_of(rows[k], items[i], trans, terminal, now_ms));
    assert forall|j: int| 0 <= j < k implies (#[trigger] rows[j]).in_status_ms
        >= rows[k].in_status_ms by {
        assert(oldest_first(list)[j].in_status_ms >= oldest_first(list)[k].in_status_ms);
    }
}

proof fn lemma_occurrences_push(names: Seq<Seq<char>>, more: Seq<char>, name: Seq<char>, n: nat)
    requires
        n <= names.len(),
    ensures
        tally::occurrences(names.push(more), name, n) == tally::occurrences(names, name, n),
    decreases n,
{
    if n > 0 {
        lemma_occurrences_push(names, more, name, (n - 1) as nat);
    }
}

/// Whether an item counts as work of a board in a status, for anyone or for one agent: it
/// is of the board, and of no type that limits do not count for.
pub open spec fn is_work_in(
    item: FlowItemView,
    config: BoardConfig,
    status: Seq<char>,
) -> bool {
    &&& item.board == config.name@
    &&& forall|t: int|
        0 <= t < config.wip_exempt_types@.len() ==> (#[trigger] config.wip_exempt_types@[t])@
            != item.item_type
    &&& item.status == status
}

proof fn lemma_exempt(item: FlowItemView, config: BoardConfig)
    ensures
        counts_as_work(item, config) == is_work_in(item, config, item.status),
{
    let exempt = text::views(config.wip_exempt_types@);
    if exempt.contains(item.item_type) {
        let t = choose|t: int| 0 <= t < exempt.len() && exempt[t] == item.item_type;
        assert(config.wip_exempt_types@[t]@ == item.item_type);
    }
    if !is_work_in(item, config, item.status) && item.board == config.name@ {
        let t = choose|t: int|
            0 <= t < config.wip_exempt_types@.len() && (#[trigger] config.wip_exempt_types@[t])@
                == item.item_type;
        assert(exempt[t] == item.item_type);
    }
}

proof fn lemma_work_counted(
    items: Seq<FlowItemView>,
    config: BoardConfig,
    status: Seq<char>,
    n: nat,
)
    requires
        n <= items.len(),
    ensures
        ({
            let names = work_statuses(items, config, n);
            tally::occurrences(names, status, names.len()) == items.take(n as int).filter(
                |x: FlowItemView| is_work_in(x, config, status),
            ).len()
        }),
    decreases n,
{
    reveal(Seq::filter);
    if n > 0 {
        let m = (n - 1) as nat;
        lemma_work_counted(items, config, status, m);
        let before = work_statuses(items, config, m);
        let item = items[n - 1];
        lemma_exempt(item, config);
        lemma_occurrences_push(before, item.status, status, before.len());
        assert(items.take(n as int).drop_last() =~= items.take(m as int));
        assert(items.take(n as int).last() == item);
    }
}

/// A row of the work in progress counts the items of the board in its status, those of
/// exempt types aside, and is in breach exactly where there are more of them than its
/// limit. Every status with such an item has a row.
pub proof fn law_work_in_progress_is_counted(
    rows: Seq<WipRow>,
    items: Seq<FlowItemView>,
    config: BoardConfig,
)
    requires
        is_wip(rows, items, config),
    ensures
        forall|i: int|
            0 <= i < rows.len() ==> (#[trigger] rows[i]).count == items.filter(
                |x: FlowItemView| is_work_in(x, config, rows[i].status@),
            ).len(),
        forall|i: int|
            0 <= i < rows.len() ==> (#[trigger] rows[i]).breach == (rows[i].limit is Some
                && rows[i].count > rows[i].limit->0),
        forall|i: int, l: int|
            0 <= i < rows.len() && 0 <= l < config.wip_limits@.len() && (
            #[trigger] config.wip_limits@[l]).0@ == (#[trigger] rows[i]).status@ && (forall|k: int|
                l < k < config.wip_limits@.len() ==> (#[trigger] config.wip_limits@[k]).0@
                    != rows[i].status@) ==> rows[i].limit == Some(config.wip_limits@[l].1),
        forall|i: int|
            0 <= i < rows.len() && (forall|l: int|
                0 <= l < config.wip_limits@.len() ==> (#[trigger] config.wip_limits@[l]).0@
                    != rows[i].status@) ==> (#[trigger] rows[i]).limit is None,
        forall|j: int|
            0 <= j < items.len() && is_work_in(
                #[trigger] items[j],
                config,
                items[j].status,
            ) ==> exists|i: int|
                0 <= i < rows.len() && (#[trigger] rows[i]).status@ == items[j].status,
{
    let counts = row_counts(rows);
    let names = work_statuses(items, config, items.len());
    assert(items.take(items.len() as int) =~= items);
    assert forall|i: int| 0 <= i < rows.len() implies (#[trigger] rows[i]).count == items.filter(
        |x: FlowItemView| is_work_in(x, config, rows[i].status@),
    ).len() by {
        assert(counts[i].1 == tally::occurrences(names, counts[i].0, names.len()));
        lemma_work_counted(items, config, rows[i].status@, items.len());
    }
    let limits = keyed::pairs(config.wip_limits@);
    assert forall|i: int, l: int|
        0 <= i < rows.len() && 0 <= l < config.wip_limits@.len() && (
        #[trigger] config.wip_limits@[l]).0@ == (#[trigger] rows[i]).status@ && (forall|k: int|
            l < k < config.wip_limits@.len() ==> (#[trigger] config.wip_limits@[k]).0@
                != rows[i].status@) implies rows[i].limit == Some(config.wip_limits@[l].1) by {
        assert forall|k: int| l < k < limits.len() implies (#[trigger] limits[k]).0
            != rows[i].status@ by {
            assert(config.wip_limits@[k].0@ != rows[i].status@);
        }
        keyed::lemma_lookup(limits, rows[i].status@, l + 1);
    }
    assert forall|i: int|
        0 <= i < rows.len() && (forall|l: int|
            0 <= l < config.wip_limits@.len() ==> (#[trigger] config.wip_limits@[l]).0@
                != rows[i].status@) implies (#[trigger] rows[i]).limit is None by {
        assert forall|k: int| 0 <= k < limits.len() implies (#[trigger] limits[k]).0
            != rows[i].status@ by {
            assert(config.wip_limits@[k].0@ != rows[i].status@);
        }
        keyed::lemma_lookup(limits, rows[i].status@, 0);
    }
    assert forall|j: int|
        0 <= j < items.len() && is_work_in(
            #[trigger] items[j],
            config,
            items[j].status,
        ) implies exists|i: int|
        0 <= i < rows.len() && (#[trigger] rows[i]).status@ == items[j].status by {
        lemma_work_listed(items, config, j, items.len());
        assert(tally::keys(counts).contains(items[j].status));
        let i = choose|i: int|
            0 <= i < tally::keys(counts).len() && tally::keys(counts)[i] == items[j].status;
        assert(rows[i].status@ == items[j].status);
    }
}

proof fn lemma_work_listed(items: Seq<FlowItemView>, config: BoardConfig, j: int, n: nat)
    requires
        0 <= j < n <= items.len(),
        is_work_in(items[j], config, items[j].status),
    ensures
        work_statuses(items, config, n).contains(items[j].status),
    decreases n,
{
    let m = (n - 1) as nat;
    let before = work_statuses(items, config, m);
    vstd::seq_lib::lemma_seq_contains_after_push(before, items[n - 1].status, items[j].status);
    if j < m {
        lemma_work_listed(items, config, j, m);
    } else {
        lemma_exempt(items[j], config);
    }
}

proof fn lemma_agent_work_counted(
    items: Seq<FlowItemView>,
    config: BoardConfig,
    agent: Seq<char>,
    status: Seq<char>,
    n: nat,
)
    requires
        n <= items.len(),
    ensures
        ({
            let names = statuses_of_agent(items, config, agent, n);
            tally::occurrences(names, status, names.len()) == items.take(n as int).filter(
                |x: FlowItemView| is_work_in(x, config, status) && is_of_agent(x, agent),
            ).len()
        }),
    decreases n,
{
    reveal(Seq::filter);
    if n > 0 {
        let m = (n - 1) as nat;
        lemma_agent_work_counted(items, config, agent, status, m);
        let before = statuses_of_agent(items, config, agent, m);
        let item = items[n - 1];
        lemma_exempt(item, config);
        lemma_occurrences_push(before, item.status, status, before.len());
        assert(items.take(n as int).drop_last() =~= items.take(m as int));
        assert(items.take(n as int).last() == item);
    }
}

/// Whether an item is an agent's; work that nobody has goes under a dash.
pub open spec fn is_of_agent(item: FlowItemView, agent: Seq<char>) -> bool {
    item.assignee == agent && agent.len() > 0 || item.assignee.len() == 0 && agent == "-"@
}

/// The work in progress of an agent is counted by status, and every agent with such work
/// is listed.
pub proof fn law_work_of_agents_is_counted(
    list: Seq<(Seq<char>, Seq<(Seq<char>, usize)>)>,
    items: Seq<FlowItemView>,
    config: BoardConfig,
)
    requires
        is_by_agent(list, items, config),
    ensures
        forall|i: int, k: int|
            0 <= i < list.len() && 0 <= k < list[i].1.len() ==> (#[trigger] list[i].1[k]).1
                == items.filter(
                |x: FlowItemView|
                    is_work_in(x, config, list[i].1[k].0) && is_of_agent(x, list[i].0),
            ).len(),
        forall|j: int|
            0 <= j < items.len() && is_work_in(
                #[trigger] items[j],
                config,
                items[j].status,
            ) ==> exists|i: int| 0 <= i < list.len() && is_of_agent(items[j], (#[trigger] list[i]).0),
{
    reveal_strlit("-");
    assert(items.take(items.len() as int) =~= items);
    assert forall|i: int, k: int| 0 <= i < list.len() && 0 <= k < list[i].1.len() implies (
    #[trigger] list[i].1[k]).1 == items.filter(
        |x: FlowItemView| is_work_in(x, config, list[i].1[k].0) && is_of_agent(x, list[i].0),
    ).len() by {
        let names = statuses_of_agent(items, config, list[i].0, items.len());
        assert(tally::is_tally(list[i].1, names));
        lemma_agent_work_counted(items, config, list[i].0, list[i].1[k].0, items.len());
    }
    assert forall|j: int|
        0 <= j < items.len() && is_work_in(
            #[trigger] items[j],
            config,
            items[j].status,
        ) implies exists|i: int| 0 <= i < list.len() && is_of_agent(items[j], (#[trigger] list[i]).0) by {
        lemma_agent_listed(items, config, j, items.len());
        let agent = agent_spec(items[j]);
        assert(tally::keys(list).contains(agent));
        let i = choose|i: int| 0 <= i < tally::keys(list).len() && tally::keys(list)[i] == agent;
        assert(list[i].0 == agent);
    }
}

proof fn lemma_agent_listed(items: Seq<FlowItemView>, config: BoardConfig, j: int, n: nat)
    requires
        0 <= j < n <= items.len(),
        is_work_in(items[j], config, items[j].status),
    ensures
        work_agents(items, config, n).contains(agent_spec(items[j])),
    decreases n,
{
    let m = (n - 1) as nat;
    let before = work_agents(items, config, m);
    vstd::seq_lib::lemma_seq_contains_after_push(
        before,
        agent_spec(items[n - 1]),
        agent_spec(items[j]),
    );
    if j < m {
        lemma_agent_listed(items, config, j, m);
    } else {
        lemma_exempt(items[j], config);
    }
}

// ---- what was recorded, by the rows ------------------------------------------------------------------------

/// Whether a change of status is what a row of a run says.
pub open spec fn is_change_at(table: Table, row: int, x: TransitionView) -> bool {
    &&& 0 <= row < columns::table_rows(table)
    &&& text_named(table, "item_id"@) matches Some(c) && x.item_id == columns::text_cell(
        table,
        c,
        row,
    ).value
    &&& text_named(table, "to_status"@) matches Some(c) && x.to == columns::text_cell(
        table,
        c,
        row,
    ).value
    &&& millis_named(table, "timestamp"@) matches Some(c) && x.ts_ms == (if columns::millis_cell(
        table,
        c,
        row,
    ).valid {
        columns::millis_cell(table, c, row).value
    } else {
        0
    })
    &&& x.from == match text_named(table, "from_status"@) {
        Some(c) if columns::text_cell(table, c, row).valid => Some(
            columns::text_cell(table, c, row).value,
        ),
        _ => None,
    }
    &&& x.forced == (text_named_flag(table, "forced"@, row))
}

/// Whether a flag of a row is there and set.
pub open spec fn text_named_flag(table: Table, name: Seq<char>, row: int) -> bool {
    flags_named(table, name) matches Some(c) && columns::flag_cell(table, c, row).valid
        && columns::flag_cell(table, c, row).value
}

proof fn lemma_recorded(tables: Seq<Table>, n: nat, x: TransitionView)
    requires
        n <= tables.len(),
    ensures
        recorded(tables, n).contains(x) == exists|t: int, row: int|
            0 <= t < n && #[trigger] is_change_at(tables[t], row, x),
    decreases n,
{
    if n > 0 {
        let m = (n - 1) as nat;
        lemma_recorded(tables, m, x);
        let table = tables[n - 1];
        let before = recorded(tables, m);
        let here = Seq::new(columns::table_rows(table), |row: int| transition_at(table, row));
        vstd::seq_lib::lemma_seq_concat_contains_all_elements(before, here, x);
        if has_transitions(table) {
            if here.contains(x) {
                let row = choose|row: int| 0 <= row < here.len() && here[row] == x;
                assert(is_change_at(tables[n - 1], row, x));
            }
            if exists|row: int| #[trigger] is_change_at(table, row, x) {
                let row = choose|row: int| #[trigger] is_change_at(table, row, x);
                assert(transition_at(table, row) == x);
                assert(here[row] == x);
            }
        }
        if exists|t: int, row: int| 0 <= t < m && #[trigger] is_change_at(tables[t], row, x) {
            let (t, row) = choose|t: int, row: int|
                0 <= t < m && #[trigger] is_change_at(tables[t], row, x);
            assert(0 <= t < n && is_change_at(tables[t], row, x));
        }
    }
}

/// The changes of status are those of all rows of all runs, in the order of their times.
pub proof fn law_changes_are_told_in_order(
    runs: Seq<Table>,
    list: Seq<TransitionView>,
    x: TransitionView,
)
    requires
        recorded(runs, runs.len()).len() <= usize::MAX,
        list == by_time(recorded(runs, runs.len())),
    ensures
        list.contains(x) <==> exists|t: int, row: int|
            0 <= t < runs.len() && #[trigger] is_change_at(runs[t], row, x),
        forall|i: int, j: int|
            0 <= i < j < list.len() ==> (#[trigger] list[i]).ts_ms <= (#[trigger] list[j]).ts_ms,
{
    let all = recorded(runs, runs.len());
    lemma_recorded(runs, runs.len(), x);
    sorting::lemma_stable_order_exists::<i64>(times(all));
    let order = sorting::stable_order::<i64>(times(all));
    if list.contains(x) {
        let i = choose|i: int| 0 <= i < list.len() && list[i] == x;
        assert(all[order[i] as int] == x);
    }
    if all.contains(x) {
        let k = choose|k: int| 0 <= k < all.len() && all[k] == x;
        assert(order.contains(k as usize));
        let i = choose|i: int| 0 <= i < order.len() && order[i] == k as usize;
        assert(list[i] == x);
    }
    assert forall|i: int, j: int| 0 <= i < j < list.len() implies (#[trigger] list[i]).ts_ms <= (
    #[trigger] list[j]).ts_ms by {
        assert(list[i] == all[order[i] as int] && list[j] == all[order[j] as int]);
    }
}

/// Whether an item is what a row says that is not deleted.
pub open spec fn is_item_at(table: Table, row: int, x: FlowItemView) -> bool {
    let cell = |name: Seq<char>|
        match text_named(table, name) {
            Some(c) => columns::text_cell(table, c, row).value,
            None => Seq::empty(),
        };
    &&& 0 <= row < columns::table_rows(table)
    &&& text_named(table, "id"@) is Some
    &&& text_named(table, "status"@) is Some
    &&& !text_named_flag(table, "deleted"@, row)
    &&& x.id == cell("id"@)
    &&& x.status == cell("status"@)
    &&& x.item_type == cell("item_type"@)
    &&& x.board == cell("board"@)
    &&& x.assignee == cell("assignee"@)
}

proof fn lemma_live_rows(table: Table, n: nat, x: FlowItemView)
    requires
        n <= columns::table_rows(table),
        has_flow_items(table),
    ensures
        live_rows(table, n).contains(x) == exists|row: int|
            0 <= row < n && #[trigger] is_item_at(table, row, x),
    decreases n,
{
    if n > 0 {
        let m = (n - 1) as nat;
        lemma_live_rows(table, m, x);
        vstd::seq_lib::lemma_seq_contains_after_push(
            live_rows(table, m),
            flow_item_at(table, n - 1),
            x,
        );
        assert((x == flow_item_at(table, n - 1) && !flag_set(
            table,
            flags_named(table, "deleted"@),
            n - 1,
        )) == is_item_at(table, n - 1, x));
        if exists|row: int| 0 <= row < m && #[trigger] is_item_at(table, row, x) {
            let row = choose|row: int| 0 <= row < m && #[trigger] is_item_at(table, row, x);
            assert(0 <= row < n && is_item_at(table, row, x));
        }
    }
}

/// The items whose flow is looked at are those of all rows that are not deleted.
pub proof fn law_flow_is_of_what_is_not_deleted(tables: Seq<Table>, n: nat, x: FlowItemView)
    requires
        n <= tables.len(),
    ensures
        flow_items_spec(tables, n).contains(x) <==> exists|t: int, row: int|
            0 <= t < n && #[trigger] is_item_at(tables[t], row, x),
    decreases n,
{
    if n > 0 {
        let m = (n - 1) as nat;
        law_flow_is_of_what_is_not_deleted(tables, m, x);
        let table = tables[n - 1];
        if has_flow_items(table) {
            lemma_live_rows(table, columns::table_rows(table), x);
            vstd::seq_lib::lemma_seq_concat_contains_all_elements(
                flow_items_spec(tables, m),
                live_rows(table, columns::table_rows(table)),
                x,
            );
            if live_rows(table, columns::table_rows(table)).contains(x) {
                let row = choose|row: int|
                    0 <= row < columns::table_rows(table) && #[trigger] is_item_at(table, row, x);
                assert(is_item_at(tables[n - 1], row, x));
            }
        }
        if exists|t: int, row: int| 0 <= t < m && #[trigger] is_item_at(tables[t], row, x) {
            let (t, row) = choose|t: int, row: int|
                0 <= t < m && #[trigger] is_item_at(tables[t], row, x);
            assert(0 <= t < n && is_item_at(tables[t], row, x));
        }
    }
}

// ---- series and throughput, by the changes ------------------------------------------------------------------

/// Whether an id is that of a chore or an expedition, in whatever case the type is
/// written, on a board where one is named.
pub open spec fn is_of_series(items: Seq<FlowItemView>, board: Option<Seq<char>>, id: Seq<char>) -> bool {
    exists|i: int|
        0 <= i < items.len() && (#[trigger] items[i]).id == id && (text::lower_spec(
            items[i].item_type,
        ) == "chore"@ || text::lower_spec(items[i].item_type) == "expedition"@) && (
        board matches Some(b) ==> items[i].board == b)
}

proof fn lemma_of_series(items: Seq<FlowItemView>, board: Seq<char>, id: Seq<char>)
    ensures
        in_scope(items, board, id) == is_of_series(items, Some(board), id),
        known(items, id) == is_of_series(items, None, id),
{
    if is_of_series(items, Some(board), id) {
        let i = choose|i: int|
            0 <= i < items.len() && (#[trigger] items[i]).id == id && (text::lower_spec(
                items[i].item_type,
            ) == "chore"@ || text::lower_spec(items[i].item_type) == "expedition"@)
                && items[i].board == board;
        assert(items[i].board == board && in_series(items[i].item_type));
    }
}

/// Whether a change brings an item of a series into a status that it still has at a time:
/// no later change of the item comes before that time.
pub open spec fn is_status_then(
    trans: Seq<TransitionView>,
    items: Seq<FlowItemView>,
    board: Seq<char>,
    at: int,
    status: Seq<char>,
    p: int,
) -> bool {
    &&& 0 <= p < trans.len()
    &&& is_of_series(items, Some(board), trans[p].item_id)
    &&& trans[p].to == status
    &&& trans[p].ts_ms <= at
    &&& forall|q: int|
        p < q < trans.len() && (#[trigger] trans[q]).item_id == trans[p].item_id ==> trans[q].ts_ms
            > at
}

proof fn lemma_statuses_counted(
    trans: Seq<TransitionView>,
    items: Seq<FlowItemView>,
    board: Seq<char>,
    at: int,
    status: Seq<char>,
    n: nat,
)
    requires
        n <= trans.len(),
    ensures
        ({
            let names = statuses_at(trans, items, board, at, n);
            &&& tally::occurrences(names, status, names.len()) == Seq::new(n, |p: int| p).filter(
                |p: int| is_status_then(trans, items, board, at, status, p),
            ).len()
            &&& names.contains(status) == exists|p: int|
                0 <= p < n && #[trigger] is_status_then(trans, items, board, at, status, p)
        }),
    decreases n,
{
    reveal(Seq::filter);
    let f = |p: int| is_status_then(trans, items, board, at, status, p);
    if n > 0 {
        let m = (n - 1) as nat;
        lemma_statuses_counted(trans, items, board, at, status, m);
        let names = statuses_at(trans, items, board, at, m);
        let all = Seq::new(n, |p: int| p);
        assert(all.drop_last() =~= Seq::new(m, |p: int| p));
        assert(all.last() == n - 1);
        lemma_of_series(items, board, trans[n - 1].item_id);
        lemma_occurrences_push(names, trans[n - 1].to, status, names.len());
        vstd::seq_lib::lemma_seq_contains_after_push(names, trans[n - 1].to, status);
        assert(f(n - 1) == (in_scope(items, board, trans[n - 1].item_id) && holds_at(
            trans,
            n - 1,
            at,
        ) && trans[n - 1].to == status));
        if exists|p: int|
            0 <= p < m && #[trigger] is_status_then(trans, items, board, at, status, p) {
            let p = choose|p: int|
                0 <= p < m && #[trigger] is_status_then(trans, items, board, at, status, p);
            assert(0 <= p < n && is_status_then(trans, items, board, at, status, p));
        }
    }
}

/// Each entry of a series counts, for each status, the items of the board that are
/// chores or expeditions and have the status at the time of the entry.
pub proof fn law_series_count_the_items(
    series: Seq<(i64, Seq<(Seq<char>, usize)>)>,
    trans: Seq<TransitionView>,
    items: Seq<FlowItemView>,
    bucket_ms: i64,
    board: Seq<char>,
    k: int,
)
    requires
        is_series(series, trans, items, bucket_ms, board),
        0 <= k < series.len(),
    ensures
        forall|i: int|
            0 <= i < series[k].1.len() ==> (#[trigger] series[k].1[i]).1 > 0 && series[k].1[i].1
                == Seq::new(trans.len(), |p: int| p).filter(
                |p: int|
                    is_status_then(
                        trans,
                        items,
                        board,
                        series[k].0 as int,
                        series[k].1[i].0,
                        p,
                    ),
            ).len(),
        forall|p: int| #[trigger]
            is_status_then(trans, items, board, series[k].0 as int, trans[p].to, p) ==> exists|i: int|
                0 <= i < series[k].1.len() && (#[trigger] series[k].1[i]).0 == trans[p].to,
{
    let at = series[k].0 as int;
    let names = statuses_at(trans, items, board, at, trans.len());
    let counts = series[k].1;
    assert(tally::is_tally(counts, names));
    assert forall|i: int| 0 <= i < counts.len() implies (#[trigger] counts[i]).1 > 0 && counts[i].1
        == Seq::new(trans.len(), |p: int| p).filter(
        |p: int| is_status_then(trans, items, board, at, counts[i].0, p),
    ).len() by {
        lemma_statuses_counted(trans, items, board, at, counts[i].0, trans.len());
        assert(tally::keys(counts)[i] == counts[i].0);
        assert(tally::keys(counts).contains(counts[i].0));
        assert(names.take(names.len() as int) =~= names);
        lemma_occurs(names, counts[i].0, names.len());
    }
    assert forall|p: int| #[trigger]
        is_status_then(trans, items, board, at, trans[p].to, p) implies exists|i: int|
        0 <= i < counts.len() && (#[trigger] counts[i]).0 == trans[p].to by {
        lemma_statuses_counted(trans, items, board, at, trans[p].to, trans.len());
        assert(tally::keys(counts).contains(trans[p].to));
        let i = choose|i: int|
            0 <= i < tally::keys(counts).len() && tally::keys(counts)[i] == trans[p].to;
        assert(counts[i].0 == trans[p].to);
    }
}

proof fn lemma_occurs(names: Seq<Seq<char>>, s: Seq<char>, n: nat)
    requires
        n <= names.len(),
        names.take(n as int).contains(s),
    ensures
        tally::occurrences(names, s, n) > 0,
    decreases n,
{
    if n == 0 {
        assert(names.take(0).len() == 0);
    } else if names[n - 1] != s {
        let m = (n - 1) as nat;
        assert(names.take(n as int) =~= names.take(m as int).push(names[n - 1]));
        vstd::seq_lib::lemma_seq_contains_after_push(names.take(m as int), names[n - 1], s);
        lemma_occurs(names, s, m);
    }
}

proof fn lemma_ends(trans: Seq<TransitionView>, n: nat)
    requires
        1 <= n <= trans.len(),
    ensures
        forall|p: int| 0 <= p < n ==> (#[trigger] trans[p]).ts_ms <= latest(trans, n),
        exists|p: int| 0 <= p < n && (#[trigger] trans[p]).ts_ms == latest(trans, n),
    decreases n,
{
    if n > 1 {
        lemma_ends(trans, (n - 1) as nat);
    } else {
        assert(trans[0].ts_ms == latest(trans, n));
    }
}

proof fn lemma_starts(trans: Seq<TransitionView>, n: nat)
    requires
        n <= trans.len(),
    ensures
        earliest(trans, n) matches Some(e) ==> e > 0 && (forall|p: int|
            0 <= p < n && (#[trigger] trans[p]).ts_ms > 0 ==> e <= trans[p].ts_ms) && exists|p: int|
            0 <= p < n && (#[trigger] trans[p]).ts_ms == e,
        earliest(trans, n) is None ==> forall|p: int|
            0 <= p < n ==> (#[trigger] trans[p]).ts_ms <= 0,
    decreases n,
{
    if n > 0 {
        let m = (n - 1) as nat;
        lemma_starts(trans, m);
        if earliest(trans, m) is Some {
            let p = choose|p: int|
                0 <= p < m && (#[trigger] trans[p]).ts_ms == earliest(trans, m)->0;
            assert(0 <= p < n && trans[p].ts_ms == earliest(trans, m)->0);
        }
        assert(trans[n - 1].ts_ms == trans[n - 1].ts_ms);
    }
}

/// The entries of a series stand one bucket apart, which is at least one millisecond: from
/// the first change after the beginning of time up to the last change, without a gap.
pub proof fn law_series_span_the_changes(
    series: Seq<(i64, Seq<(Seq<char>, usize)>)>,
    trans: Seq<TransitionView>,
    items: Seq<FlowItemView>,
    bucket_ms: i64,
    board: Seq<char>,
    p: int,
)
    requires
        is_series(series, trans, items, bucket_ms, board),
        0 <= p < trans.len(),
        is_of_series(items, Some(board), trans[p].item_id),
    ensures
        forall|k: int|
            0 < k < series.len() ==> (#[trigger] series[k]).0 == series[k - 1].0 + if bucket_ms > 1 {
                bucket_ms as int
            } else {
                1
            },
        trans[p].ts_ms > 0 ==> {
            &&& series.len() > 0
            &&& series[0].0 > 0
            &&& series[0].0 <= trans[p].ts_ms
            &&& exists|q: int| 0 <= q < trans.len() && (#[trigger] trans[q]).ts_ms == series[0].0
            &&& trans[p].ts_ms < series.last().0 + if bucket_ms > 1 {
                bucket_ms as int
            } else {
                1
            }
            &&& exists|q: int|
                0 <= q < trans.len() && (#[trigger] trans[q]).ts_ms >= series.last().0
        },
{
    let w = width(bucket_ms);
    lemma_of_series(items, board, trans[p].item_id);
    assert(any_in_scope(trans, items, board));
    lemma_ends(trans, trans.len());
    lemma_starts(trans, trans.len());
    let start = series_start(trans);
    assert forall|k: int| 0 < k < series.len() implies (#[trigger] series[k]).0 == series[k - 1].0
        + w by {
        assert(k * w == (k - 1) * w + w) by (nonlinear_arith);
        assert(series[k - 1].0 == start + (k - 1) * w);
    }
    if trans[p].ts_ms > 0 {
        assert(start <= trans[p].ts_ms);
        if series.len() == 0 {
            assert(series.len() * w == 0) by (nonlinear_arith)
                requires
                    series.len() == 0,
            ;
        }
        assert(series[0].0 == start + 0 * w);
        let last = series.len() - 1;
        assert(series[last].0 == start + last * w);
        assert(series.len() * w == last * w + w) by (nonlinear_arith)
            requires
                last == series.len() - 1,
        ;
    }
}

/// Whether a change closes an item of a series, at a time that is known.
pub open spec fn is_closing(
    t: TransitionView,
    items: Seq<FlowItemView>,
    terminal: Seq<Seq<char>>,
) -> bool {
    terminal.contains(t.to) && is_of_series(items, None, t.item_id) && t.ts_ms > 0
}

/// Whether a time is in the bucket that starts at another; buckets start at multiples of
/// their width, which is at least one millisecond.
pub open spec fn is_in_bucket(ts_ms: i64, bucket: int, bucket_ms: i64) -> bool {
    let w: int = if bucket_ms > 1 {
        bucket_ms as int
    } else {
        1
    };
    bucket % w == 0 && bucket <= ts_ms < bucket + w
}

proof fn lemma_bucket(ts_ms: i64, bucket: int, bucket_ms: i64)
    ensures
        (bucket_of(ts_ms, bucket_ms) == bucket) == is_in_bucket(ts_ms, bucket, bucket_ms),
{
    let w = width(bucket_ms);
    let ts = ts_ms as int;
    vstd::arithmetic::div_mod::lemma_fundamental_div_mod(ts, w);
    vstd::arithmetic::mul::lemma_mul_is_commutative(ts / w, w);
    vstd::arithmetic::div_mod::lemma_mod_multiples_basic(ts / w, w);
    if is_in_bucket(ts_ms, bucket, bucket_ms) {
        vstd::arithmetic::div_mod::lemma_fundamental_div_mod(bucket, w);
        vstd::arithmetic::mul::lemma_mul_is_commutative(bucket / w, w);
        vstd::arithmetic::div_mod::lemma_fundamental_div_mod_converse(
            ts,
            w,
            bucket / w,
            ts - bucket,
        );
    }
}

proof fn lemma_arrivals(
    trans: Seq<TransitionView>,
    items: Seq<FlowItemView>,
    terminal: Seq<Seq<char>>,
    bucket_ms: i64,
    bucket: int,
    n: nat,
    id: Seq<char>,
)
    requires
        n <= trans.len(),
    ensures
        arrivals(trans, items, terminal, bucket_ms, bucket, n).contains(id) == exists|p: int|
            0 <= p < n && is_closing(#[trigger] trans[p], items, terminal) && trans[p].item_id == id
                && is_in_bucket(trans[p].ts_ms, bucket, bucket_ms),
    decreases n,
{
    if n > 0 {
        let m = (n - 1) as nat;
        lemma_arrivals(trans, items, terminal, bucket_ms, bucket, m, id);
        let before = arrivals(trans, items, terminal, bucket_ms, bucket, m);
        let t = trans[n - 1];
        lemma_of_series(items, Seq::empty(), t.item_id);
        lemma_bucket(t.ts_ms, bucket, bucket_ms);
        vstd::seq_lib::lemma_seq_contains_after_push(before, t.item_id, id);
        if exists|p: int|
            0 <= p < m && is_closing(#[trigger] trans[p], items, terminal) && trans[p].item_id == id
                && is_in_bucket(trans[p].ts_ms, bucket, bucket_ms) {
            let p = choose|p: int|
                0 <= p < m && is_closing(#[trigger] trans[p], items, terminal) && trans[p].item_id
                    == id && is_in_bucket(trans[p].ts_ms, bucket, bucket_ms);
            assert(0 <= p < n && is_closing(trans[p], items, terminal));
        }
        assert(is_closing(trans[n - 1], items, terminal) == closes(t, items, terminal));
    }
}

/// The throughput of a bucket is the number of items that are closed in it, each counted
/// once: as many as a list without repetition of their ids is long.
pub proof fn law_throughput_counts_each_item_once(
    list: Seq<(i64, usize)>,
    trans: Seq<TransitionView>,
    items: Seq<FlowItemView>,
    terminal: Seq<Seq<char>>,
    bucket_ms: i64,
    i: int,
    ids: Seq<Seq<char>>,
)
    requires
        is_throughput(list, trans, items, terminal, bucket_ms),
        0 <= i < list.len(),
        ids.no_duplicates(),
        forall|id: Seq<char>| #[trigger]
            ids.contains(id) <==> exists|p: int|
                0 <= p < trans.len() && is_closing(#[trigger] trans[p], items, terminal)
                    && trans[p].item_id == id && is_in_bucket(
                    trans[p].ts_ms,
                    list[i].0 as int,
                    bucket_ms,
                ),
    ensures
        list[i].1 == ids.len(),
{
    let all = arrivals(trans, items, terminal, bucket_ms, list[i].0 as int, trans.len());
    ids.unique_seq_to_set();
    assert(all.to_set() =~= ids.to_set()) by {
        assert forall|id: Seq<char>| all.to_set().contains(id) == ids.to_set().contains(id) by {
            lemma_arrivals(
                trans,
                items,
                terminal,
                bucket_ms,
                list[i].0 as int,
                trans.len(),
                id,
            );
            assert(ids.contains(id) == all.contains(id));
        }
    }
}

/// The buckets of a throughput are exactly those in which an item is closed, in order.
pub proof fn law_throughput_has_every_bucket(
    list: Seq<(i64, usize)>,
    trans: Seq<TransitionView>,
    items: Seq<FlowItemView>,
    terminal: Seq<Seq<char>>,
    bucket_ms: i64,
    bucket: int,
)
    requires
        is_throughput(list, trans, items, terminal, bucket_ms),
    ensures
        (exists|i: int| 0 <= i < list.len() && (#[trigger] list[i]).0 == bucket) <==> exists|p: int|
            0 <= p < trans.len() && is_closing(#[trigger] trans[p], items, terminal)
                && is_in_bucket(trans[p].ts_ms, bucket, bucket_ms),
        forall|i: int, j: int|
            0 <= i < j < list.len() ==> (#[trigger] list[i]).0 < (#[trigger] list[j]).0,
{
    assert forall|p: int| 0 <= p < trans.len() implies (closes(
        #[trigger] trans[p],
        items,
        terminal,
    ) && bucket_of(trans[p].ts_ms, bucket_ms) == bucket) == (is_closing(trans[p], items, terminal)
        && is_in_bucket(trans[p].ts_ms, bucket, bucket_ms)) by {
        lemma_of_series(items, Seq::empty(), trans[p].item_id);
        lemma_bucket(trans[p].ts_ms, bucket, bucket_ms);
    }
    assert(lists_bucket(list, bucket) == has_arrivals(trans, items, terminal, bucket_ms, bucket));
}

} // verus!
