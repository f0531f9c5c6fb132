//! Search by meaning: the items that pass the filters of a query, from the most similar
//! to the least.
//!
//! How similar an item's embedding is to the query's is worked out where the embeddings
//! are; here a score is an integer that stands for it and orders as it does.
use vstd::prelude::*;
use crate::columns;
use crate::columns::Table;
use crate::items;
use crate::items::{ASSIGNEE, BOARD, DELETED, EMBEDDING, ID, ITEM_TYPE, PRIORITY, STATUS, TITLE};
use crate::sorting;
use crate::sorting::SortKey;
use crate::text;

verus! {

// ---- scores -----------------------------------------------------------------------------------

/// The integer that stands for a similarity, given its bits as an IEEE 754 number of 32
/// bits: the magnitude with the sign. Numbers order as these integers do, and the two
/// zeros are one.
pub open spec fn key_spec(bits: u32) -> i64 {
    if bits >= 0x8000_0000 {
        -((bits - 0x8000_0000) as i64) as i64
    } else {
        bits as i64
    }
}

/// The integer that stands for a similarity, given its bits.
pub fn score_key(bits: u32) -> (r: i64)
    ensures
        r == key_spec(bits),
        -0x7fff_ffff <= r <= 0x7fff_ffff,
{
    if bits >= 0x8000_0000 {
        -((bits - 0x8000_0000) as i64)
    } else {
        bits as i64
    }
}

/// The bits of the similarity that an integer stands for.
pub fn score_bits(key: i64) -> (r: u32)
    requires
        -0x7fff_ffff <= key <= 0x7fff_ffff,
    ensures
        key_spec(r) == key,
{
    if key < 0 {
        (-key) as u32 + 0x8000_0000
    } else {
        key as u32
    }
}

// ---- queries -----------------------------------------------------------------------------------

/// What the items of a query have to be. Where a filter is `None` anything goes.
#[derive(Debug)]
pub struct QueryFilters {
    pub status: Option<String>,
    pub item_type: Option<String>,
    pub board: Option<String>,
    pub assignee: Option<String>,
}

/// An item that was found.
#[derive(Debug)]
pub struct RankedResult {
    pub id: String,
    pub title: String,
    pub item_type: String,
    pub status: String,
    /// Empty where the item has none.
    pub priority: String,
    /// Empty where the item has none.
    pub assignee: String,
    pub score: i64,
}

#[verifier::ext_equal]
pub struct ResultView {
    pub id: Seq<char>,
    pub title: Seq<char>,
    pub item_type: Seq<char>,
    pub status: Seq<char>,
    pub priority: Seq<char>,
    pub assignee: Seq<char>,
    pub score: i64,
}

impl View for RankedResult {
    type V = ResultView;

    open spec fn view(&self) -> ResultView {
        ResultView {
            id: self.id@,
            title: self.title@,
            item_type: self.item_type@,
            status: self.status@,
            priority: self.priority@,
            assignee: self.assignee@,
            score: self.score,
        }
    }
}

pub open spec fn result_views(list: Seq<RankedResult>) -> Seq<ResultView> {
    Seq::new(list.len(), |i: int| list[i]@)
}

/// Whether a table has the columns that a search reads.
pub open spec fn is_search_table(table: Table) -> bool {
    &&& columns::has_text(table, ID as int)
    &&& columns::has_text(table, TITLE as int)
    &&& columns::has_text(table, ITEM_TYPE as int)
    &&& columns::has_text(table, STATUS as int)
    &&& columns::has_text(table, PRIORITY as int)
    &&& columns::has_text(table, ASSIGNEE as int)
    &&& columns::has_text(table, BOARD as int)
    &&& columns::has_flags(table, DELETED as int)
    &&& columns::has_vectors(table, EMBEDDING as int)
}

/// Whether a table has the columns that a search reads.
pub fn has_search_columns(table: &Table) -> (r: bool)
    ensures
        r == is_search_table(*table),
{
    items::has_text_at(table, ID) && items::has_text_at(table, TITLE) && items::has_text_at(
        table,
        ITEM_TYPE,
    ) && items::has_text_at(table, STATUS) && items::has_text_at(table, PRIORITY)
        && items::has_text_at(table, ASSIGNEE) && items::has_text_at(table, BOARD)
        && items::has_flags_at(table, DELETED) && EMBEDDING < columns::num_columns(table)
        && columns::is_vectors(table, EMBEDDING)
}

/// Whether a text passes a filter.
pub open spec fn passes(filter: Option<String>, value: Seq<char>) -> bool {
    match filter {
        Some(f) => value == f@,
        None => true,
    }
}

/// Whether the item in a row is searched: it is not deleted, it passes the filters, and
/// it has an embedding. An item without one is not known to be dissimilar.
pub open spec fn is_searched(table: Table, row: int, filters: QueryFilters) -> bool {
    &&& !columns::flag_cell(table, DELETED as int, row).value
    &&& passes(filters.status, columns::text_cell(table, STATUS as int, row).value)
    &&& passes(filters.item_type, columns::text_cell(table, ITEM_TYPE as int, row).value)
    &&& passes(filters.board, columns::text_cell(table, BOARD as int, row).value)
    &&& filters.assignee is Some ==> columns::text_cell(table, ASSIGNEE as int, row).valid
    &&& passes(filters.assignee, columns::text_cell(table, ASSIGNEE as int, row).value)
    &&& columns::vector_cell(table, EMBEDDING as int, row)
}

/// The text in a row, or nothing where it is null.
pub open spec fn text_or_empty(table: Table, col: int, row: int) -> Seq<char> {
    if columns::text_cell(table, col, row).valid {
        columns::text_cell(table, col, row).value
    } else {
        Seq::empty()
    }
}

/// The item in a row with its score.
pub open spec fn result_at(table: Table, row: int, score: i64) -> ResultView {
    ResultView {
        id: columns::text_cell(table, ID as int, row).value,
        title: columns::text_cell(table, TITLE as int, row).value,
        item_type: columns::text_cell(table, ITEM_TYPE as int, row).value,
        status: columns::text_cell(table, STATUS as int, row).value,
        priority: text_or_empty(table, PRIORITY as int, row),
        assignee: text_or_empty(table, ASSIGNEE as int, row),
        score,
    }
}

/// The items in the first `n` rows of a table that are searched and score enough.
pub open spec fn found_in(
    table: Table,
    filters: QueryFilters,
    scores: Seq<i64>,
    threshold: i64,
    n: nat,
) -> Seq<ResultView>
    decreases n,
{
    if n == 0 {
        Seq::empty()
    } else {
        let before = found_in(table, filters, scores, threshold, (n - 1) as nat);
        if is_searched(table, n - 1, filters) && scores[n - 1] >= threshold {
            before.push(result_at(table, n - 1, scores[n - 1]))
        } else {
            before
        }
    }
}

/// The items in the first `n` tables that are searched and score enough.
pub open spec fn found(
    tables: Seq<Table>,
    filters: QueryFilters,
    scores: Seq<Vec<i64>>,
    threshold: i64,
    n: nat,
) -> Seq<ResultView>
    decreases n,
{
    if n == 0 {
        Seq::empty()
    } else {
        found(tables, filters, scores, threshold, (n - 1) as nat) + found_in(
            tables[n - 1],
            filters,
            scores[n - 1]@,
            threshold,
            columns::table_rows(tables[n - 1]),
        )
    }
}

/// A score that sorts from the highest to the lowest.
#[derive(Debug)]
pub struct Highest(pub i64);

impl SortKey for Highest {
    type Model = i64;

    open spec fn model(&self) -> i64 {
        self.0
    }

    open spec fn precedes(a: i64, b: i64) -> bool {
        a >= b
    }

    proof fn le_transitive(a: i64, b: i64, c: i64) {
    }

    proof fn le_total(a: i64, b: i64) {
    }

    fn at_most(&self, other: &Self) -> (r: bool) {
        self.0 >= other.0
    }
}

pub open spec fn scores_of(list: Seq<ResultView>) -> Seq<i64> {
    Seq::new(list.len(), |i: int| list[i].score)
}

/// Results from the highest score to the lowest; those of one score stay in order.
pub open spec fn ranked(list: Seq<ResultView>) -> Seq<ResultView> {
    sorting::pick(list, sorting::stable_order::<Highest>(scores_of(list)))
}

/// The first results of a list.
pub open spec fn top(list: Seq<ResultView>, top_k: nat) -> Seq<ResultView> {
    if list.len() > top_k {
        list.take(top_k as int)
    } else {
        list
    }
}

fn text_passes(filter: &Option<String>, value: &str) -> (r: bool)
    ensures
        r == passes(*filter, value@),
{
    match filter {
        Some(f) => text::same(value, f.as_str()),
        None => true,
    }
}

fn row_is_searched(table: &Table, row: usize, filters: &QueryFilters) -> (r: bool)
    requires
        is_search_table(*table),
        row < columns::table_rows(*table),
    ensures
        r == is_searched(*table, row as int, *filters),
{
    if columns::flag_value(table, DELETED, row) || columns::vector_is_null(table, EMBEDDING, row) {
        return false;
    }
    let status: String = columns::text_value(table, STATUS, row);
    let item_type: String = columns::text_value(table, ITEM_TYPE, row);
    let board: String = columns::text_value(table, BOARD, row);
    let assignee: String = columns::text_value(table, ASSIGNEE, row);
    text_passes(&filters.status, status.as_str()) && text_passes(
        &filters.item_type,
        item_type.as_str(),
    ) && text_passes(&filters.board, board.as_str()) && (filters.assignee.is_none()
        || !columns::text_is_null(table, ASSIGNEE, row)) && text_passes(
        &filters.assignee,
        assignee.as_str(),
    )
}

fn read_or_empty(table: &Table, col: usize, row: usize) -> (r: String)
    requires
        columns::has_text(*table, col as int),
        row < columns::table_rows(*table),
    ensures
        r@ == text_or_empty(*table, col as int, row as int),
{
    if columns::text_is_null(table, col, row) {
        String::new()
    } else {
        columns::text_value(table, col, row)
    }
}

fn read_result(table: &Table, row: usize, score: i64) -> (r: RankedResult)
    requires
        is_search_table(*table),
        row < columns::table_rows(*table),
    ensures
        r@ == result_at(*table, row as int, score),
{
    RankedResult {
        id: columns::text_value(table, ID, row),
        title: columns::text_value(table, TITLE, row),
        item_type: columns::text_value(table, ITEM_TYPE, row),
        status: columns::text_value(table, STATUS, row),
        priority: read_or_empty(table, PRIORITY, row),
        assignee: read_or_empty(table, ASSIGNEE, row),
        score,
    }
}

fn push_found(
    list: &mut Vec<RankedResult>,
    table: &Table,
    filters: &QueryFilters,
    scores: &Vec<i64>,
    threshold: i64,
)
    requires
        is_search_table(*table),
        scores@.len() == columns::table_rows(*table),
    ensures
        result_views(final(list)@) == result_views(old(list)@) + found_in(
            *table,
            *filters,
            scores@,
            threshold,
            columns::table_rows(*table),
        ),
{
    let ghost before = result_views(list@);
    let n: usize = columns::num_rows(table);
    let mut row: usize = 0;
    assert(result_views(list@) =~= before + found_in(*table, *filters, scores@, threshold, 0));
    while row < n
        invariant
            row <= n,
            n == columns::table_rows(*table),
            is_search_table(*table),
            scores@.len() == n,
            result_views(list@) == before + found_in(
                *table,
                *filters,
                scores@,
                threshold,
                row as nat,
            ),
        decreases n - row,
    {
        if row_is_searched(table, row, filters) && scores[row] >= threshold {
            let ghost so_far = result_views(list@);
            let result: RankedResult = read_result(table, row, scores[row]);
            let ghost shown = result@;
            list.push(result);
            assert(result_views(list@) =~= so_far.push(shown));
            assert(result_views(list@) =~= before + found_in(
                *table,
                *filters,
                scores@,
                threshold,
                (row + 1) as nat,
            ));
        }
        row = row + 1;
    }
}

fn copy_result(r: &RankedResult) -> (c: RankedResult)
    ensures
        c@ == r@,
{
    RankedResult {
        id: r.id.clone(),
        title: r.title.clone(),
        item_type: r.item_type.clone(),
        status: r.status.clone(),
        priority: r.priority.clone(),
        assignee: r.assignee.clone(),
        score: r.score,
    }
}

/// The best of a list of results, from the highest score to the lowest.
pub fn rank(list: &Vec<RankedResult>, top_k: usize) -> (r: Vec<RankedResult>)
    ensures
        result_views(r@) == top(ranked(result_views(list@)), top_k as nat),
{
    let ghost all = result_views(list@);
    let mut keys: Vec<Highest> = Vec::new();
    let mut i: usize = 0;
    while i < list.len()
        invariant
            i <= list@.len(),
            keys@.len() == i,
            forall|k: int| 0 <= k < i ==> (#[trigger] keys@[k]).0 == list@[k].score,
        decreases list@.len() - i,
    {
        keys.push(Highest(list[i].score));
        i = i + 1;
    }
    assert(sorting::models(keys@) =~= scores_of(all));
    let order: Vec<usize> = sorting::sort_positions(&keys);
    let n: usize = if order.len() > top_k {
        top_k
    } else {
        order.len()
    };
    let mut r: Vec<RankedResult> = Vec::new();
    let mut j: usize = 0;
    while j < n
        invariant
            j <= n <= order@.len(),
            all == result_views(list@),
            forall|k: int| 0 <= k < order@.len() ==> (#[trigger] order@[k]) < list@.len(),
            r@.len() == j,
            forall|k: int| 0 <= k < j ==> (#[trigger] r@[k])@ == all[order@[k] as int],
        decreases n - j,
    {
        assert(order@[j as int] < list@.len());
        r.push(copy_result(&list[order[j]]));
        j = j + 1;
    }
    assert(result_views(r@) =~= top(ranked(all), top_k as nat));
    r
}

/// Searches tables: the items that pass the filters, have an embedding and score at
/// least the threshold, from the most similar to the least, and no more than a number of
/// them. A score stands for the similarity of the embedding in its row.
pub fn semantic_query_with_filters(
    tables: &[Table],
    filters: &QueryFilters,
    scores: &Vec<Vec<i64>>,
    top_k: usize,
    threshold: i64,
) -> (r: Vec<RankedResult>)
    requires
        forall|t: int| 0 <= t < tables@.len() ==> is_search_table(#[trigger] tables@[t]),
        scores@.len() == tables@.len(),
        forall|t: int|
            0 <= t < tables@.len() ==> (#[trigger] scores@[t])@.len() == columns::table_rows(
                tables@[t],
            ),
    ensures
        result_views(r@) == top(
            ranked(found(tables@, *filters, scores@, threshold, tables@.len())),
            top_k as nat,
        ),
{
    let mut list: Vec<RankedResult> = Vec::new();
    let mut t: usize = 0;
    assert(result_views(list@) =~= found(tables@, *filters, scores@, threshold, 0));
    while t < tables.len()
        invariant
            t <= tables@.len(),
            forall|t: int| 0 <= t < tables@.len() ==> is_search_table(#[trigger] tables@[t]),
            scores@.len() == tables@.len(),
            forall|t: int|
                0 <= t < tables@.len() ==> (#[trigger] scores@[t])@.len() == columns::table_rows(
                    tables@[t],
                ),
            result_views(list@) == found(tables@, *filters, scores@, threshold, t as nat),
        decreases tables@.len() - t,
    {
        assert(is_search_table(tables@[t as int]));
        assert(scores@[t as int]@.len() == columns::table_rows(tables@[t as int]));
        push_found(&mut list, &tables[t], filters, &scores[t], threshold);
        t = t + 1;
    }
    rank(&list, top_k)
}

// ---- what holds of searches ------------------------------------------------------------------------

/// Results come from the highest score to the lowest.
pub proof fn law_results_descend(list: Seq<ResultView>, top_k: nat, i: int, j: int)
    requires
        list.len() <= usize::MAX,
        0 <= i < j < top(ranked(list), top_k).len(),
    ensures
        top(ranked(list), top_k)[i].score >= top(ranked(list), top_k)[j].score,
{
    let keys = scores_of(list);
    sorting::lemma_stable_order_exists::<Highest>(keys);
    let order = sorting::stable_order::<Highest>(keys);
    assert(order[i] < keys.len() && order[j] < keys.len());
    assert(Highest::precedes(keys[order[i] as int], keys[order[j] as int]));
}

/// No search gives more results than were asked for.
pub proof fn law_at_most_top_k(list: Seq<ResultView>, top_k: nat)
    ensures
        top(ranked(list), top_k).len() <= top_k,
{
}

/// Every item that a search finds scores at least the threshold.
pub proof fn law_threshold_holds(
    table: Table,
    filters: QueryFilters,
    scores: Seq<i64>,
    threshold: i64,
    n: nat,
    i: int,
)
    requires
        0 <= i < found_in(table, filters, scores, threshold, n).len(),
    ensures
        found_in(table, filters, scores, threshold, n)[i].score >= threshold,
    decreases n,
{
    if n > 0 {
        let before = found_in(table, filters, scores, threshold, (n - 1) as nat);
        if i < before.len() {
            law_threshold_holds(table, filters, scores, threshold, (n - 1) as nat, i);
        }
    }
}

// ---- what is found, by filters and cells ---------------------------------------------------------------

/// Whether a row of the tables is to be found: it is not deleted, has a vector, scores the
/// threshold at least, and has what every filter that is set asks for.
pub open spec fn is_wanted(
    tables: Seq<Table>,
    filters: QueryFilters,
    scores: Seq<Vec<i64>>,
    threshold: i64,
    t: int,
    row: int,
) -> bool {
    &&& 0 <= t < tables.len()
    &&& 0 <= row < columns::table_rows(tables[t])
    &&& !columns::flag_cell(tables[t], DELETED as int, row).value
    &&& columns::vector_cell(tables[t], EMBEDDING as int, row)
    &&& scores[t]@[row] >= threshold
    &&& filters.status matches Some(s) ==> columns::text_cell(tables[t], STATUS as int, row).value
        == s@
    &&& filters.item_type matches Some(s) ==> columns::text_cell(
        tables[t],
        ITEM_TYPE as int,
        row,
    ).value == s@
    &&& filters.board matches Some(s) ==> columns::text_cell(tables[t], BOARD as int, row).value
        == s@
    &&& filters.assignee matches Some(s) ==> columns::text_cell(
        tables[t],
        ASSIGNEE as int,
        row,
    ).valid && columns::text_cell(tables[t], ASSIGNEE as int, row).value == s@
}

/// Whether a result shows a row: each of its fields is the row's cell, and its score the
/// row's. A priority or an assignee that the row has not is shown as an empty text.
pub open spec fn shows(
    r: ResultView,
    tables: Seq<Table>,
    scores: Seq<Vec<i64>>,
    t: int,
    row: int,
) -> bool {
    let priority = columns::text_cell(tables[t], PRIORITY as int, row);
    let assignee = columns::text_cell(tables[t], ASSIGNEE as int, row);
    &&& r.id == columns::text_cell(tables[t], ID as int, row).value
    &&& r.title == columns::text_cell(tables[t], TITLE as int, row).value
    &&& r.item_type == columns::text_cell(tables[t], ITEM_TYPE as int, row).value
    &&& r.status == columns::text_cell(tables[t], STATUS as int, row).value
    &&& priority.valid ==> r.priority == priority.value
    &&& !priority.valid ==> r.priority.len() == 0
    &&& assignee.valid ==> r.assignee == assignee.value
    &&& !assignee.valid ==> r.assignee.len() == 0
    &&& r.score == scores[t]@[row]
}

/// Whether a result shows a wanted row of a table, before row `n`.
spec fn shows_row(
    r: ResultView,
    tables: Seq<Table>,
    filters: QueryFilters,
    scores: Seq<Vec<i64>>,
    threshold: i64,
    t: int,
    n: nat,
) -> bool {
    exists|row: int|
        row < n && #[trigger] is_wanted(tables, filters, scores, threshold, t, row) && shows(
            r,
            tables,
            scores,
            t,
            row,
        )
}

proof fn lemma_found_in(
    tables: Seq<Table>,
    filters: QueryFilters,
    scores: Seq<Vec<i64>>,
    threshold: i64,
    t: int,
    n: nat,
    k: int,
)
    requires
        0 <= t < tables.len(),
        n <= columns::table_rows(tables[t]),
        0 <= k < found_in(tables[t], filters, scores[t]@, threshold, n).len(),
    ensures
        shows_row(
            found_in(tables[t], filters, scores[t]@, threshold, n)[k],
            tables,
            filters,
            scores,
            threshold,
            t,
            n,
        ),
    decreases n,
{
    if n > 0 {
        let m = (n - 1) as nat;
        let before = found_in(tables[t], filters, scores[t]@, threshold, m);
        let now = found_in(tables[t], filters, scores[t]@, threshold, n);
        if k < before.len() {
            lemma_found_in(tables, filters, scores, threshold, t, m, k);
            let row = choose|row: int|
                row < m && #[trigger] is_wanted(tables, filters, scores, threshold, t, row)
                    && shows(before[k], tables, scores, t, row);
            assert(now[k] == before[k]);
            assert(is_wanted(tables, filters, scores, threshold, t, row));
        } else {
            assert(is_wanted(tables, filters, scores, threshold, t, n - 1));
            assert(shows(now[k], tables, scores, t, n - 1));
        }
    }
}

proof fn lemma_row_found(
    tables: Seq<Table>,
    filters: QueryFilters,
    scores: Seq<Vec<i64>>,
    threshold: i64,
    t: int,
    row: int,
    n: nat,
)
    requires
        is_wanted(tables, filters, scores, threshold, t, row),
        row < n <= columns::table_rows(tables[t]),
    ensures
        found_in(tables[t], filters, scores[t]@, threshold, n).contains(
            result_at(tables[t], row, scores[t]@[row]),
        ),
    decreases n,
{
    let m = (n - 1) as nat;
    let before = found_in(tables[t], filters, scores[t]@, threshold, m);
    let now = found_in(tables[t], filters, scores[t]@, threshold, n);
    let wanted = result_at(tables[t], row, scores[t]@[row]);
    if row < m {
        lemma_row_found(tables, filters, scores, threshold, t, row, m);
        let k = choose|k: int| 0 <= k < before.len() && before[k] == wanted;
        assert(now[k] == wanted);
    } else {
        assert(is_searched(tables[t], row, filters));
        assert(now.last() == wanted);
    }
}

proof fn lemma_found(
    tables: Seq<Table>,
    filters: QueryFilters,
    scores: Seq<Vec<i64>>,
    threshold: i64,
    n: nat,
    k: int,
)
    requires
        n <= tables.len(),
        0 <= k < found(tables, filters, scores, threshold, n).len(),
    ensures
        exists|t: int, row: int| #[trigger]
            is_wanted(tables, filters, scores, threshold, t, row) && shows(
                found(tables, filters, scores, threshold, n)[k],
                tables,
                scores,
                t,
                row,
            ),
    decreases n,
{
    if n > 0 {
        let m = (n - 1) as nat;
        let rows = columns::table_rows(tables[n - 1]);
        let before = found(tables, filters, scores, threshold, m);
        let here = found_in(tables[n - 1], filters, scores[n - 1]@, threshold, rows);
        let now = found(tables, filters, scores, threshold, n);
        if k < before.len() {
            lemma_found(tables, filters, scores, threshold, m, k);
            assert(now[k] == before[k]);
        } else {
            let j = k - before.len();
            assert(now[k] == here[j]);
            lemma_found_in(tables, filters, scores, threshold, n - 1, rows, j);
        }
    }
}

proof fn lemma_is_found(
    tables: Seq<Table>,
    filters: QueryFilters,
    scores: Seq<Vec<i64>>,
    threshold: i64,
    t: int,
    row: int,
    n: nat,
)
    requires
        is_wanted(tables, filters, scores, threshold, t, row),
        t < n <= tables.len(),
    ensures
        found(tables, filters, scores, threshold, n).contains(
            result_at(tables[t], row, scores[t]@[row]),
        ),
    decreases n,
{
    let m = (n - 1) as nat;
    let rows = columns::table_rows(tables[n - 1]);
    let before = found(tables, filters, scores, threshold, m);
    let here = found_in(tables[n - 1], filters, scores[n - 1]@, threshold, rows);
    let wanted = result_at(tables[t], row, scores[t]@[row]);
    vstd::seq_lib::lemma_seq_concat_contains_all_elements(before, here, wanted);
    if t < m {
        lemma_is_found(tables, filters, scores, threshold, t, row, m);
    } else {
        lemma_row_found(tables, filters, scores, threshold, t, row, rows);
    }
}

/// Every result shows a row that has what every filter that is set asks for: a search for
/// a status finds items of that status only, and so with type, board and assignee.
pub proof fn law_results_pass_the_filters(
    tables: Seq<Table>,
    filters: QueryFilters,
    scores: Seq<Vec<i64>>,
    threshold: i64,
    top_k: nat,
    results: Seq<ResultView>,
    k: int,
)
    requires
        found(tables, filters, scores, threshold, tables.len()).len() <= usize::MAX,
        results == top(ranked(found(tables, filters, scores, threshold, tables.len())), top_k),
        0 <= k < results.len(),
    ensures
        filters.status matches Some(s) ==> results[k].status == s@,
        filters.item_type matches Some(s) ==> results[k].item_type == s@,
        filters.assignee matches Some(s) ==> results[k].assignee == s@,
        results[k].score >= threshold,
        exists|t: int, row: int| #[trigger]
            is_wanted(tables, filters, scores, threshold, t, row) && shows(
                results[k],
                tables,
                scores,
                t,
                row,
            ),
{
    let list = found(tables, filters, scores, threshold, tables.len());
    let keys = scores_of(list);
    sorting::lemma_stable_order_exists::<Highest>(keys);
    let order = sorting::stable_order::<Highest>(keys);
    let at = order[k] as int;
    assert(results[k] == list[at]);
    lemma_found(tables, filters, scores, threshold, tables.len(), at);
    let (t, row) = choose|t: int, row: int| #[trigger]
        is_wanted(tables, filters, scores, threshold, t, row) && shows(
            list[at],
            tables,
            scores,
            t,
            row,
        );
    assert(is_wanted(tables, filters, scores, threshold, t, row) && shows(
        results[k],
        tables,
        scores,
        t,
        row,
    ));
}

/// Every row that is wanted is found, unless there are as many results as may be, all of
/// which score at least as much.
pub proof fn law_nothing_wanted_is_missed(
    tables: Seq<Table>,
    filters: QueryFilters,
    scores: Seq<Vec<i64>>,
    threshold: i64,
    top_k: nat,
    results: Seq<ResultView>,
    t: int,
    row: int,
)
    requires
        found(tables, filters, scores, threshold, tables.len()).len() <= usize::MAX,
        results == top(ranked(found(tables, filters, scores, threshold, tables.len())), top_k),
        is_wanted(tables, filters, scores, threshold, t, row),
    ensures
        (exists|k: int|
            0 <= k < results.len() && shows(#[trigger] results[k], tables, scores, t, row)) || (
        results.len() == top_k && forall|k: int|
            0 <= k < results.len() ==> (#[trigger] results[k]).score >= scores[t]@[row]),
{
    let list = found(tables, filters, scores, threshold, tables.len());
    lemma_is_found(tables, filters, scores, threshold, t, row, tables.len());
    let keys = scores_of(list);
    sorting::lemma_stable_order_exists::<Highest>(keys);
    let order = sorting::stable_order::<Highest>(keys);
    let wanted = result_at(tables[t], row, scores[t]@[row]);
    let i = choose|i: int| 0 <= i < list.len() && list[i] == wanted;
    assert(order.contains(i as usize));
    let m = choose|m: int| 0 <= m < order.len() && order[m] == i as usize;
    assert(ranked(list)[m] == wanted);
    if m < results.len() {
        assert(results[m] == wanted);
        assert(shows(results[m], tables, scores, t, row));
    } else {
        assert forall|k: int| 0 <= k < results.len() implies (#[trigger] results[k]).score
            >= scores[t]@[row] by {
            assert(results[k] == list[order[k] as int]);
            assert(Highest::precedes(keys[order[k] as int], keys[order[m] as int]));
        }
    }
}

/// Scores compare as the numbers that their bits stand for: of two that are not negative
/// the one with the higher bits is higher, of two negative ones the one with the lower
/// bits, and negative ones are below those that are not; both zeros are the same.
pub proof fn law_scores_compare_as_numbers(a: u32, b: u32)
    ensures
        a < 0x8000_0000 && b < 0x8000_0000 ==> (key_spec(a) < key_spec(b) <==> a < b),
        a >= 0x8000_0000 && b >= 0x8000_0000 ==> (key_spec(a) < key_spec(b) <==> a > b),
        a > 0x8000_0000 && b < 0x8000_0000 ==> key_spec(a) < key_spec(b),
        key_spec(0) == key_spec(0x8000_0000),
{
}

} // verus!
