//! Which items a listing shows.
//!
//! The tables that are looked through hold one item each, unless a function says
//! otherwise; what is given back is which of them to show.
use vstd::prelude::*;
use crate::blocked;
use crate::columns;
use crate::columns::Table;
use crate::embedding;
use crate::items;
use crate::items::{ID, PRIORITY, PRIORITY_RANK, RESOLUTION, TAGS, TITLE};
use crate::sorting;
use crate::sorting::SortKey;
use crate::text;

verus! {

/// What a listing filters by, beside what the board itself looks up.
#[derive(Debug)]
pub struct ListFilters {
    pub resolution: Option<String>,
    pub priority: Option<String>,
    /// Tags that an item has to have, all of them.
    pub tags: Vec<String>,
    /// The items that are ready, where only those are asked for.
    pub ready: Option<Vec<String>>,
}

/// Whether a table has the columns that a listing reads.
pub open spec fn is_list_table(table: Table) -> bool {
    &&& columns::has_text(table, ID as int)
    &&& columns::has_text(table, PRIORITY as int)
    &&& columns::has_text(table, RESOLUTION as int)
    &&& columns::has_text_lists(table, TAGS as int)
    &&& columns::table_rows(table) > 0
}

/// Whether a table has the columns that a listing reads.
pub fn has_list_columns(table: &Table) -> (r: bool)
    ensures
        r == is_list_table(*table),
{
    items::has_text_at(table, ID) && items::has_text_at(table, PRIORITY) && items::has_text_at(
        table,
        RESOLUTION,
    ) && columns::is_text_lists(table, TAGS) && columns::num_rows(table) > 0
}

/// Whether the text in the first row is there and is the one that is asked for, if one
/// is.
pub open spec fn first_is(table: Table, col: int, wanted: Option<String>) -> bool {
    match wanted {
        Some(s) => columns::text_cell(table, col, 0).valid && columns::text_cell(
            table,
            col,
            0,
        ).value == s@,
        None => true,
    }
}

/// Whether all tags are in a list.
pub open spec fn has_all(list: Seq<Seq<char>>, wanted: Seq<Seq<char>>) -> bool {
    forall|i: int| 0 <= i < wanted.len() ==> list.contains(#[trigger] wanted[i])
}

/// Whether some row has all tags that are asked for, if any are.
pub open spec fn tags_match(table: Table, wanted: Seq<Seq<char>>) -> bool {
    wanted.len() == 0 || exists|row: int|
        0 <= row < columns::table_rows(table) && columns::list_cell(table, TAGS as int, row).valid
            && has_all(
            columns::list_texts(#[trigger] columns::list_cell(table, TAGS as int, row)),
            wanted,
        )
}

/// Whether some row is of an item that is ready, if that is asked for.
pub open spec fn is_ready(table: Table, ready: Option<Vec<String>>) -> bool {
    match ready {
        Some(ids) => exists|row: int|
            0 <= row < columns::table_rows(table) && text::views(ids@).contains(
                (#[trigger] columns::text_cell(table, ID as int, row)).value,
            ),
        None => true,
    }
}

/// Whether a table is shown.
pub open spec fn is_listed(table: Table, filters: ListFilters) -> bool {
    &&& first_is(table, RESOLUTION as int, filters.resolution)
    &&& first_is(table, PRIORITY as int, filters.priority)
    &&& tags_match(table, text::views(filters.tags@))
    &&& is_ready(table, filters.ready)
}

fn check_first(table: &Table, col: usize, wanted: &Option<String>) -> (r: bool)
    requires
        columns::has_text(*table, col as int),
        columns::table_rows(*table) > 0,
    ensures
        r == first_is(*table, col as int, *wanted),
{
    match wanted {
        Some(s) => {
            let value: String = columns::text_value(table, col, 0);
            !columns::text_is_null(table, col, 0) && text::same(value.as_str(), s.as_str())
        },
        None => true,
    }
}

fn contains_all(list: &Vec<String>, wanted: &Vec<String>) -> (r: bool)
    ensures
        r == has_all(text::views(list@), text::views(wanted@)),
{
    let ghost have = text::views(list@);
    let ghost all = text::views(wanted@);
    let mut i: usize = 0;
    while i < wanted.len()
        invariant
            i <= wanted@.len(),
            have == text::views(list@),
            all == text::views(wanted@),
            forall|k: int| 0 <= k < i ==> have.contains(#[trigger] all[k]),
        decreases wanted@.len() - i,
    {
        assert(all[i as int] == wanted@[i as int]@);
        if !text::contains_string(list, wanted[i].as_str()) {
            return false;
        }
        i = i + 1;
    }
    true
}

fn check_tags(table: &Table, wanted: &Vec<String>) -> (r: bool)
    requires
        is_list_table(*table),
    ensures
        r == tags_match(*table, text::views(wanted@)),
{
    if wanted.len() == 0 {
        return true;
    }
    let ghost all = text::views(wanted@);
    let n: usize = columns::num_rows(table);
    let mut row: usize = 0;
    while row < n
        invariant
            row <= n,
            n == columns::table_rows(*table),
            is_list_table(*table),
            all == text::views(wanted@),
            forall|k: int|
                0 <= k < row ==> !(columns::list_cell(*table, TAGS as int, k).valid && has_all(
                    columns::list_texts(#[trigger] columns::list_cell(*table, TAGS as int, k)),
                    all,
                )),
        decreases n - row,
    {
        assert(columns::readable_list(columns::list_cell(*table, TAGS as int, row as int)));
        if !columns::list_is_null(table, TAGS, row) {
            let tags: Vec<String> = columns::extract_list_values(table, TAGS, row);
            if contains_all(&tags, wanted) {
                return true;
            }
        }
        row = row + 1;
    }
    false
}

fn check_ready(table: &Table, ready: &Option<Vec<String>>) -> (r: bool)
    requires
        is_list_table(*table),
    ensures
        r == is_ready(*table, *ready),
{
    let ids: &Vec<String> = match ready {
        Some(ids) => ids,
        None => return true,
    };
    let n: usize = columns::num_rows(table);
    let mut row: usize = 0;
    while row < n
        invariant
            row <= n,
            n == columns::table_rows(*table),
            is_list_table(*table),
            *ready == Some(*ids),
            forall|k: int|
                0 <= k < row ==> !text::views(ids@).contains(
                    (#[trigger] columns::text_cell(*table, ID as int, k)).value,
                ),
        decreases n - row,
    {
        let id: String = columns::text_value(table, ID, row);
        if text::contains_string(ids, id.as_str()) {
            return true;
        }
        row = row + 1;
    }
    false
}

/// The positions among the first `n` tables of those that are shown.
pub open spec fn listed_positions(tables: Seq<Table>, filters: ListFilters, n: nat) -> Seq<int>
    decreases n,
{
    if n == 0 {
        Seq::empty()
    } else {
        let before = listed_positions(tables, filters, (n - 1) as nat);
        if is_listed(tables[n - 1], filters) {
            before.push(n - 1)
        } else {
            before
        }
    }
}

/// Which tables a listing shows.
pub fn filter_list(tables: &[Table], filters: &ListFilters) -> (r: Vec<usize>)
    requires
        forall|t: int| 0 <= t < tables@.len() ==> is_list_table(#[trigger] tables@[t]),
    ensures
        blocked::position_views(r@) == listed_positions(tables@, *filters, tables@.len()),
        forall|i: int| 0 <= i < r@.len() ==> (#[trigger] r@[i]) < tables@.len(),
{
    let mut r: Vec<usize> = Vec::new();
    let mut t: usize = 0;
    assert(blocked::position_views(r@) =~= listed_positions(tables@, *filters, 0));
    while t < tables.len()
        invariant
            t <= tables@.len(),
            forall|t: int| 0 <= t < tables@.len() ==> is_list_table(#[trigger] tables@[t]),
            blocked::position_views(r@) == listed_positions(tables@, *filters, t as nat),
            forall|i: int| 0 <= i < r@.len() ==> (#[trigger] r@[i]) < tables@.len(),
        decreases tables@.len() - t,
    {
        let table: &Table = &tables[t];
        assert(is_list_table(tables@[t as int]));
        if check_first(table, RESOLUTION, &filters.resolution) && check_first(
            table,
            PRIORITY,
            &filters.priority,
        ) && check_tags(table, &filters.tags) && check_ready(table, &filters.ready) {
            let ghost before = blocked::position_views(r@);
            r.push(t);
            assert(blocked::position_views(r@) =~= before.push(t as int));
        }
        t = t + 1;
    }
    r
}

// ---- ids in a range ------------------------------------------------------------------------------------

/// The value of the first `n` characters as digits, if they are all digits.
pub open spec fn digits_value(s: Seq<char>, n: nat) -> Option<nat>
    decreases n,
{
    if n == 0 {
        Some(0)
    } else {
        match digits_value(s, (n - 1) as nat) {
            Some(before) => if '0' <= s[n - 1] <= '9' {
                Some((before * 10 + (s[n - 1] as int - '0' as int)) as nat)
            } else {
                None
            },
            None => None,
        }
    }
}

/// The number that a text is, where it is one that fits 32 bits. A plus sign may stand
/// before it.
pub open spec fn number_spec(s: Seq<char>) -> Option<u32> {
    let digits = if s.len() > 1 && s[0] == '+' {
        s.skip(1)
    } else {
        s
    };
    match digits_value(digits, digits.len()) {
        Some(n) => if digits.len() > 0 && n <= u32::MAX {
            Some(n as u32)
        } else {
            None
        },
        None => None,
    }
}

/// The part of an id behind its last hyphen.
pub open spec fn suffix_spec(id: Seq<char>) -> Seq<char> {
    match text::rfind_spec(id, '-') {
        Some(i) => id.skip(i + 1),
        None => id,
    }
}

proof fn lemma_digits_grow(s: Seq<char>, m: nat, n: nat)
    requires
        m <= n,
        digits_value(s, n) is Some,
    ensures
        digits_value(s, m) is Some,
        digits_value(s, m)->0 <= digits_value(s, n)->0,
    decreases n - m,
{
    if m < n {
        lemma_digits_grow(s, m, (n - 1) as nat);
        let before = digits_value(s, (n - 1) as nat)->0;
        assert(before <= before * 10 + (s[n - 1] as int - '0' as int));
    }
}

proof fn lemma_digits_stay_wrong(s: Seq<char>, m: nat, n: nat)
    requires
        m <= n,
        digits_value(s, m) is None,
    ensures
        digits_value(s, n) is None,
    decreases n - m,
{
    if m < n {
        lemma_digits_stay_wrong(s, m, (n - 1) as nat);
    }
}

fn read_digits(chars: &Vec<char>, from: usize) -> (r: Option<u32>)
    requires
        from <= chars.len(),
    ensures
        ({
            let digits = chars@.skip(from as int);
            r == (match digits_value(digits, digits.len()) {
                Some(n) => if n <= u32::MAX {
                    Some(n as u32)
                } else {
                    None
                },
                None => None,
            })
        }),
{
    let ghost digits = chars@.skip(from as int);
    let mut value: u64 = 0;
    let mut i: usize = from;
    while i < chars.len()
        invariant
            from <= i <= chars.len(),
            digits == chars@.skip(from as int),
            digits_value(digits, (i - from) as nat) == Some(value as nat),
            value <= u32::MAX,
        decreases chars@.len() - i,
    {
        let c: char = chars[i];
        assert(digits[i - from] == c);
        if c < '0' || '9' < c {
            proof {
                lemma_digits_stay_wrong(digits, (i - from + 1) as nat, digits.len());
            }
            return None;
        }
        let digit: u64 = (c as u32 - '0' as u32) as u64;
        value = value * 10 + digit;
        if value > u32::MAX as u64 {
            proof {
                if digits_value(digits, digits.len()) is Some {
                    lemma_digits_grow(digits, (i - from + 1) as nat, digits.len());
                }
            }
            return None;
        }
        i = i + 1;
    }
    Some(value as u32)
}

/// The number that a text is, where it is one that fits 32 bits.
pub fn parse_number(s: &str) -> (r: Option<u32>)
    ensures
        r == number_spec(s@),
{
    let chars: Vec<char> = text::to_chars(s);
    if chars.len() == 0 {
        return None;
    }
    if chars.len() > 1 && chars[0] == '+' {
        return read_digits(&chars, 1);
    }
    assert(chars@.skip(0) =~= chars@);
    read_digits(&chars, 0)
}

/// Whether the number of an id is in a range.
pub open spec fn id_in_range(id: Seq<char>, above: u32, below: Option<u32>) -> bool {
    match number_spec(suffix_spec(id)) {
        Some(n) => n >= above && (below is Some ==> n <= below->0),
        None => false,
    }
}

/// Whether the number of an id is in a range.
pub fn check_id_range(id: &str, above: u32, below: Option<u32>) -> (r: bool)
    ensures
        r == id_in_range(id@, above, below),
{
    let chars: Vec<char> = text::to_chars(id);
    let suffix: String = match text::rfind(&chars, '-') {
        Some(i) => {
            let tail: String = text::from_chars(&chars, i + 1, chars.len());
            assert(tail@ =~= id@.skip(i + 1));
            tail
        },
        None => text::owned(id),
    };
    match parse_number(suffix.as_str()) {
        Some(n) => n >= above && match below {
            Some(b) => n <= b,
            None => true,
        },
        None => false,
    }
}

/// Whether some row of a table has an id with its number in a range.
pub open spec fn has_id_in_range(table: Table, above: u32, below: Option<u32>) -> bool {
    columns::has_text(table, ID as int) && exists|row: int|
        0 <= row < columns::table_rows(table) && id_in_range(
            (#[trigger] columns::text_cell(table, ID as int, row)).value,
            above,
            below,
        )
}

fn table_in_range(table: &Table, above: u32, below: Option<u32>) -> (r: bool)
    ensures
        r == has_id_in_range(*table, above, below),
{
    if !items::has_text_at(table, ID) {
        return false;
    }
    let n: usize = columns::num_rows(table);
    let mut row: usize = 0;
    while row < n
        invariant
            row <= n,
            n == columns::table_rows(*table),
            columns::has_text(*table, ID as int),
            forall|k: int|
                0 <= k < row ==> !id_in_range(
                    (#[trigger] columns::text_cell(*table, ID as int, k)).value,
                    above,
                    below,
                ),
        decreases n - row,
    {
        let id: String = columns::text_value(table, ID, row);
        if check_id_range(id.as_str(), above, below) {
            return true;
        }
        row = row + 1;
    }
    false
}

/// The positions among the first `n` tables of those with an id in a range.
pub open spec fn range_positions(
    tables: Seq<Table>,
    above: u32,
    below: Option<u32>,
    n: nat,
) -> Seq<int>
    decreases n,
{
    if n == 0 {
        Seq::empty()
    } else {
        let before = range_positions(tables, above, below, (n - 1) as nat);
        if has_id_in_range(tables[n - 1], above, below) {
            before.push(n - 1)
        } else {
            before
        }
    }
}

/// Which tables have an id with its number in a range.
pub fn filter_by_range(tables: &[Table], above: u32, below: Option<u32>) -> (r: Vec<usize>)
    ensures
        blocked::position_views(r@) == range_positions(tables@, above, below, tables@.len()),
        forall|i: int| 0 <= i < r@.len() ==> (#[trigger] r@[i]) < tables@.len(),
{
    let mut r: Vec<usize> = Vec::new();
    let mut t: usize = 0;
    assert(blocked::position_views(r@) =~= range_positions(tables@, above, below, 0));
    while t < tables.len()
        invariant
            t <= tables@.len(),
            blocked::position_views(r@) == range_positions(tables@, above, below, t as nat),
            forall|i: int| 0 <= i < r@.len() ==> (#[trigger] r@[i]) < tables@.len(),
        decreases tables@.len() - t,
    {
        if table_in_range(&tables[t], above, below) {
            let ghost before = blocked::position_views(r@);
            r.push(t);
            assert(blocked::position_views(r@) =~= before.push(t as int));
        }
        t = t + 1;
    }
    r
}

// ---- new ids -----------------------------------------------------------------------------------------

/// The number of an id under a prefix: what stands behind it, read as a number.
pub open spec fn number_under(id: Seq<char>, prefix: Seq<char>) -> Option<u32> {
    if prefix.is_prefix_of(id) {
        number_spec(id.skip(prefix.len() as int))
    } else {
        None
    }
}

/// The highest number of the first `n` ids under a prefix, or 0.
pub open spec fn highest(ids: Seq<Seq<char>>, prefix: Seq<char>, n: nat) -> u32
    decreases n,
{
    if n == 0 {
        0
    } else {
        let before = highest(ids, prefix, (n - 1) as nat);
        match number_under(ids[n - 1], prefix) {
            Some(number) => if number > before {
                number
            } else {
                before
            },
            None => before,
        }
    }
}

/// The next id under a prefix: one more than the highest that is used.
pub fn next_id(ids: &Vec<String>, prefix: &str) -> (r: String)
    ensures
        r@ == prefix@ + text::decimal_spec(
            (highest(text::views(ids@), prefix@, ids@.len()) + 1) as nat,
        ),
{
    let ghost all = text::views(ids@);
    let mut last: u32 = 0;
    let mut i: usize = 0;
    while i < ids.len()
        invariant
            i <= ids@.len(),
            all == text::views(ids@),
            last == highest(all, prefix@, i as nat),
        decreases ids@.len() - i,
    {
        assert(all[i as int] == ids@[i as int]@);
        match text::strip_prefix(ids[i].as_str(), prefix) {
            Some(rest) => match parse_number(rest.as_str()) {
                Some(number) => if number > last {
                    last = number;
                },
                None => {},
            },
            None => {},
        }
        i = i + 1;
    }
    let mut r: String = text::owned(prefix);
    let number: String = text::decimal_u64(last as u64 + 1);
    r.append(number.as_str());
    r
}

proof fn lemma_highest(ids: Seq<Seq<char>>, prefix: Seq<char>, n: nat, i: int)
    requires
        0 <= i < n <= ids.len(),
    ensures
        number_under(ids[i], prefix) matches Some(number) ==> number <= highest(ids, prefix, n),
    decreases n,
{
    if i < n - 1 {
        lemma_highest(ids, prefix, (n - 1) as nat, i);
    }
}

/// No id that is used has a number as high as that of the next id.
pub proof fn law_next_number_is_new(ids: Seq<Seq<char>>, prefix: Seq<char>, i: int)
    requires
        0 <= i < ids.len(),
    ensures
        number_under(ids[i], prefix) matches Some(number) ==> number < highest(
            ids,
            prefix,
            ids.len(),
        ) + 1,
{
    lemma_highest(ids, prefix, ids.len(), i);
}

// ---- titles ----------------------------------------------------------------------------------------------

/// Whether a title has what is searched for in it, in whatever case.
pub open spec fn title_matches(title: Seq<char>, wanted: Seq<char>) -> bool {
    text::contains_spec(embedding::unicode_lower(title), embedding::unicode_lower(wanted))
}

/// Whether a title has what is searched for in it, in whatever case.
pub fn check_title(title: &str, wanted: &str) -> (r: bool)
    ensures
        r == title_matches(title@, wanted@),
{
    let low: String = embedding::lowercase(title);
    let low_wanted: String = embedding::lowercase(wanted);
    text::contains(low.as_str(), low_wanted.as_str())
}

/// Whether some row of a table has a title with what is searched for in it.
pub open spec fn has_title(table: Table, wanted: Seq<char>) -> bool {
    exists|row: int|
        0 <= row < columns::table_rows(table) && title_matches(
            (#[trigger] columns::text_cell(table, TITLE as int, row)).value,
            wanted,
        )
}

fn table_has_title(table: &Table, wanted: &str) -> (r: bool)
    requires
        columns::has_text(*table, TITLE as int),
    ensures
        r == has_title(*table, wanted@),
{
    let n: usize = columns::num_rows(table);
    let mut row: usize = 0;
    while row < n
        invariant
            row <= n,
            n == columns::table_rows(*table),
            columns::has_text(*table, TITLE as int),
            forall|k: int|
                0 <= k < row ==> !title_matches(
                    (#[trigger] columns::text_cell(*table, TITLE as int, k)).value,
                    wanted@,
                ),
        decreases n - row,
    {
        let title: String = columns::text_value(table, TITLE, row);
        if check_title(title.as_str(), wanted) {
            return true;
        }
        row = row + 1;
    }
    false
}

/// The positions among the first `n` tables of those with a title that is searched for.
pub open spec fn title_positions(tables: Seq<Table>, wanted: Seq<char>, n: nat) -> Seq<int>
    decreases n,
{
    if n == 0 {
        Seq::empty()
    } else {
        let before = title_positions(tables, wanted, (n - 1) as nat);
        if has_title(tables[n - 1], wanted) {
            before.push(n - 1)
        } else {
            before
        }
    }
}

/// Which tables have a title with what is searched for in it.
pub fn filter_by_title(tables: &[Table], wanted: &str) -> (r: Vec<usize>)
    requires
        forall|t: int|
            0 <= t < tables@.len() ==> columns::has_text(#[trigger] tables@[t], TITLE as int),
    ensures
        blocked::position_views(r@) == title_positions(tables@, wanted@, tables@.len()),
        forall|i: int| 0 <= i < r@.len() ==> (#[trigger] r@[i]) < tables@.len(),
{
    let mut r: Vec<usize> = Vec::new();
    let mut t: usize = 0;
    assert(blocked::position_views(r@) =~= title_positions(tables@, wanted@, 0));
    while t < tables.len()
        invariant
            t <= tables@.len(),
            forall|t: int|
                0 <= t < tables@.len() ==> columns::has_text(#[trigger] tables@[t], TITLE as int),
            blocked::position_views(r@) == title_positions(tables@, wanted@, t as nat),
            forall|i: int| 0 <= i < r@.len() ==> (#[trigger] r@[i]) < tables@.len(),
        decreases tables@.len() - t,
    {
        assert(columns::has_text(tables@[t as int], TITLE as int));
        if table_has_title(&tables[t], wanted) {
            let ghost before = blocked::position_views(r@);
            r.push(t);
            assert(blocked::position_views(r@) =~= before.push(t as int));
        }
        t = t + 1;
    }
    r
}

// ---- the flat roadmap ----------------------------------------------------------------------------------------

/// Whether a table has the columns that the flat roadmap sorts by.
pub open spec fn is_rank_table(table: Table) -> bool {
    &&& columns::has_text(table, PRIORITY as int)
    &&& columns::has_ints(table, PRIORITY_RANK as int)
    &&& columns::table_rows(table) > 0
}

/// Whether a table has the columns that the flat roadmap sorts by.
pub fn has_rank_columns(table: &Table) -> (r: bool)
    ensures
        r == is_rank_table(*table),
{
    items::has_text_at(table, PRIORITY) && PRIORITY_RANK < columns::num_columns(table)
        && columns::is_ints(table, PRIORITY_RANK) && columns::num_rows(table) > 0
}

/// The place of a priority; one that is not known comes last.
pub open spec fn priority_place(table: Table) -> i32 {
    let cell = columns::text_cell(table, PRIORITY as int, 0);
    if !cell.valid {
        99
    } else if cell.value == "critical"@ {
        0
    } else if cell.value == "high"@ {
        1
    } else if cell.value == "medium"@ {
        2
    } else if cell.value == "low"@ {
        3
    } else {
        99
    }
}

/// What the flat roadmap sorts by: items with a rank first, by rank, then by priority.
pub open spec fn flat_key(table: Table) -> (u8, i32, i32) {
    let rank = columns::int_cell(table, PRIORITY_RANK as int, 0);
    if rank.valid {
        (0, rank.value, priority_place(table))
    } else {
        (1, 0, priority_place(table))
    }
}

fn read_flat_key(table: &Table) -> (r: (u8, i32, i32))
    requires
        is_rank_table(*table),
    ensures
        r == flat_key(*table),
{
    let place: i32 = if columns::text_is_null(table, PRIORITY, 0) {
        99
    } else {
        let priority: String = columns::text_value(table, PRIORITY, 0);
        if text::same(priority.as_str(), "critical") {
            0
        } else if text::same(priority.as_str(), "high") {
            1
        } else if text::same(priority.as_str(), "medium") {
            2
        } else if text::same(priority.as_str(), "low") {
            3
        } else {
            99
        }
    };
    if columns::int_is_null(table, PRIORITY_RANK, 0) {
        (1, 0, place)
    } else {
        (0, columns::int_value(table, PRIORITY_RANK, 0), place)
    }
}

pub open spec fn flat_keys(tables: Seq<Table>) -> Seq<(u8, i32, i32)> {
    Seq::new(tables.len(), |i: int| flat_key(tables[i]))
}

/// The order in which the flat roadmap shows tables.
pub fn flat_order(tables: &[Table]) -> (r: Vec<usize>)
    requires
        forall|t: int| 0 <= t < tables@.len() ==> is_rank_table(#[trigger] tables@[t]),
    ensures
        r@ == sorting::stable_order::<(u8, i32, i32)>(flat_keys(tables@)),
        sorting::is_stable_order::<(u8, i32, i32)>(flat_keys(tables@), r@),
{
    let mut keys: Vec<(u8, i32, i32)> = Vec::new();
    let mut t: usize = 0;
    while t < tables.len()
        invariant
            t <= tables@.len(),
            forall|t: int| 0 <= t < tables@.len() ==> is_rank_table(#[trigger] tables@[t]),
            keys@.len() == t,
            forall|k: int| 0 <= k < t ==> #[trigger] keys@[k] == flat_key(tables@[k]),
        decreases tables@.len() - t,
    {
        assert(is_rank_table(tables@[t as int]));
        keys.push(read_flat_key(&tables[t]));
        t = t + 1;
    }
    assert(sorting::models(keys@) =~= flat_keys(tables@));
    sorting::sort_positions(&keys)
}

/// Items with a rank come before all items without one.
pub proof fn law_ranked_items_come_first(tables: Seq<Table>, order: Seq<usize>, i: int, j: int)
    requires
        sorting::is_stable_order::<(u8, i32, i32)>(flat_keys(tables), order),
        0 <= i < order.len(),
        0 <= j < order.len(),
        columns::int_cell(tables[order[i] as int], PRIORITY_RANK as int, 0).valid,
        !columns::int_cell(tables[order[j] as int], PRIORITY_RANK as int, 0).valid,
    ensures
        i < j,
{
    let keys = flat_keys(tables);
    assert(order[i] < keys.len() && order[j] < keys.len());
    if j < i {
        assert(<(u8, i32, i32)>::precedes(keys[order[j] as int], keys[order[i] as int]));
    }
}

// ---- lists, by the cells of the items ---------------------------------------------------------------------

/// Whether an item has what is asked for: the resolution, the priority, all tags, and an
/// id among those that are ready, as far as each is asked for.
pub open spec fn has_what_is_asked(table: Table, filters: ListFilters) -> bool {
    &&& filters.resolution matches Some(s) ==> columns::text_cell(table, RESOLUTION as int, 0).valid
        && columns::text_cell(table, RESOLUTION as int, 0).value == s@
    &&& filters.priority matches Some(s) ==> columns::text_cell(table, PRIORITY as int, 0).valid
        && columns::text_cell(table, PRIORITY as int, 0).value == s@
    &&& filters.tags@.len() > 0 ==> exists|row: int|
        0 <= row < columns::table_rows(table) && (#[trigger] columns::list_cell(
            table,
            TAGS as int,
            row,
        )).valid && forall|k: int|
            0 <= k < filters.tags@.len() ==> columns::list_texts(
                columns::list_cell(table, TAGS as int, row),
            ).contains((#[trigger] filters.tags@[k])@)
    &&& filters.ready matches Some(ids) ==> exists|row: int, k: int|
        0 <= row < columns::table_rows(table) && 0 <= k < ids@.len() && (
        #[trigger] columns::text_cell(table, ID as int, row)).value == (#[trigger] ids@[k])@
}

proof fn lemma_asked(table: Table, filters: ListFilters)
    ensures
        is_listed(table, filters) == has_what_is_asked(table, filters),
{
    let wanted = text::views(filters.tags@);
    if filters.tags@.len() > 0 {
        if tags_match(table, wanted) {
            let row = choose|row: int|
                0 <= row < columns::table_rows(table) && columns::list_cell(
                    table,
                    TAGS as int,
                    row,
                ).valid && has_all(
                    columns::list_texts(#[trigger] columns::list_cell(table, TAGS as int, row)),
                    wanted,
                );
            let texts = columns::list_texts(columns::list_cell(table, TAGS as int, row));
            assert forall|k: int| 0 <= k < filters.tags@.len() implies texts.contains(
                (#[trigger] filters.tags@[k])@,
            ) by {
                assert(texts.contains(wanted[k]));
            }
        }
        if exists|row: int|
            0 <= row < columns::table_rows(table) && (#[trigger] columns::list_cell(
                table,
                TAGS as int,
                row,
            )).valid && forall|k: int|
                0 <= k < filters.tags@.len() ==> columns::list_texts(
                    columns::list_cell(table, TAGS as int, row),
                ).contains((#[trigger] filters.tags@[k])@) {
            let row = choose|row: int|
                0 <= row < columns::table_rows(table) && (#[trigger] columns::list_cell(
                    table,
                    TAGS as int,
                    row,
                )).valid && forall|k: int|
                    0 <= k < filters.tags@.len() ==> columns::list_texts(
                        columns::list_cell(table, TAGS as int, row),
                    ).contains((#[trigger] filters.tags@[k])@);
            let texts = columns::list_texts(columns::list_cell(table, TAGS as int, row));
            assert forall|k: int| 0 <= k < wanted.len() implies texts.contains(
                #[trigger] wanted[k],
            ) by {
                assert(texts.contains(filters.tags@[k]@));
            }
            assert(has_all(texts, wanted));
        }
    }
    if filters.ready is Some {
        let ids = filters.ready->0;
        if is_ready(table, filters.ready) {
            let row = choose|row: int|
                0 <= row < columns::table_rows(table) && text::views(ids@).contains(
                    (#[trigger] columns::text_cell(table, ID as int, row)).value,
                );
            let value = columns::text_cell(table, ID as int, row).value;
            let k = choose|k: int|
                0 <= k < text::views(ids@).len() && text::views(ids@)[k] == value;
            assert(ids@[k]@ == value);
        }
        if exists|row: int, k: int|
            0 <= row < columns::table_rows(table) && 0 <= k < ids@.len() && (
            #[trigger] columns::text_cell(table, ID as int, row)).value == (#[trigger] ids@[k])@ {
            let (row, k) = choose|row: int, k: int|
                0 <= row < columns::table_rows(table) && 0 <= k < ids@.len() && (
                #[trigger] columns::text_cell(table, ID as int, row)).value == (
                #[trigger] ids@[k])@;
            assert(text::views(ids@)[k] == columns::text_cell(table, ID as int, row).value);
        }
    }
}

proof fn lemma_listed(tables: Seq<Table>, filters: ListFilters, n: nat)
    requires
        n <= tables.len(),
    ensures
        is_part(listed_positions(tables, filters, n), n, |t: int| has_what_is_asked(tables[t], filters)),
    decreases n,
{
    if n > 0 {
        let m = (n - 1) as nat;
        let p = |t: int| has_what_is_asked(tables[t], filters);
        lemma_listed(tables, filters, m);
        lemma_asked(tables[n - 1], filters);
        lemma_part_grows(listed_positions(tables, filters, m), m, p);
    }
}

/// Whether positions are those, of the first `n`, of which something holds, in order.
pub open spec fn is_part(positions: Seq<int>, n: nat, p: spec_fn(int) -> bool) -> bool {
    &&& forall|i: int, j: int| 0 <= i < j < positions.len() ==> positions[i] < positions[j]
    &&& forall|t: int| #[trigger] positions.contains(t) <==> 0 <= t < n && p(t)
}

proof fn lemma_part_grows(positions: Seq<int>, m: nat, p: spec_fn(int) -> bool)
    requires
        is_part(positions, m, p),
    ensures
        p(m as int) ==> is_part(positions.push(m as int), m + 1, p),
        !p(m as int) ==> is_part(positions, m + 1, p),
{
    let more = positions.push(m as int);
    assert forall|t: int| #[trigger] more.contains(t) <==> positions.contains(t) || t == m by {
        vstd::seq_lib::lemma_seq_contains_after_push(positions, m as int, t);
    }
    assert forall|i: int| 0 <= i < positions.len() implies (#[trigger] positions[i]) < m by {
        assert(positions.contains(positions[i]));
    }
}

/// A list holds, in their order, exactly the items that have what is asked for.
pub proof fn law_lists_hold_what_is_asked_for(
    tables: Seq<Table>,
    filters: ListFilters,
    positions: Seq<int>,
)
    requires
        positions == listed_positions(tables, filters, tables.len()),
    ensures
        is_part(positions, tables.len(), |t: int| has_what_is_asked(tables[t], filters)),
{
    lemma_listed(tables, filters, tables.len());
}

// ---- numbers of ids ---------------------------------------------------------------------------------------

proof fn lemma_digits_of_push(s: Seq<char>, c: char, n: nat)
    requires
        n <= s.len(),
    ensures
        digits_value(s.push(c), n) == digits_value(s, n),
    decreases n,
{
    if n > 0 {
        lemma_digits_of_push(s, c, (n - 1) as nat);
    }
}

proof fn lemma_decimal_value(n: nat)
    ensures
        text::decimal_spec(n).len() > 0,
        digits_value(text::decimal_spec(n), text::decimal_spec(n).len()) == Some(n),
        forall|i: int|
            0 <= i < text::decimal_spec(n).len() ==> '0' <= #[trigger] text::decimal_spec(n)[i]
                <= '9',
    decreases n,
{
    let s = text::decimal_spec(n);
    if n < 10 {
        assert(s.len() == 1);
        assert(digits_value(s, 0) == Some(0nat));
        assert(digits_value(s, 1) == Some(n));
    } else {
        lemma_decimal_value(n / 10);
        let before = text::decimal_spec(n / 10);
        lemma_digits_of_push(before, text::digit_spec(n % 10), before.len());
        assert(s == before.push(text::digit_spec(n % 10)));
        assert(digits_value(s, before.len()) == Some(n / 10));
    }
}

/// A number that is written in decimal is read again.
pub proof fn law_numbers_are_read_again(n: u32)
    ensures
        number_spec(text::decimal_spec(n as nat)) == Some(n),
{
    lemma_decimal_value(n as nat);
    assert('0' <= text::decimal_spec(n as nat)[0]);
}

proof fn lemma_suffix(head: Seq<char>, tail: Seq<char>)
    requires
        forall|i: int| 0 <= i < tail.len() ==> #[trigger] tail[i] != '-',
    ensures
        suffix_spec(head.push('-') + tail) == tail,
{
    let id = head.push('-') + tail;
    lemma_last_dash(head, tail);
    assert(id.skip(head.len() as int + 1) =~= tail);
}

proof fn lemma_last_dash(head: Seq<char>, tail: Seq<char>)
    requires
        forall|i: int| 0 <= i < tail.len() ==> #[trigger] tail[i] != '-',
    ensures
        text::rfind_spec(head.push('-') + tail, '-') == Some(head.len() as int),
    decreases tail.len(),
{
    let id = head.push('-') + tail;
    if tail.len() > 0 {
        lemma_last_dash(head, tail.drop_last());
        assert(id.drop_last() =~= head.push('-') + tail.drop_last());
        assert(id.last() == tail.last());
        assert(tail[tail.len() - 1] != '-');
    } else {
        assert(id =~= head.push('-'));
    }
}

/// An id that ends in a dash and a number is in a range if and only if its number is.
pub proof fn law_ranges_go_by_the_number(head: Seq<char>, n: u32, above: u32, below: Option<u32>)
    ensures
        id_in_range(head.push('-') + text::decimal_spec(n as nat), above, below) == (n >= above && (
        below matches Some(limit) ==> n <= limit)),
{
    lemma_decimal_value(n as nat);
    lemma_suffix(head, text::decimal_spec(n as nat));
    law_numbers_are_read_again(n);
}

proof fn lemma_ranged(tables: Seq<Table>, above: u32, below: Option<u32>, n: nat)
    requires
        n <= tables.len(),
    ensures
        is_part(
            range_positions(tables, above, below, n),
            n,
            |t: int|
                columns::has_text(tables[t], ID as int) && exists|row: int|
                    0 <= row < columns::table_rows(tables[t]) && id_in_range(
                        (#[trigger] columns::text_cell(tables[t], ID as int, row)).value,
                        above,
                        below,
                    ),
        ),
    decreases n,
{
    if n > 0 {
        let m = (n - 1) as nat;
        let p = |t: int|
            columns::has_text(tables[t], ID as int) && exists|row: int|
                0 <= row < columns::table_rows(tables[t]) && id_in_range(
                    (#[trigger] columns::text_cell(tables[t], ID as int, row)).value,
                    above,
                    below,
                );
        lemma_ranged(tables, above, below, m);
        lemma_part_grows(range_positions(tables, above, below, m), m, p);
    }
}

/// A range holds, in their order, exactly the items with an id in it.
pub proof fn law_ranges_hold_their_items(
    tables: Seq<Table>,
    above: u32,
    below: Option<u32>,
    positions: Seq<int>,
)
    requires
        positions == range_positions(tables, above, below, tables.len()),
    ensures
        is_part(
            positions,
            tables.len(),
            |t: int|
                columns::has_text(tables[t], ID as int) && exists|row: int|
                    0 <= row < columns::table_rows(tables[t]) && id_in_range(
                        (#[trigger] columns::text_cell(tables[t], ID as int, row)).value,
                        above,
                        below,
                    ),
        ),
{
    lemma_ranged(tables, above, below, tables.len());
}

proof fn lemma_number_of(prefix: Seq<char>, n: u32)
    ensures
        number_under(prefix + text::decimal_spec(n as nat), prefix) == Some(n),
{
    let id = prefix + text::decimal_spec(n as nat);
    law_numbers_are_read_again(n);
    assert(prefix.is_prefix_of(id));
    assert(id.skip(prefix.len() as int) =~= text::decimal_spec(n as nat));
}

proof fn lemma_highest_is_taken(ids: Seq<Seq<char>>, prefix: Seq<char>, n: nat)
    requires
        n <= ids.len(),
    ensures
        highest(ids, prefix, n) > 0 ==> exists|i: int|
            0 <= i < n && number_under(#[trigger] ids[i], prefix) == Some(highest(ids, prefix, n)),
    decreases n,
{
    if n > 0 {
        lemma_highest_is_taken(ids, prefix, (n - 1) as nat);
        assert(number_under(ids[n - 1], prefix) == Some(highest(ids, prefix, n)) || highest(
            ids,
            prefix,
            n,
        ) == highest(ids, prefix, (n - 1) as nat));
    }
}

/// The next id is the prefix and a number `n` above all that the ids have under the
/// prefix, and the lowest such: `n` is one, or some id has the number before it.
pub proof fn law_next_id_is_the_lowest_above_all(
    ids: Seq<Seq<char>>,
    prefix: Seq<char>,
    r: Seq<char>,
    k: u32,
)
    requires
        r == prefix + text::decimal_spec((highest(ids, prefix, ids.len()) + 1) as nat),
    ensures
        ids.contains(prefix + text::decimal_spec(k as nat)) ==> exists|n: nat|
            n > k && r == prefix + #[trigger] text::decimal_spec(n),
        (forall|i: int|
            0 <= i < ids.len() ==> number_under(#[trigger] ids[i], prefix) != Some(u32::MAX))
            ==> !ids.contains(r),
        r == prefix + "1"@ || exists|i: int, n: u32|
            0 <= i < ids.len() && #[trigger] number_under(ids[i], prefix) == Some(n) && r == prefix
                + #[trigger] text::decimal_spec((n + 1) as nat),
{
    let top = highest(ids, prefix, ids.len());
    let id = prefix + text::decimal_spec(k as nat);
    if ids.contains(id) {
        let i = choose|i: int| 0 <= i < ids.len() && ids[i] == id;
        lemma_number_of(prefix, k);
        lemma_highest(ids, prefix, ids.len(), i);
        assert(r == prefix + text::decimal_spec((top + 1) as nat));
    }
    lemma_highest_is_taken(ids, prefix, ids.len());
    if ids.contains(r) && top < u32::MAX {
        let i = choose|i: int| 0 <= i < ids.len() && ids[i] == r;
        lemma_highest(ids, prefix, ids.len(), i);
        lemma_number_of(prefix, (top + 1) as u32);
    }
    if top > 0 {
        let i = choose|i: int|
            0 <= i < ids.len() && number_under(#[trigger] ids[i], prefix) == Some(top);
        assert(number_under(ids[i], prefix) == Some(top) && r == prefix + text::decimal_spec(
            (top + 1) as nat,
        ));
    } else {
        reveal_strlit("1");
        assert(text::decimal_spec(1) =~= "1"@);
    }
}

// ---- titles and order of a list ---------------------------------------------------------------------------

proof fn lemma_titled(tables: Seq<Table>, wanted: Seq<char>, n: nat)
    requires
        n <= tables.len(),
    ensures
        is_part(
            title_positions(tables, wanted, n),
            n,
            |t: int|
                exists|row: int|
                    0 <= row < columns::table_rows(tables[t]) && text::contains_spec(
                        embedding::unicode_lower(
                            (#[trigger] columns::text_cell(tables[t], TITLE as int, row)).value,
                        ),
                        embedding::unicode_lower(wanted),
                    ),
        ),
    decreases n,
{
    if n > 0 {
        let m = (n - 1) as nat;
        let p = |t: int|
            exists|row: int|
                0 <= row < columns::table_rows(tables[t]) && text::contains_spec(
                    embedding::unicode_lower(
                        (#[trigger] columns::text_cell(tables[t], TITLE as int, row)).value,
                    ),
                    embedding::unicode_lower(wanted),
                );
        lemma_titled(tables, wanted, m);
        lemma_part_grows(title_positions(tables, wanted, m), m, p);
    }
}

/// A search by title finds, in their order, exactly the items with a title that has in it
/// what is searched for, both in lower case.
pub proof fn law_titles_are_found(tables: Seq<Table>, wanted: Seq<char>, positions: Seq<int>)
    requires
        positions == title_positions(tables, wanted, tables.len()),
    ensures
        is_part(
            positions,
            tables.len(),
            |t: int|
                exists|row: int|
                    0 <= row < columns::table_rows(tables[t]) && text::contains_spec(
                        embedding::unicode_lower(
                            (#[trigger] columns::text_cell(tables[t], TITLE as int, row)).value,
                        ),
                        embedding::unicode_lower(wanted),
                    ),
        ),
{
    lemma_titled(tables, wanted, tables.len());
}

/// Whether a priority goes before another: `critical`, `high`, `medium`, `low`, and then
/// whatever else there is.
pub open spec fn priority_goes_before(a: Seq<char>, b: Seq<char>) -> bool {
    ||| a == "critical"@ && b != "critical"@
    ||| a == "high"@ && b != "critical"@ && b != "high"@
    ||| a == "medium"@ && b != "critical"@ && b != "high"@ && b != "medium"@
    ||| a == "low"@ && b != "critical"@ && b != "high"@ && b != "medium"@ && b != "low"@
}

/// Whether one of two items goes before the other in a list: the one with a rank, then
/// the one with the lower rank, then the one with the higher priority.
pub open spec fn goes_before(a: Table, b: Table) -> bool {
    let rank = |t: Table| columns::int_cell(t, PRIORITY_RANK as int, 0);
    let priority = |t: Table| columns::text_cell(t, PRIORITY as int, 0);
    if rank(a).valid != rank(b).valid {
        rank(a).valid
    } else if rank(a).valid && rank(a).value != rank(b).value {
        rank(a).value < rank(b).value
    } else if priority(a).valid && priority(b).valid {
        priority_goes_before(priority(a).value, priority(b).value)
    } else {
        priority(a).valid && priority_goes_before(priority(a).value, Seq::empty())
    }
}

proof fn lemma_priority_words()
    ensures
        "critical"@ != "high"@,
        "critical"@ != "medium"@,
        "critical"@ != "low"@,
        "high"@ != "medium"@,
        "high"@ != "low"@,
        "medium"@ != "low"@,
        "critical"@.len() > 0,
        "high"@.len() > 0,
        "medium"@.len() > 0,
        "low"@.len() > 0,
{
    reveal_strlit("critical");
    reveal_strlit("high");
    reveal_strlit("medium");
    reveal_strlit("low");
    assert("critical"@[0] == 'c' && "high"@[0] == 'h');
    assert("medium"@[0] == 'm' && "low"@[0] == 'l');
}

/// A list holds every item once, ranked items by their ranks first, and otherwise by
/// priority; items between which neither decides keep their order.
pub proof fn law_lists_stand_in_order(tables: Seq<Table>, order: Seq<usize>, i: int, j: int)
    requires
        sorting::is_stable_order::<(u8, i32, i32)>(flat_keys(tables), order),
        0 <= i < order.len(),
        0 <= j < order.len(),
    ensures
        order.len() == tables.len(),
        order[i] < tables.len(),
        i != j ==> order[i] != order[j],
        goes_before(tables[order[i] as int], tables[order[j] as int]) ==> i < j,
        !goes_before(tables[order[i] as int], tables[order[j] as int]) && !goes_before(
            tables[order[j] as int],
            tables[order[i] as int],
        ) && order[i] < order[j] ==> i < j,
{
    lemma_priority_words();
    let keys = flat_keys(tables);
    let a = keys[order[i] as int];
    let b = keys[order[j] as int];
    if j < i {
        assert(<(u8, i32, i32) as SortKey>::precedes(b, a) || (order[j] < order[i]
            && !<(u8, i32, i32) as SortKey>::precedes(a, b)));
    }
}

} // verus!
