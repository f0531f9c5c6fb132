//! What items wait for: the graph of dependencies, the items that are blocked, and the
//! chains of what blocks them.
use vstd::prelude::*;
use vstd::string::StringExecFns;
use crate::columns;
use crate::columns::Table;
use crate::items::{DELETED, DEPENDS_ON, ID, RELATED, STATUS};
use crate::keyed;
use crate::relations;
use crate::relations::RelationsStore;
use crate::state_machine;
use crate::text;
use crate::traversal;
use crate::traversal::{Direction, TraversalNode};

verus! {

// ---- the graph ------------------------------------------------------------------------------

/// Adjacency lists with the first `n` of a list's edges added.
pub open spec fn with_edges(
    adj: Seq<(Seq<char>, Seq<Seq<char>>)>,
    from: Seq<char>,
    tos: Seq<Seq<char>>,
    n: nat,
) -> Seq<(Seq<char>, Seq<Seq<char>>)>
    decreases n,
{
    if n == 0 {
        adj
    } else {
        traversal::with_edge(with_edges(adj, from, tos, (n - 1) as nat), from, tos[n - 1])
    }
}

/// Adjacency lists with the first `n` of others added.
pub open spec fn merged(
    adj: Seq<(Seq<char>, Seq<Seq<char>>)>,
    more: Seq<(Seq<char>, Seq<Seq<char>>)>,
    n: nat,
) -> Seq<(Seq<char>, Seq<Seq<char>>)>
    decreases n,
{
    if n == 0 {
        adj
    } else {
        with_edges(
            merged(adj, more, (n - 1) as nat),
            more[n - 1].0,
            more[n - 1].1,
            more[n - 1].1.len(),
        )
    }
}

/// What the items of a table depend on.
pub open spec fn table_dependencies(table: Table) -> Seq<(Seq<char>, Seq<Seq<char>>)> {
    let edges = traversal::edges_of(table, ID as int, DEPENDS_ON as int, Direction::Forward);
    traversal::grouped(edges, edges.len())
}

/// What the items of the first `n` tables depend on.
pub open spec fn dependencies(tables: Seq<Table>, n: nat) -> Seq<(Seq<char>, Seq<Seq<char>>)>
    decreases n,
{
    if n == 0 {
        Seq::empty()
    } else {
        let more = table_dependencies(tables[n - 1]);
        merged(dependencies(tables, (n - 1) as nat), more, more.len())
    }
}

/// Whether a table has the columns that dependencies are read from.
pub open spec fn is_graph_table(table: Table) -> bool {
    columns::table_columns(table).len() > DELETED
}

/// Whether a table has the columns that dependencies are read from.
pub fn has_graph_columns(table: &Table) -> (r: bool)
    ensures
        r == is_graph_table(*table),
{
    columns::num_columns(table) > DELETED
}

fn merge(adj: &mut Vec<(String, Vec<String>)>, more: &Vec<(String, Vec<String>)>)
    ensures
        traversal::adjacency_views(final(adj)@) == merged(
            traversal::adjacency_views(old(adj)@),
            traversal::adjacency_views(more@),
            more@.len(),
        ),
{
    let ghost start = traversal::adjacency_views(adj@);
    let ghost lists = traversal::adjacency_views(more@);
    let mut i: usize = 0;
    while i < more.len()
        invariant
            i <= more@.len(),
            lists == traversal::adjacency_views(more@),
            traversal::adjacency_views(adj@) == merged(start, lists, i as nat),
        decreases more@.len() - i,
    {
        let entry: &(String, Vec<String>) = &more[i];
        let ghost before = traversal::adjacency_views(adj@);
        let ghost tos = text::views(entry.1@);
        assert(lists[i as int] == (entry.0@, tos));
        let mut j: usize = 0;
        while j < entry.1.len()
            invariant
                j <= entry.1@.len(),
                tos == text::views(entry.1@),
                traversal::adjacency_views(adj@) == with_edges(before, entry.0@, tos, j as nat),
            decreases entry.1@.len() - j,
        {
            assert(tos[j as int] == entry.1@[j as int]@);
            traversal::add_edge(adj, entry.0.clone(), entry.1[j].clone());
            j = j + 1;
        }
        i = i + 1;
    }
}

/// What the items of a board depend on.
pub fn build_dependency_adjacency(tables: &[Table]) -> (r: Vec<(String, Vec<String>)>)
    requires
        forall|t: int| 0 <= t < tables@.len() ==> is_graph_table(#[trigger] tables@[t]),
    ensures
        traversal::adjacency_views(r@) == dependencies(tables@, tables@.len()),
{
    let mut adj: Vec<(String, Vec<String>)> = Vec::new();
    let mut t: usize = 0;
    assert(traversal::adjacency_views(adj@) =~= dependencies(tables@, 0));
    while t < tables.len()
        invariant
            t <= tables@.len(),
            forall|t: int| 0 <= t < tables@.len() ==> is_graph_table(#[trigger] tables@[t]),
            traversal::adjacency_views(adj@) == dependencies(tables@, t as nat),
        decreases tables@.len() - t,
    {
        assert(is_graph_table(tables@[t as int]));
        let more: Vec<(String, Vec<String>)> = traversal::build_adjacency_from_list(
            &tables[t],
            ID,
            DEPENDS_ON,
            Direction::Forward,
        );
        assert(traversal::adjacency_views(more@).len() == more@.len());
        merge(&mut adj, &more);
        t = t + 1;
    }
    adj
}

// ---- statuses ------------------------------------------------------------------------------------

pub open spec fn string_pairs(list: Seq<(String, String)>) -> Seq<(Seq<char>, Seq<char>)> {
    Seq::new(list.len(), |i: int| (list[i].0@, list[i].1@))
}

/// Whether a table has ids and statuses to be read.
pub open spec fn has_statuses(table: Table) -> bool {
    columns::has_text(table, ID as int) && columns::has_text(table, STATUS as int)
}

/// The ids and statuses of the first `n` tables. Tables without them are passed over.
pub open spec fn statuses(tables: Seq<Table>, n: nat) -> Seq<(Seq<char>, Seq<char>)>
    decreases n,
{
    if n == 0 {
        Seq::empty()
    } else {
        let before = statuses(tables, (n - 1) as nat);
        let table = tables[n - 1];
        if has_statuses(table) {
            before + Seq::new(
                columns::table_rows(table),
                |row: int|
                    (
                        columns::text_cell(table, ID as int, row).value,
                        columns::text_cell(table, STATUS as int, row).value,
                    ),
            )
        } else {
            before
        }
    }
}

fn push_statuses(list: &mut Vec<(String, String)>, table: &Table)
    requires
        has_statuses(*table),
    ensures
        string_pairs(final(list)@) == string_pairs(old(list)@) + Seq::new(
            columns::table_rows(*table),
            |row: int|
                (
                    columns::text_cell(*table, ID as int, row).value,
                    columns::text_cell(*table, STATUS as int, row).value,
                ),
        ),
{
    let ghost before = string_pairs(list@);
    let ghost f = |row: int|
        (
            columns::text_cell(*table, ID as int, row).value,
            columns::text_cell(*table, STATUS as int, row).value,
        );
    let n: usize = columns::num_rows(table);
    let mut row: usize = 0;
    assert(string_pairs(list@) =~= before + Seq::new(0, f));
    while row < n
        invariant
            row <= n,
            n == columns::table_rows(*table),
            has_statuses(*table),
            f == (|row: int|
                (
                    columns::text_cell(*table, ID as int, row).value,
                    columns::text_cell(*table, STATUS as int, row).value,
                )),
            string_pairs(list@) == before + Seq::new(row as nat, f),
        decreases n - row,
    {
        let ghost so_far = string_pairs(list@);
        let id: String = columns::text_value(table, ID, row);
        let status: String = columns::text_value(table, STATUS, row);
        let ghost shown = (id@, status@);
        list.push((id, status));
        assert(string_pairs(list@) =~= so_far.push(shown));
        assert(string_pairs(list@) =~= before + Seq::new((row + 1) as nat, f));
        row = row + 1;
    }
}

/// The statuses of a board's items. Where an id comes more than once, the last counts.
pub fn build_status_map(tables: &[Table]) -> (r: Vec<(String, String)>)
    requires
        forall|t: int| 0 <= t < tables@.len() ==> is_graph_table(#[trigger] tables@[t]),
    ensures
        string_pairs(r@) == statuses(tables@, tables@.len()),
{
    let mut list: Vec<(String, String)> = Vec::new();
    let mut t: usize = 0;
    assert(string_pairs(list@) =~= statuses(tables@, 0));
    while t < tables.len()
        invariant
            t <= tables@.len(),
            forall|t: int| 0 <= t < tables@.len() ==> is_graph_table(#[trigger] tables@[t]),
            string_pairs(list@) == statuses(tables@, t as nat),
        decreases tables@.len() - t,
    {
        assert(is_graph_table(tables@[t as int]));
        if columns::is_text(&tables[t], ID) && columns::is_text(&tables[t], STATUS) {
            push_statuses(&mut list, &tables[t]);
        }
        t = t + 1;
    }
    list
}

/// Whether a table has ids, statuses and marks of deletion to be read.
pub open spec fn has_marks(table: Table) -> bool {
    has_statuses(table) && columns::has_flags(table, DELETED as int)
}

/// Whether the item in a row is closed, and not deleted.
pub open spec fn is_closed_at(table: Table, row: int) -> bool {
    !columns::flag_cell(table, DELETED as int, row).value && state_machine::is_terminal(
        columns::text_cell(table, STATUS as int, row).value,
    )
}

/// The ids in the first `n` rows of a table whose items are closed.
pub open spec fn closed_in(table: Table, n: nat) -> Seq<Seq<char>>
    decreases n,
{
    if n == 0 {
        Seq::empty()
    } else {
        let before = closed_in(table, (n - 1) as nat);
        if is_closed_at(table, n - 1) {
            before.push(columns::text_cell(table, ID as int, n - 1).value)
        } else {
            before
        }
    }
}

/// The ids of the items of the first `n` tables that are closed.
pub open spec fn closed_spec(tables: Seq<Table>, n: nat) -> Seq<Seq<char>>
    decreases n,
{
    if n == 0 {
        Seq::empty()
    } else {
        let before = closed_spec(tables, (n - 1) as nat);
        if has_marks(tables[n - 1]) {
            before + closed_in(tables[n - 1], columns::table_rows(tables[n - 1]))
        } else {
            before
        }
    }
}

fn push_closed(list: &mut Vec<String>, table: &Table)
    requires
        has_marks(*table),
    ensures
        text::views(final(list)@) == text::views(old(list)@) + closed_in(
            *table,
            columns::table_rows(*table),
        ),
{
    let ghost before = text::views(list@);
    let n: usize = columns::num_rows(table);
    let mut row: usize = 0;
    assert(text::views(list@) =~= before + closed_in(*table, 0));
    while row < n
        invariant
            row <= n,
            n == columns::table_rows(*table),
            has_marks(*table),
            text::views(list@) == before + closed_in(*table, row as nat),
        decreases n - row,
    {
        let status: String = columns::text_value(table, STATUS, row);
        if !columns::flag_value(table, DELETED, row) && state_machine::is_terminal_state(
            status.as_str(),
        ) {
            let ghost so_far = text::views(list@);
            let id: String = columns::text_value(table, ID, row);
            let ghost shown = id@;
            list.push(id);
            assert(text::views(list@) =~= so_far.push(shown));
            assert(text::views(list@) =~= before + closed_in(*table, (row + 1) as nat));
        }
        row = row + 1;
    }
}

/// The ids of a board's items that are in a terminal state and not deleted.
pub fn closed_ids_of(tables: &[Table]) -> (r: Vec<String>)
    requires
        forall|t: int| 0 <= t < tables@.len() ==> is_graph_table(#[trigger] tables@[t]),
    ensures
        text::views(r@) == closed_spec(tables@, tables@.len()),
{
    let mut list: Vec<String> = Vec::new();
    let mut t: usize = 0;
    assert(text::views(list@) =~= closed_spec(tables@, 0));
    while t < tables.len()
        invariant
            t <= tables@.len(),
            forall|t: int| 0 <= t < tables@.len() ==> is_graph_table(#[trigger] tables@[t]),
            text::views(list@) == closed_spec(tables@, t as nat),
        decreases tables@.len() - t,
    {
        assert(is_graph_table(tables@[t as int]));
        if columns::is_text(&tables[t], ID) && columns::is_text(&tables[t], STATUS)
            && columns::is_flags(&tables[t], DELETED) {
            push_closed(&mut list, &tables[t]);
        }
        t = t + 1;
    }
    list
}

// ---- blocked items ----------------------------------------------------------------------------------

/// What is found from an item, up to a number of steps.
pub open spec fn chain_of(adj: Seq<(Seq<char>, Seq<Seq<char>>)>, id: Seq<char>, limit: nat) -> Seq<
    (Seq<char>, nat),
> {
    traversal::search(adj, seq![id], seq![id], 0, limit)
}

/// Whether a dependency holds an item up: it is not blank and not closed.
pub open spec fn holds_up(closed: Seq<Seq<char>>, id: Seq<char>) -> bool {
    text::trim_spec(id).len() > 0 && !closed.contains(id)
}

/// Whether an item is blocked: it is in no terminal state, and something else that it
/// depends on, however indirectly, holds it up.
pub open spec fn is_blocked(
    adj: Seq<(Seq<char>, Seq<Seq<char>>)>,
    closed: Seq<Seq<char>>,
    id: Seq<char>,
    status: Seq<char>,
) -> bool {
    !state_machine::is_terminal(status) && exists|x: Seq<char>|
        x != id && #[trigger] traversal::reaches(adj, id, x) && holds_up(closed, x)
}

fn item_is_blocked(
    adj: &Vec<(String, Vec<String>)>,
    closed: &Vec<String>,
    id: &str,
    status: &str,
) -> (r: bool)
    ensures
        r == is_blocked(
            traversal::adjacency_views(adj@),
            text::views(closed@),
            id@,
            status@,
        ),
{
    if state_machine::is_terminal_state(status) {
        return false;
    }
    let ghost closed_ids = text::views(closed@);
    let ghost lists = traversal::adjacency_views(adj@);
    let chain: Vec<TraversalNode> = traversal::bfs_with_adjacency(id, adj, adj.len());
    let ghost nodes = traversal::node_views(chain@);
    proof {
        traversal::law_search_finds_what_is_near(lists, id@, lists.len());
    }
    let mut i: usize = 0;
    while i < chain.len()
        invariant
            i <= chain@.len(),
            closed_ids == text::views(closed@),
            lists == traversal::adjacency_views(adj@),
            nodes == traversal::node_views(chain@),
            forall|k: int|
                0 <= k < nodes.len() ==> (#[trigger] nodes[k]).0 != id@ && traversal::within(
                    lists,
                    id@,
                    nodes[k].0,
                    nodes[k].1,
                ),
            !state_machine::is_terminal(status@),
            forall|k: int| 0 <= k < i ==> !holds_up(closed_ids, (#[trigger] nodes[k]).0),
        decreases chain@.len() - i,
    {
        assert(nodes[i as int].0 == chain@[i as int].id@);
        let trimmed: String = text::trim(chain[i].id.as_str());
        if !trimmed.as_str().is_empty() && !text::contains_string(closed, chain[i].id.as_str()) {
            assert(traversal::reaches(lists, id@, nodes[i as int].0));
            return true;
        }
        i = i + 1;
    }
    assert forall|x: Seq<char>|
        x != id@ && #[trigger] traversal::reaches(lists, id@, x) implies !holds_up(closed_ids, x) by {
        traversal::law_reach_is_bounded(lists, id@, x);
        assert(traversal::finds(nodes, x));
    }
    false
}

/// Whether a table has a row with a blocked item.
pub open spec fn has_blocked(
    table: Table,
    adj: Seq<(Seq<char>, Seq<Seq<char>>)>,
    closed: Seq<Seq<char>>,
) -> bool {
    has_statuses(table) && exists|row: int|
        0 <= row < columns::table_rows(table) && is_blocked(
            adj,
            closed,
            (#[trigger] columns::text_cell(table, ID as int, row)).value,
            columns::text_cell(table, STATUS as int, row).value,
        )
}

fn table_has_blocked(table: &Table, adj: &Vec<(String, Vec<String>)>, closed: &Vec<String>) -> (r: bool)
    requires
        is_graph_table(*table),
    ensures
        r == has_blocked(*table, traversal::adjacency_views(adj@), text::views(closed@)),
{
    if !columns::is_text(table, ID) || !columns::is_text(table, STATUS) {
        return false;
    }
    let ghost lists = traversal::adjacency_views(adj@);
    let ghost closed_ids = text::views(closed@);
    let n: usize = columns::num_rows(table);
    let mut row: usize = 0;
    while row < n
        invariant
            row <= n,
            n == columns::table_rows(*table),
            has_statuses(*table),
            lists == traversal::adjacency_views(adj@),
            closed_ids == text::views(closed@),
            forall|k: int|
                0 <= k < row ==> !is_blocked(
                    lists,
                    closed_ids,
                    (#[trigger] columns::text_cell(*table, ID as int, k)).value,
                    columns::text_cell(*table, STATUS as int, k).value,
                ),
        decreases n - row,
    {
        let id: String = columns::text_value(table, ID, row);
        let status: String = columns::text_value(table, STATUS, row);
        if item_is_blocked(adj, closed, id.as_str(), status.as_str()) {
            return true;
        }
        row = row + 1;
    }
    false
}

/// The positions among the first `n` tables of those with a blocked item.
pub open spec fn blocked_positions(
    tables: Seq<Table>,
    adj: Seq<(Seq<char>, Seq<Seq<char>>)>,
    closed: Seq<Seq<char>>,
    n: nat,
) -> Seq<int>
    decreases n,
{
    if n == 0 {
        Seq::empty()
    } else {
        let before = blocked_positions(tables, adj, closed, (n - 1) as nat);
        if has_blocked(tables[n - 1], adj, closed) {
            before.push(n - 1)
        } else {
            before
        }
    }
}

/// Positions in a list.
pub open spec fn position_views(list: Seq<usize>) -> Seq<int> {
    Seq::new(list.len(), |i: int| list[i] as int)
}

/// The positions of the tables with blocked items. What is closed is read from the tables
/// of the whole board; the tables that are looked through hold one item each.
pub fn find_blocked_items(board: &[Table], tables: &[Table]) -> (r: Vec<usize>)
    requires
        forall|t: int| 0 <= t < board@.len() ==> is_graph_table(#[trigger] board@[t]),
        forall|t: int| 0 <= t < tables@.len() ==> is_graph_table(#[trigger] tables@[t]),
    ensures
        position_views(r@) == blocked_positions(
            tables@,
            dependencies(tables@, tables@.len()),
            closed_spec(board@, board@.len()),
            tables@.len(),
        ),
        forall|i: int| 0 <= i < r@.len() ==> (#[trigger] r@[i]) < tables@.len(),
{
    let closed: Vec<String> = closed_ids_of(board);
    let adj: Vec<(String, Vec<String>)> = build_dependency_adjacency(tables);
    let ghost lists = traversal::adjacency_views(adj@);
    let ghost closed_ids = text::views(closed@);
    let mut r: Vec<usize> = Vec::new();
    let mut t: usize = 0;
    assert(position_views(r@) =~= blocked_positions(tables@, lists, closed_ids, 0));
    while t < tables.len()
        invariant
            t <= tables@.len(),
            forall|t: int| 0 <= t < tables@.len() ==> is_graph_table(#[trigger] tables@[t]),
            lists == traversal::adjacency_views(adj@),
            closed_ids == text::views(closed@),
            position_views(r@) == blocked_positions(tables@, lists, closed_ids, t as nat),
            forall|i: int| 0 <= i < r@.len() ==> (#[trigger] r@[i]) < tables@.len(),
        decreases tables@.len() - t,
    {
        assert(is_graph_table(tables@[t as int]));
        if table_has_blocked(&tables[t], &adj, &closed) {
            let ghost before = position_views(r@);
            r.push(t);
            assert(position_views(r@) =~= before.push(t as int));
        }
        t = t + 1;
    }
    r
}

// ---- chains as text ------------------------------------------------------------------------------------

/// The status of an item, or a question mark.
pub open spec fn status_of(map: Seq<(Seq<char>, Seq<char>)>, id: Seq<char>) -> Seq<char> {
    match keyed::lookup_spec(map, id) {
        Some(status) => status,
        None => "?"@,
    }
}

fn find_status(map: &Vec<(String, String)>, id: &str) -> (r: String)
    ensures
        r@ == status_of(string_pairs(map@), id@),
{
    let ghost all = string_pairs(map@);
    let mut i: usize = map.len();
    while i > 0
        invariant
            i <= map@.len(),
            all == string_pairs(map@),
            forall|k: int| i <= k < map@.len() ==> (#[trigger] all[k]).0 != id@,
        decreases i,
    {
        assert(all[i - 1] == (map@[i - 1].0@, map@[i - 1].1@));
        if text::same(map[i - 1].0.as_str(), id) {
            proof {
                keyed::lemma_lookup(all, id@, i as int);
            }
            return map[i - 1].1.clone();
        }
        i = i - 1;
    }
    proof {
        keyed::lemma_lookup(all, id@, 0);
    }
    text::owned("?")
}

/// A text with the first `n` links of a chain after it.
pub open spec fn with_links(
    s: Seq<char>,
    chain: Seq<(Seq<char>, nat)>,
    map: Seq<(Seq<char>, Seq<char>)>,
    n: nat,
) -> Seq<char>
    decreases n,
{
    if n == 0 {
        s
    } else {
        with_links(s, chain, map, (n - 1) as nat) + " → "@ + chain[n - 1].0 + " ["@ + status_of(
            map,
            chain[n - 1].0,
        ) + "]"@
    }
}

/// The line with the chain of an item: what it waits for, with the statuses; nothing
/// where it waits for nothing.
pub open spec fn chain_line_spec(
    adj: Seq<(Seq<char>, Seq<Seq<char>>)>,
    map: Seq<(Seq<char>, Seq<char>)>,
    id: Seq<char>,
) -> Seq<char> {
    let chain = chain_of(adj, id, 10);
    if chain.len() == 0 {
        Seq::empty()
    } else {
        with_links("  "@ + id, chain, map, chain.len()) + "\n"@
    }
}

/// The line with the chain of an item.
pub fn chain_line(adj: &Vec<(String, Vec<String>)>, map: &Vec<(String, String)>, id: &str) -> (r:
    String)
    ensures
        r@ == chain_line_spec(traversal::adjacency_views(adj@), string_pairs(map@), id@),
{
    let chain: Vec<TraversalNode> = traversal::bfs_with_adjacency(id, adj, 10);
    let ghost nodes = traversal::node_views(chain@);
    let ghost all = string_pairs(map@);
    if chain.len() == 0 {
        return String::new();
    }
    let mut s: String = text::owned("  ");
    s.append(id);
    let ghost first = s@;
    let mut i: usize = 0;
    while i < chain.len()
        invariant
            i <= chain@.len(),
            nodes == traversal::node_views(chain@),
            all == string_pairs(map@),
            s@ == with_links(first, nodes, all, i as nat),
        decreases chain@.len() - i,
    {
        assert(nodes[i as int].0 == chain@[i as int].id@);
        s.append(" → ");
        s.append(chain[i].id.as_str());
        s.append(" [");
        let status: String = find_status(map, chain[i].id.as_str());
        s.append(status.as_str());
        s.append("]");
        i = i + 1;
    }
    s.append("\n");
    s
}

/// Two spaces for every step.
pub open spec fn indent_spec(depth: nat) -> Seq<char>
    decreases depth,
{
    if depth == 0 {
        Seq::empty()
    } else {
        indent_spec((depth - 1) as nat) + "  "@
    }
}

fn indent(depth: usize) -> (r: String)
    ensures
        r@ == indent_spec(depth as nat),
{
    let mut r: String = String::new();
    let mut i: usize = 0;
    while i < depth
        invariant
            i <= depth,
            r@ == indent_spec(i as nat),
        decreases depth - i,
    {
        r.append("  ");
        i = i + 1;
    }
    r
}

/// A text with the first `n` blockers after it, one on a line.
pub open spec fn with_blockers(
    s: Seq<char>,
    chain: Seq<(Seq<char>, nat)>,
    map: Seq<(Seq<char>, Seq<char>)>,
    n: nat,
) -> Seq<char>
    decreases n,
{
    if n == 0 {
        s
    } else {
        with_blockers(s, chain, map, (n - 1) as nat) + "  "@ + indent_spec(chain[n - 1].1) + "→ "@
            + chain[n - 1].0 + " ["@ + status_of(map, chain[n - 1].0) + "]\n"@
    }
}

/// What blocks an item, in words.
pub open spec fn blockers_text(
    adj: Seq<(Seq<char>, Seq<Seq<char>>)>,
    map: Seq<(Seq<char>, Seq<char>)>,
    target: Seq<char>,
) -> Seq<char> {
    let chain = chain_of(adj, target, 10);
    if chain.len() == 0 {
        target + " has no blockers.\n"@
    } else {
        with_blockers("Blockers of "@ + target + ":\n"@, chain, map, chain.len())
    }
}

/// What blocks an item, in words.
pub fn format_blockers(
    adj: &Vec<(String, Vec<String>)>,
    map: &Vec<(String, String)>,
    target: &str,
) -> (r: String)
    ensures
        r@ == blockers_text(traversal::adjacency_views(adj@), string_pairs(map@), target@),
{
    let chain: Vec<TraversalNode> = traversal::bfs_with_adjacency(target, adj, 10);
    let ghost nodes = traversal::node_views(chain@);
    let ghost all = string_pairs(map@);
    if chain.len() == 0 {
        let mut none: String = text::owned(target);
        none.append(" has no blockers.\n");
        return none;
    }
    let mut s: String = text::owned("Blockers of ");
    s.append(target);
    s.append(":\n");
    let ghost first = s@;
    let mut i: usize = 0;
    while i < chain.len()
        invariant
            i <= chain@.len(),
            nodes == traversal::node_views(chain@),
            all == string_pairs(map@),
            s@ == with_blockers(first, nodes, all, i as nat),
        decreases chain@.len() - i,
    {
        assert(nodes[i as int] == (chain@[i as int].id@, chain@[i as int].depth as nat));
        s.append("  ");
        let space: String = indent(chain[i].depth);
        s.append(space.as_str());
        s.append("→ ");
        s.append(chain[i].id.as_str());
        s.append(" [");
        let status: String = find_status(map, chain[i].id.as_str());
        s.append(status.as_str());
        s.append("]\n");
        i = i + 1;
    }
    s
}

/// A text with the first `n` dependencies after it, one on a line.
pub open spec fn with_dependencies(s: Seq<char>, chain: Seq<(Seq<char>, nat)>, n: nat) -> Seq<char>
    decreases n,
{
    if n == 0 {
        s
    } else {
        with_dependencies(s, chain, (n - 1) as nat) + "  "@ + indent_spec(chain[n - 1].1) + "→ "@
            + chain[n - 1].0 + " (depth "@ + text::decimal_spec(chain[n - 1].1) + ")\n"@
    }
}

/// What an item depends on, in words.
pub open spec fn dependencies_text(
    adj: Seq<(Seq<char>, Seq<Seq<char>>)>,
    target: Seq<char>,
) -> Seq<char> {
    let chain = chain_of(adj, target, 10);
    if chain.len() == 0 {
        target + " has no dependencies.\n"@
    } else {
        with_dependencies("Dependencies of "@ + target + ":\n"@, chain, chain.len())
    }
}

/// What an item depends on, in words.
pub fn format_dependencies(adj: &Vec<(String, Vec<String>)>, target: &str) -> (r: String)
    ensures
        r@ == dependencies_text(traversal::adjacency_views(adj@), target@),
{
    let chain: Vec<TraversalNode> = traversal::bfs_with_adjacency(target, adj, 10);
    let ghost nodes = traversal::node_views(chain@);
    if chain.len() == 0 {
        let mut none: String = text::owned(target);
        none.append(" has no dependencies.\n");
        return none;
    }
    let mut s: String = text::owned("Dependencies of ");
    s.append(target);
    s.append(":\n");
    let ghost first = s@;
    let mut i: usize = 0;
    while i < chain.len()
        invariant
            i <= chain@.len(),
            nodes == traversal::node_views(chain@),
            s@ == with_dependencies(first, nodes, i as nat),
        decreases chain@.len() - i,
    {
        assert(nodes[i as int] == (chain@[i as int].id@, chain@[i as int].depth as nat));
        s.append("  ");
        let space: String = indent(chain[i].depth);
        s.append(space.as_str());
        s.append("→ ");
        s.append(chain[i].id.as_str());
        s.append(" (depth ");
        let depth: String = text::decimal(chain[i].depth);
        s.append(depth.as_str());
        s.append(")\n");
        i = i + 1;
    }
    s
}

// ---- the relations of an item -----------------------------------------------------------------------------

/// The lines for the texts among the first `n` that are not null.
pub open spec fn listed(
    cells: Seq<columns::Cell<Seq<char>>>,
    mark: Seq<char>,
    n: nat,
) -> Seq<Seq<char>>
    decreases n,
{
    if n == 0 {
        Seq::empty()
    } else {
        let before = listed(cells, mark, (n - 1) as nat);
        if cells[n - 1].valid {
            before.push("    "@ + mark + " "@ + cells[n - 1].value)
        } else {
            before
        }
    }
}

/// The lines for a list of the item in the first row: a title and what is listed, where
/// there is a list of texts that is not empty.
pub open spec fn list_lines(table: Table, col: int, title: Seq<char>, mark: Seq<char>) -> Seq<
    Seq<char>,
> {
    let list = columns::list_cell(table, col, 0);
    if columns::has_lists(table, col) && list.valid && columns::list_len(list.value) > 0
        && list.value is Texts {
        seq![title] + listed(list.value->Texts_0, mark, list.value->Texts_0.len())
    } else {
        Seq::empty()
    }
}

fn push_list_lines(lines: &mut Vec<String>, table: &Table, col: usize, title: &str, mark: &str)
    requires
        col < columns::table_columns(*table).len(),
        columns::table_rows(*table) > 0,
    ensures
        text::views(final(lines)@) == text::views(old(lines)@) + list_lines(
            *table,
            col as int,
            title@,
            mark@,
        ),
{
    let ghost before = text::views(lines@);
    let ghost list = columns::list_cell(*table, col as int, 0);
    if !columns::is_lists(table, col) || columns::list_is_null(table, col, 0)
        || columns::list_value_len(table, col, 0) == 0 || !columns::list_is_text(table, col, 0) {
        assert(text::views(lines@) =~= before + list_lines(*table, col as int, title@, mark@));
        return ;
    }
    let ghost cells = list.value->Texts_0;
    lines.push(text::owned(title));
    let n: usize = columns::list_value_len(table, col, 0);
    let mut i: usize = 0;
    assert(text::views(lines@) =~= before + (seq![title@] + listed(cells, mark@, 0)));
    while i < n
        invariant
            i <= n,
            columns::has_lists(*table, col as int),
            columns::table_rows(*table) > 0,
            list == columns::list_cell(*table, col as int, 0),
            list.value is Texts,
            cells == list.value->Texts_0,
            n == cells.len(),
            text::views(lines@) == before + (seq![title@] + listed(cells, mark@, i as nat)),
        decreases n - i,
    {
        if !columns::list_text_is_null(table, col, 0, i) {
            let ghost so_far = text::views(lines@);
            let mut line: String = text::owned("    ");
            line.append(mark);
            line.append(" ");
            let value: String = columns::list_text_value(table, col, 0, i);
            line.append(value.as_str());
            let ghost shown = line@;
            lines.push(line);
            assert(text::views(lines@) =~= so_far.push(shown));
            assert(text::views(lines@) =~= before + (seq![title@] + listed(
                cells,
                mark@,
                (i + 1) as nat,
            )));
        }
        i = i + 1;
    }
}

pub open spec fn chain_lines(chain: Seq<(Seq<char>, nat)>) -> Seq<Seq<char>> {
    if chain.len() == 0 {
        Seq::empty()
    } else {
        seq!["  Dependency chain (transitive):"@] + Seq::new(
            chain.len(),
            |i: int|
                "    "@ + indent_spec(chain[i].1) + "↳ "@ + chain[i].0 + " (depth "@
                    + text::decimal_spec(chain[i].1) + ")"@,
        )
    }
}

pub open spec fn relations_head() -> Seq<Seq<char>> {
    seq![""@, "  Relations"@, "  "@ + text::repeat_spec('─', 60)]
}

/// The lines for typed relations: a title and one line for each, where there are any.
pub open spec fn edge_lines(edges: Seq<(Seq<char>, Seq<char>, Seq<char>)>) -> Seq<Seq<char>> {
    if edges.len() == 0 {
        Seq::empty()
    } else {
        seq!["  Typed relations:"@] + Seq::new(
            edges.len(),
            |i: int| "    "@ + edges[i].0 + " -"@ + edges[i].1 + "-> "@ + edges[i].2,
        )
    }
}

/// The lines on the relations of an item: what it depends on, what it is related to, its
/// typed relations, and the chain of what it waits for.
pub open spec fn relations_lines(
    id: Seq<char>,
    item: Option<Table>,
    edges: Seq<(Seq<char>, Seq<char>, Seq<char>)>,
    adj: Seq<(Seq<char>, Seq<Seq<char>>)>,
) -> Seq<Seq<char>> {
    match item {
        None => relations_head() + seq!["  (item not found)"@],
        Some(table) => {
            let found = list_lines(table, DEPENDS_ON as int, "  Depends on:"@, "→"@) + list_lines(
                table,
                RELATED as int,
                "  Related:"@,
                "↔"@,
            ) + edge_lines(edges) + chain_lines(chain_of(adj, id, 10));
            relations_head() + if found.len() == 0 {
                seq!["  (no relationships)"@]
            } else {
                found
            }
        },
    }
}

fn push_chain_lines(lines: &mut Vec<String>, chain: &Vec<TraversalNode>)
    ensures
        text::views(final(lines)@) == text::views(old(lines)@) + chain_lines(
            traversal::node_views(chain@),
        ),
{
    let ghost before = text::views(lines@);
    let ghost nodes = traversal::node_views(chain@);
    if chain.len() == 0 {
        assert(text::views(lines@) =~= before + chain_lines(nodes));
        return ;
    }
    let ghost f = |i: int|
        "    "@ + indent_spec(nodes[i].1) + "↳ "@ + nodes[i].0 + " (depth "@ + text::decimal_spec(
            nodes[i].1,
        ) + ")"@;
    lines.push(text::owned("  Dependency chain (transitive):"));
    let ghost head = seq!["  Dependency chain (transitive):"@];
    let mut i: usize = 0;
    assert(text::views(lines@) =~= before + (head + Seq::new(0, f)));
    while i < chain.len()
        invariant
            i <= chain@.len(),
            nodes == traversal::node_views(chain@),
            f == (|i: int|
                "    "@ + indent_spec(nodes[i].1) + "↳ "@ + nodes[i].0 + " (depth "@
                    + text::decimal_spec(nodes[i].1) + ")"@),
            text::views(lines@) == before + (head + Seq::new(i as nat, f)),
        decreases chain@.len() - i,
    {
        assert(nodes[i as int] == (chain@[i as int].id@, chain@[i as int].depth as nat));
        let mut line: String = text::owned("    ");
        let space: String = indent(chain[i].depth);
        line.append(space.as_str());
        line.append("↳ ");
        line.append(chain[i].id.as_str());
        line.append(" (depth ");
        let depth: String = text::decimal(chain[i].depth);
        line.append(depth.as_str());
        line.append(")");
        let ghost so_far = text::views(lines@);
        let ghost shown = line@;
        lines.push(line);
        assert(text::views(lines@) =~= so_far.push(shown));
        assert(text::views(lines@) =~= before + (head + Seq::new((i + 1) as nat, f)));
        i = i + 1;
    }
    assert(text::views(lines@) =~= before + chain_lines(nodes));
}

fn push_edge_lines(lines: &mut Vec<String>, edges: &Vec<(String, String, String)>)
    ensures
        text::views(final(lines)@) == text::views(old(lines)@) + edge_lines(
            relations::triple_views(edges@),
        ),
{
    let ghost before = text::views(lines@);
    let ghost all = relations::triple_views(edges@);
    if edges.len() == 0 {
        assert(text::views(lines@) =~= before + edge_lines(all));
        return ;
    }
    let ghost f = |i: int| "    "@ + all[i].0 + " -"@ + all[i].1 + "-> "@ + all[i].2;
    lines.push(text::owned("  Typed relations:"));
    let ghost head = seq!["  Typed relations:"@];
    let mut i: usize = 0;
    assert(text::views(lines@) =~= before + (head + Seq::new(0, f)));
    while i < edges.len()
        invariant
            i <= edges@.len(),
            all == relations::triple_views(edges@),
            f == (|i: int| "    "@ + all[i].0 + " -"@ + all[i].1 + "-> "@ + all[i].2),
            text::views(lines@) == before + (head + Seq::new(i as nat, f)),
        decreases edges@.len() - i,
    {
        assert(all[i as int] == (edges@[i as int].0@, edges@[i as int].1@, edges@[i as int].2@));
        let mut line: String = text::owned("    ");
        line.append(edges[i].0.as_str());
        line.append(" -");
        line.append(edges[i].1.as_str());
        line.append("-> ");
        line.append(edges[i].2.as_str());
        let ghost so_far = text::views(lines@);
        let ghost shown = line@;
        lines.push(line);
        assert(text::views(lines@) =~= so_far.push(shown));
        assert(text::views(lines@) =~= before + (head + Seq::new((i + 1) as nat, f)));
        i = i + 1;
    }
    assert(text::views(lines@) =~= before + edge_lines(all));
}

/// What an optional table is.
pub open spec fn table_view(item: Option<&Table>) -> Option<Table> {
    match item {
        Some(table) => Some(*table),
        None => None,
    }
}

/// The relations of an item in words. The item stands in the first row of its table.
pub fn format_item_relations(
    id: &str,
    item: Option<&Table>,
    typed: &RelationsStore,
    adj: &Vec<(String, Vec<String>)>,
) -> (r: String)
    requires
        item is Some ==> is_graph_table(*item->0) && columns::table_rows(*item->0) > 0,
        typed.well_formed(),
    ensures
        r@ == text::join_spec(
            relations_lines(
                id@,
                table_view(item),
                relations::live_triples(typed.edges(), id@, typed.edges().len()),
                traversal::adjacency_views(adj@),
            ),
            "\n"@,
        ) + "\n"@,
{
    let mut lines: Vec<String> = Vec::new();
    lines.push(text::owned(""));
    lines.push(text::owned("  Relations"));
    let mut rule: String = text::owned("  ");
    let dashes: String = text::repeat('─', 60);
    rule.append(dashes.as_str());
    lines.push(rule);
    assert(text::views(lines@) =~= relations_head());
    let ghost triples = relations::live_triples(typed.edges(), id@, typed.edges().len());
    match item {
        None => {
            lines.push(text::owned("  (item not found)"));
            assert(text::views(lines@) =~= relations_lines(
                id@,
                None,
                triples,
                traversal::adjacency_views(adj@),
            ));
        },
        Some(table) => {
            let ghost first = list_lines(*table, DEPENDS_ON as int, "  Depends on:"@, "→"@);
            let ghost second = list_lines(*table, RELATED as int, "  Related:"@, "↔"@);
            push_list_lines(&mut lines, table, DEPENDS_ON, "  Depends on:", "→");
            push_list_lines(&mut lines, table, RELATED, "  Related:", "↔");
            let edges: Vec<(String, String, String)> = typed.live_edges_of(id);
            push_edge_lines(&mut lines, &edges);
            let chain: Vec<TraversalNode> = traversal::bfs_with_adjacency(id, adj, 10);
            let ghost last = chain_lines(traversal::node_views(chain@));
            push_chain_lines(&mut lines, &chain);
            let ghost found = first + second + edge_lines(triples) + last;
            assert(text::views(lines@) =~= relations_head() + found);
            if lines.len() <= 3 {
                lines.push(text::owned("  (no relationships)"));
                assert(found.len() == 0);
            }
            assert(text::views(lines@) =~= relations_lines(
                id@,
                Some(*table),
                triples,
                traversal::adjacency_views(adj@),
            ));
        },
    }
    let mut s: String = text::join(&lines, "\n");
    s.append("\n");
    s
}

// ---- what holds of blocked items ----------------------------------------------------------------------------

/// An item in no terminal state is blocked exactly when the search along dependencies,
/// taken as far as there are lists of them, comes to an item that is neither blank nor
/// closed.
pub proof fn law_blocked_iff_the_search_finds_open_work(
    adj: Seq<(Seq<char>, Seq<Seq<char>>)>,
    closed: Seq<Seq<char>>,
    id: Seq<char>,
    status: Seq<char>,
)
    requires
        !state_machine::is_terminal(status),
    ensures
        is_blocked(adj, closed, id, status) <==> exists|i: int|
            0 <= i < chain_of(adj, id, adj.len()).len() && holds_up(
                closed,
                (#[trigger] chain_of(adj, id, adj.len())[i]).0,
            ),
{
    traversal::law_search_finds_what_is_near(adj, id, adj.len());
    let chain = chain_of(adj, id, adj.len());
    if is_blocked(adj, closed, id, status) {
        let x = choose|x: Seq<char>|
            x != id && #[trigger] traversal::reaches(adj, id, x) && holds_up(closed, x);
        traversal::law_reach_is_bounded(adj, id, x);
        assert(traversal::finds(chain, x));
        let i = choose|i: int| 0 <= i < chain.len() && (#[trigger] chain[i]).0 == x;
        assert(holds_up(closed, chain[i].0));
    }
    if exists|i: int| 0 <= i < chain.len() && holds_up(closed, (#[trigger] chain[i]).0) {
        let i = choose|i: int| 0 <= i < chain.len() && holds_up(closed, (#[trigger] chain[i]).0);
        let x = chain[i].0;
        assert(traversal::distance_is(adj, id, x, chain[i].1));
        assert(traversal::reaches(adj, id, x));
    }
}

/// An item in a terminal state is never blocked.
pub proof fn law_closed_items_are_not_blocked(
    adj: Seq<(Seq<char>, Seq<Seq<char>>)>,
    closed: Seq<Seq<char>>,
    id: Seq<char>,
    status: Seq<char>,
)
    requires
        state_machine::is_terminal(status),
    ensures
        !is_blocked(adj, closed, id, status),
{
}

/// Closed dependencies hold nothing up: an item all of whose dependencies, however
/// indirect, are closed is not blocked.
pub proof fn law_closed_dependencies_do_not_block(
    adj: Seq<(Seq<char>, Seq<Seq<char>>)>,
    closed: Seq<Seq<char>>,
    id: Seq<char>,
    status: Seq<char>,
)
    requires
        forall|x: Seq<char>|
            x != id && #[trigger] traversal::reaches(adj, id, x) ==> closed.contains(x),
    ensures
        !is_blocked(adj, closed, id, status),
{
}

// ---- what the cells of a board say --------------------------------------------------------------------------

/// Whether a row of a table has an id and lists a dependency, by its cells.
pub open spec fn row_lists(table: Table, row: int, id: Seq<char>, dep: Seq<char>) -> bool {
    let list = columns::list_cell(table, DEPENDS_ON as int, row);
    &&& columns::has_text(table, ID as int)
    &&& columns::has_lists(table, DEPENDS_ON as int)
    &&& 0 <= row < columns::table_rows(table)
    &&& columns::text_cell(table, ID as int, row).value == id
    &&& list.valid && list.value is Texts
    &&& list.value->Texts_0.contains(columns::Cell { valid: true, value: dep })
}

/// Whether some row of some table has an id and lists a dependency.
pub open spec fn board_lists(tables: Seq<Table>, id: Seq<char>, dep: Seq<char>) -> bool {
    exists|t: int, row: int|
        0 <= t < tables.len() && #[trigger] row_lists(tables[t], row, id, dep)
}


proof fn lemma_list_edges(
    id: Seq<char>,
    list: Seq<columns::Cell<Seq<char>>>,
    n: nat,
    from: Seq<char>,
    to: Seq<char>,
)
    requires
        n <= list.len(),
    ensures
        traversal::list_edges(id, list, Direction::Forward, n).contains((from, to)) == (from == id
            && exists|k: int|
            0 <= k < n && #[trigger] list[k] == (columns::Cell { valid: true, value: to })),
    decreases n,
{
    let now = traversal::list_edges(id, list, Direction::Forward, n);
    let wanted = columns::Cell { valid: true, value: to };
    if n > 0 {
        let m = (n - 1) as nat;
        lemma_list_edges(id, list, m, from, to);
        let before = traversal::list_edges(id, list, Direction::Forward, m);
        let item = list[n - 1];
        vstd::seq_lib::lemma_seq_contains_after_push(before, (id, item.value), (from, to));
        if exists|k: int| 0 <= k < m && #[trigger] list[k] == wanted {
            let k = choose|k: int| 0 <= k < m && #[trigger] list[k] == wanted;
            assert(0 <= k < n && list[k] == wanted);
        }
        if item.valid && item.value == to {
            assert(list[n - 1] == wanted);
        }
    }
}

proof fn lemma_row_edges(table: Table, n: nat, from: Seq<char>, to: Seq<char>)
    requires
        n <= columns::table_rows(table),
        columns::has_text(table, ID as int),
        columns::has_lists(table, DEPENDS_ON as int),
    ensures
        traversal::row_edges(table, ID as int, DEPENDS_ON as int, Direction::Forward, n).contains(
            (from, to),
        ) == exists|row: int| 0 <= row < n && #[trigger] row_lists(table, row, from, to),
    decreases n,
{
    if n > 0 {
        let m = (n - 1) as nat;
        lemma_row_edges(table, m, from, to);
        let before = traversal::row_edges(
            table,
            ID as int,
            DEPENDS_ON as int,
            Direction::Forward,
            m,
        );
        let list = columns::list_cell(table, DEPENDS_ON as int, n - 1);
        let id = columns::text_cell(table, ID as int, n - 1).value;
        let cells = list.value->Texts_0;
        if list.valid && list.value is Texts {
            let here = traversal::list_edges(id, cells, Direction::Forward, cells.len());
            lemma_list_edges(id, cells, cells.len(), from, to);
            vstd::seq_lib::lemma_seq_concat_contains_all_elements(before, here, (from, to));
            if here.contains((from, to)) {
                assert(row_lists(table, n - 1, from, to));
            }
            if row_lists(table, n - 1, from, to) {
                let wanted = columns::Cell { valid: true, value: to };
                let k = choose|k: int| 0 <= k < cells.len() && cells[k] == wanted;
                assert(cells[k] == wanted);
            }
        }
        if exists|row: int| 0 <= row < m && #[trigger] row_lists(table, row, from, to) {
            let row = choose|row: int| 0 <= row < m && #[trigger] row_lists(table, row, from, to);
            assert(0 <= row < n && row_lists(table, row, from, to));
        }
    }
}

/// Adding an edge adds its target to what its source has, and nothing else.
proof fn lemma_with_edge(
    adj: Seq<(Seq<char>, Seq<Seq<char>>)>,
    from: Seq<char>,
    to: Seq<char>,
    a: Seq<char>,
    b: Seq<char>,
)
    ensures
        traversal::neighbors(traversal::with_edge(adj, from, to), a).contains(b) == (
        traversal::neighbors(adj, a).contains(b) || (a == from && b == to)),
{
    let next = traversal::with_edge(adj, from, to);
    traversal::lemma_position_is(adj, from);
    traversal::lemma_position_is(adj, a);
    match traversal::node_position(adj, from) {
        Some(i) => {
            if a == from {
                assert forall|k: int| i < k < next.len() implies (#[trigger] next[k]).0 != a by {
                    assert(next[k] == adj[k]);
                }
                traversal::lemma_node_position(next, a, i + 1);
                vstd::seq_lib::lemma_seq_contains_after_push(adj[i].1, to, b);
            } else {
                match traversal::node_position(adj, a) {
                    Some(j) => {
                        assert forall|k: int| j < k < next.len() implies (#[trigger] next[k]).0
                            != a by {
                            if k != i {
                                assert(next[k] == adj[k]);
                            }
                        }
                        assert(next[j] == adj[j]);
                        traversal::lemma_node_position(next, a, j + 1);
                    },
                    None => {
                        assert forall|k: int| 0 <= k < next.len() implies (#[trigger] next[k]).0
                            != a by {
                            if k != i {
                                assert(next[k] == adj[k]);
                            }
                        }
                        traversal::lemma_node_position(next, a, 0);
                    },
                }
            }
        },
        None => {
            if a == from {
                traversal::lemma_node_position(next, a, next.len() as int);
                assert(traversal::neighbors(next, a) == seq![to]);
                assert(seq![to].contains(b) == (b == to)) by {
                    if b == to {
                        assert(seq![to][0] == b);
                    }
                }
            } else {
                match traversal::node_position(adj, a) {
                    Some(j) => {
                        assert forall|k: int| j < k < next.len() implies (#[trigger] next[k]).0
                            != a by {
                            if k < adj.len() {
                                assert(next[k] == adj[k]);
                            }
                        }
                        assert(next[j] == adj[j]);
                        traversal::lemma_node_position(next, a, j + 1);
                    },
                    None => {
                        assert forall|k: int| 0 <= k < next.len() implies (#[trigger] next[k]).0
                            != a by {
                            if k < adj.len() {
                                assert(next[k] == adj[k]);
                            }
                        }
                        traversal::lemma_node_position(next, a, 0);
                    },
                }
            }
        },
    }
}

/// The lists of grouped edges hold those edges, each node standing once.
proof fn lemma_grouped(edges: Seq<(Seq<char>, Seq<char>)>, n: nat, a: Seq<char>, b: Seq<char>)
    requires
        n <= edges.len(),
    ensures
        traversal::neighbors(traversal::grouped(edges, n), a).contains(b) == exists|k: int|
            0 <= k < n && #[trigger] edges[k] == (a, b),
        nodes_distinct(traversal::grouped(edges, n)),
    decreases n,
{
    if n > 0 {
        let m = (n - 1) as nat;
        lemma_grouped(edges, m, a, b);
        let before = traversal::grouped(edges, m);
        lemma_with_edge(before, edges[n - 1].0, edges[n - 1].1, a, b);
        lemma_distinct_edge(before, edges[n - 1].0, edges[n - 1].1);
        if exists|k: int| 0 <= k < m && #[trigger] edges[k] == (a, b) {
            let k = choose|k: int| 0 <= k < m && #[trigger] edges[k] == (a, b);
            assert(0 <= k < n && edges[k] == (a, b));
        }
        if a == edges[n - 1].0 && b == edges[n - 1].1 {
            assert(edges[n - 1] == (a, b));
        }
    } else {
        assert(!Seq::<Seq<char>>::empty().contains(b));
    }
}

/// Whether no node stands twice in a graph.
pub open spec fn nodes_distinct(adj: Seq<(Seq<char>, Seq<Seq<char>>)>) -> bool {
    forall|i: int, j: int|
        0 <= i < j < adj.len() ==> (#[trigger] adj[i]).0 != (#[trigger] adj[j]).0
}

proof fn lemma_distinct_edge(adj: Seq<(Seq<char>, Seq<Seq<char>>)>, from: Seq<char>, to: Seq<char>)
    requires
        nodes_distinct(adj),
    ensures
        nodes_distinct(traversal::with_edge(adj, from, to)),
{
    let next = traversal::with_edge(adj, from, to);
    traversal::lemma_position_is(adj, from);
    assert forall|i: int, j: int| 0 <= i < j < next.len() implies (#[trigger] next[i]).0 != (
    #[trigger] next[j]).0 by {
        if traversal::node_position(adj, from) is Some {
            assert(next[i].0 == adj[i].0 && next[j].0 == adj[j].0);
        } else if j < adj.len() {
            assert(next[i] == adj[i] && next[j] == adj[j]);
        } else {
            assert(next[i] == adj[i]);
        }
    }
}

proof fn lemma_with_edges(
    adj: Seq<(Seq<char>, Seq<Seq<char>>)>,
    from: Seq<char>,
    tos: Seq<Seq<char>>,
    n: nat,
    a: Seq<char>,
    b: Seq<char>,
)
    requires
        n <= tos.len(),
    ensures
        traversal::neighbors(with_edges(adj, from, tos, n), a).contains(b) == (
        traversal::neighbors(adj, a).contains(b) || (a == from && tos.take(n as int).contains(b))),
    decreases n,
{
    if n > 0 {
        let m = (n - 1) as nat;
        lemma_with_edges(adj, from, tos, m, a, b);
        lemma_with_edge(with_edges(adj, from, tos, m), from, tos[n - 1], a, b);
        assert(tos.take(n as int) =~= tos.take(m as int).push(tos[n - 1]));
        vstd::seq_lib::lemma_seq_contains_after_push(tos.take(m as int), tos[n - 1], b);
    }
}

proof fn lemma_merged(
    adj: Seq<(Seq<char>, Seq<Seq<char>>)>,
    more: Seq<(Seq<char>, Seq<Seq<char>>)>,
    n: nat,
    a: Seq<char>,
    b: Seq<char>,
)
    requires
        n <= more.len(),
    ensures
        traversal::neighbors(merged(adj, more, n), a).contains(b) == (traversal::neighbors(
            adj,
            a,
        ).contains(b) || exists|k: int|
            0 <= k < n && (#[trigger] more[k]).0 == a && more[k].1.contains(b)),
    decreases n,
{
    if n > 0 {
        let m = (n - 1) as nat;
        lemma_merged(adj, more, m, a, b);
        let entry = more[n - 1];
        lemma_with_edges(merged(adj, more, m), entry.0, entry.1, entry.1.len(), a, b);
        assert(entry.1.take(entry.1.len() as int) =~= entry.1);
        if exists|k: int| 0 <= k < m && (#[trigger] more[k]).0 == a && more[k].1.contains(b) {
            let k = choose|k: int|
                0 <= k < m && (#[trigger] more[k]).0 == a && more[k].1.contains(b);
            assert(0 <= k < n && more[k].0 == a && more[k].1.contains(b));
        }
        if entry.0 == a && entry.1.contains(b) {
            assert(more[n - 1].0 == a && more[n - 1].1.contains(b));
        }
    }
}

/// In a graph without repeated nodes, what a node has is what its one entry lists.
proof fn lemma_entry(adj: Seq<(Seq<char>, Seq<Seq<char>>)>, a: Seq<char>, b: Seq<char>)
    requires
        nodes_distinct(adj),
    ensures
        traversal::neighbors(adj, a).contains(b) == exists|k: int|
            0 <= k < adj.len() && (#[trigger] adj[k]).0 == a && adj[k].1.contains(b),
{
    traversal::lemma_position_is(adj, a);
    if exists|k: int| 0 <= k < adj.len() && (#[trigger] adj[k]).0 == a && adj[k].1.contains(b) {
        let k = choose|k: int|
            0 <= k < adj.len() && (#[trigger] adj[k]).0 == a && adj[k].1.contains(b);
        let i = traversal::node_position(adj, a)->0;
        if i < k {
            assert(adj[i].0 != adj[k].0);
        } else if k < i {
            assert(adj[k].0 != adj[i].0);
        }
    }
    if traversal::neighbors(adj, a).contains(b) {
        let i = traversal::node_position(adj, a)->0;
        assert(traversal::node_position(adj, a) is Some);
        assert(adj[i].0 == a && adj[i].1.contains(b));
    }
}

proof fn lemma_table_dependencies(table: Table, a: Seq<char>, b: Seq<char>)
    ensures
        nodes_distinct(table_dependencies(table)),
        traversal::neighbors(table_dependencies(table), a).contains(b) == exists|row: int|
            #[trigger] row_lists(table, row, a, b),
{
    let edges = traversal::edges_of(table, ID as int, DEPENDS_ON as int, Direction::Forward);
    lemma_grouped(edges, edges.len(), a, b);
    if columns::table_rows(table) > 0 && columns::has_text(table, ID as int) && columns::has_lists(
        table,
        DEPENDS_ON as int,
    ) {
        lemma_row_edges(table, columns::table_rows(table), a, b);
        if edges.contains((a, b)) {
            let k = choose|k: int| 0 <= k < edges.len() && edges[k] == (a, b);
            assert(edges[k] == (a, b));
            let row = choose|row: int|
                0 <= row < columns::table_rows(table) && #[trigger] row_lists(table, row, a, b);
            assert(row_lists(table, row, a, b));
        }
        if exists|row: int| #[trigger] row_lists(table, row, a, b) {
            let row = choose|row: int| #[trigger] row_lists(table, row, a, b);
            assert(0 <= row < columns::table_rows(table) && row_lists(table, row, a, b));
            let k = choose|k: int| 0 <= k < edges.len() && edges[k] == (a, b);
            assert(edges[k] == (a, b));
        }
    }
}

proof fn lemma_dependencies(tables: Seq<Table>, n: nat, a: Seq<char>, b: Seq<char>)
    requires
        n <= tables.len(),
    ensures
        traversal::neighbors(dependencies(tables, n), a).contains(b) == exists|t: int, row: int|
            0 <= t < n && #[trigger] row_lists(tables[t], row, a, b),
    decreases n,
{
    if n > 0 {
        let m = (n - 1) as nat;
        lemma_dependencies(tables, m, a, b);
        let more = table_dependencies(tables[n - 1]);
        lemma_merged(dependencies(tables, m), more, more.len(), a, b);
        lemma_table_dependencies(tables[n - 1], a, b);
        lemma_entry(more, a, b);
        if exists|t: int, row: int| 0 <= t < m && #[trigger] row_lists(tables[t], row, a, b) {
            let (t, row) = choose|t: int, row: int|
                0 <= t < m && #[trigger] row_lists(tables[t], row, a, b);
            assert(0 <= t < n && row_lists(tables[t], row, a, b));
        }
        if exists|row: int| #[trigger] row_lists(tables[n - 1], row, a, b) {
            let row = choose|row: int| #[trigger] row_lists(tables[n - 1], row, a, b);
            assert(0 <= n - 1 < n && row_lists(tables[n - 1], row, a, b));
        }
    } else {
        assert(!Seq::<Seq<char>>::empty().contains(b));
    }
}

/// Every dependency that a cell lists is an edge of the graph, and there are no other
/// edges.
pub proof fn law_every_listed_dependency_is_an_edge(
    tables: Seq<Table>,
    id: Seq<char>,
    dep: Seq<char>,
)
    ensures
        traversal::neighbors(dependencies(tables, tables.len()), id).contains(dep) == board_lists(
            tables,
            id,
            dep,
        ),
{
    lemma_dependencies(tables, tables.len(), id, dep);
}

/// Whether an id is that of a row that is not deleted and whose status is `done`,
/// `complete`, `abandoned` or `retired`.
pub open spec fn row_closes(table: Table, row: int, id: Seq<char>) -> bool {
    let status = columns::text_cell(table, STATUS as int, row).value;
    &&& columns::has_text(table, ID as int)
    &&& columns::has_text(table, STATUS as int)
    &&& columns::has_flags(table, DELETED as int)
    &&& 0 <= row < columns::table_rows(table)
    &&& columns::text_cell(table, ID as int, row).value == id
    &&& !columns::flag_cell(table, DELETED as int, row).value
    &&& status == "done"@ || status == "complete"@ || status == "abandoned"@ || status
        == "retired"@
}

pub open spec fn board_closes(board: Seq<Table>, id: Seq<char>) -> bool {
    exists|t: int, row: int| 0 <= t < board.len() && #[trigger] row_closes(board[t], row, id)
}

proof fn lemma_closed_in(table: Table, n: nat, id: Seq<char>)
    requires
        has_marks(table),
        n <= columns::table_rows(table),
    ensures
        closed_in(table, n).contains(id) == exists|row: int|
            0 <= row < n && #[trigger] row_closes(table, row, id),
    decreases n,
{
    if n > 0 {
        let m = (n - 1) as nat;
        lemma_closed_in(table, m, id);
        let last = columns::text_cell(table, ID as int, n - 1).value;
        vstd::seq_lib::lemma_seq_contains_after_push(closed_in(table, m), last, id);
        if exists|row: int| 0 <= row < m && #[trigger] row_closes(table, row, id) {
            let row = choose|row: int| 0 <= row < m && #[trigger] row_closes(table, row, id);
            assert(0 <= row < n && row_closes(table, row, id));
        }
        if is_closed_at(table, n - 1) && last == id {
            assert(row_closes(table, n - 1, id));
        }
    }
}

proof fn lemma_closed(board: Seq<Table>, n: nat, id: Seq<char>)
    requires
        n <= board.len(),
    ensures
        closed_spec(board, n).contains(id) == exists|t: int, row: int|
            0 <= t < n && #[trigger] row_closes(board[t], row, id),
    decreases n,
{
    if n > 0 {
        let m = (n - 1) as nat;
        lemma_closed(board, m, id);
        let table = board[n - 1];
        let before = closed_spec(board, m);
        if has_marks(table) {
            let here = closed_in(table, columns::table_rows(table));
            lemma_closed_in(table, columns::table_rows(table), id);
            vstd::seq_lib::lemma_seq_concat_contains_all_elements(before, here, id);
        }
        if exists|t: int, row: int| 0 <= t < m && #[trigger] row_closes(board[t], row, id) {
            let (t, row) = choose|t: int, row: int|
                0 <= t < m && #[trigger] row_closes(board[t], row, id);
            assert(0 <= t < n && row_closes(board[t], row, id));
        }
        if exists|row: int| #[trigger] row_closes(table, row, id) {
            let row = choose|row: int| #[trigger] row_closes(table, row, id);
            assert(0 <= n - 1 < n && row_closes(board[n - 1], row, id));
            assert(0 <= row < columns::table_rows(table) && row_closes(table, row, id));
        }
    }
}

/// The closed ids of a board are those of the rows that its cells say are closed.
pub proof fn law_closed_ids_are_those_of_closed_rows(board: Seq<Table>, id: Seq<char>)
    ensures
        closed_spec(board, board.len()).contains(id) == board_closes(board, id),
{
    lemma_closed(board, board.len(), id);
}

/// Whether ids lead from one to the next along the dependencies that the cells list.
pub open spec fn is_dependency_path(tables: Seq<Table>, path: Seq<Seq<char>>) -> bool {
    &&& path.len() >= 2
    &&& forall|k: int| 0 <= k < path.len() - 1 ==> #[trigger] path_goes_on(tables, path, k)
}

pub open spec fn path_goes_on(tables: Seq<Table>, path: Seq<Seq<char>>, k: int) -> bool {
    board_lists(tables, path[k], path[k + 1])
}

/// Whether a path of dependencies ends at something that is not blank, not closed and not
/// where it started.
pub open spec fn path_to_open_work(
    board: Seq<Table>,
    tables: Seq<Table>,
    path: Seq<Seq<char>>,
) -> bool {
    &&& is_dependency_path(tables, path)
    &&& path.last() != path[0]
    &&& text::trim_spec(path.last()).len() > 0
    &&& !board_closes(board, path.last())
}

/// Whether a row is in no terminal state and leads to open work, by the cells.
pub open spec fn row_waits(board: Seq<Table>, tables: Seq<Table>, table: Table, row: int) -> bool {
    let status = columns::text_cell(table, STATUS as int, row).value;
    &&& columns::has_text(table, ID as int)
    &&& columns::has_text(table, STATUS as int)
    &&& 0 <= row < columns::table_rows(table)
    &&& status != "done"@ && status != "complete"@ && status != "abandoned"@ && status
        != "retired"@
    &&& exists|path: Seq<Seq<char>>| #[trigger]
        path_to_open_work(board, tables, path) && path[0] == columns::text_cell(
            table,
            ID as int,
            row,
        ).value
}

proof fn lemma_path_reaches(tables: Seq<Table>, path: Seq<Seq<char>>, k: int)
    requires
        is_dependency_path(tables, path),
        0 <= k < path.len(),
    ensures
        traversal::within(dependencies(tables, tables.len()), path[0], path[k], k as nat),
    decreases k,
{
    if k > 0 {
        lemma_path_reaches(tables, path, k - 1);
        assert(path_goes_on(tables, path, k - 1));
        law_every_listed_dependency_is_an_edge(tables, path[k - 1], path[k]);
        assert(traversal::hop(dependencies(tables, tables.len()), path[k - 1], path[k]));
    }
}

proof fn lemma_within_path(tables: Seq<Table>, start: Seq<char>, id: Seq<char>, k: nat) -> (path: Seq<
    Seq<char>,
>)
    requires
        traversal::within(dependencies(tables, tables.len()), start, id, k),
        id != start,
    ensures
        is_dependency_path(tables, path),
        path[0] == start,
        path.last() == id,
    decreases k,
{
    let adj = dependencies(tables, tables.len());
    if traversal::within(adj, start, id, (k - 1) as nat) {
        lemma_within_path(tables, start, id, (k - 1) as nat)
    } else {
        let a = choose|a: Seq<char>|
            traversal::within(adj, start, a, (k - 1) as nat) && #[trigger] traversal::hop(
                adj,
                a,
                id,
            );
        law_every_listed_dependency_is_an_edge(tables, a, id);
        if a == start {
            let path = seq![start, id];
            assert(path_goes_on(tables, path, 0));
            path
        } else {
            let before = lemma_within_path(tables, start, a, (k - 1) as nat);
            let path = before.push(id);
            assert forall|j: int| 0 <= j < path.len() - 1 implies #[trigger] path_goes_on(
                tables,
                path,
                j,
            ) by {
                if j < before.len() - 1 {
                    assert(path_goes_on(tables, before, j));
                }
            }
            path
        }
    }
}

proof fn lemma_row_waits(board: Seq<Table>, tables: Seq<Table>, table: Table, row: int)
    requires
        has_statuses(table),
        0 <= row < columns::table_rows(table),
    ensures
        row_waits(board, tables, table, row) == is_blocked(
            dependencies(tables, tables.len()),
            closed_spec(board, board.len()),
            columns::text_cell(table, ID as int, row).value,
            columns::text_cell(table, STATUS as int, row).value,
        ),
{
    let adj = dependencies(tables, tables.len());
    let closed = closed_spec(board, board.len());
    let id = columns::text_cell(table, ID as int, row).value;
    let status = columns::text_cell(table, STATUS as int, row).value;
    if is_blocked(adj, closed, id, status) {
        let x = choose|x: Seq<char>|
            x != id && #[trigger] traversal::reaches(adj, id, x) && holds_up(closed, x);
        let k = choose|k: nat| #[trigger] traversal::within(adj, id, x, k);
        let path = lemma_within_path(tables, id, x, k);
        law_closed_ids_are_those_of_closed_rows(board, x);
        assert(path_to_open_work(board, tables, path));
    }
    if row_waits(board, tables, table, row) {
        let path = choose|path: Seq<Seq<char>>| #[trigger]
            path_to_open_work(board, tables, path) && path[0] == id;
        lemma_path_reaches(tables, path, path.len() - 1);
        law_closed_ids_are_those_of_closed_rows(board, path.last());
        assert(traversal::reaches(adj, id, path.last()));
    }
}

proof fn lemma_blocked_positions(
    tables: Seq<Table>,
    adj: Seq<(Seq<char>, Seq<Seq<char>>)>,
    closed: Seq<Seq<char>>,
    n: nat,
    t: int,
)
    requires
        n <= tables.len(),
    ensures
        blocked_positions(tables, adj, closed, n).contains(t) == (0 <= t < n && has_blocked(
            tables[t],
            adj,
            closed,
        )),
    decreases n,
{
    if n > 0 {
        let m = (n - 1) as nat;
        lemma_blocked_positions(tables, adj, closed, m, t);
        vstd::seq_lib::lemma_seq_contains_after_push(
            blocked_positions(tables, adj, closed, m),
            n - 1,
            t,
        );
    }
}

/// The blocked items are those whose dependencies, as the cells list them, lead to work that
/// is not closed. Whatever is found is such an item, and every such item is found.
pub proof fn law_blocked_items_wait_for_open_work(
    board: Seq<Table>,
    tables: Seq<Table>,
    found: Seq<usize>,
    t: int,
)
    requires
        position_views(found) == blocked_positions(
            tables,
            dependencies(tables, tables.len()),
            closed_spec(board, board.len()),
            tables.len(),
        ),
    ensures
        position_views(found).contains(t) == (0 <= t < tables.len() && exists|row: int| #[trigger]
            row_waits(board, tables, tables[t], row)),
{
    let adj = dependencies(tables, tables.len());
    let closed = closed_spec(board, board.len());
    lemma_blocked_positions(tables, adj, closed, tables.len(), t);
    if 0 <= t < tables.len() {
        let table = tables[t];
        if has_blocked(table, adj, closed) {
            let row = choose|row: int|
                0 <= row < columns::table_rows(table) && is_blocked(
                    adj,
                    closed,
                    (#[trigger] columns::text_cell(table, ID as int, row)).value,
                    columns::text_cell(table, STATUS as int, row).value,
                );
            lemma_row_waits(board, tables, table, row);
            assert(row_waits(board, tables, table, row));
        }
        if exists|row: int| #[trigger] row_waits(board, tables, table, row) {
            let row = choose|row: int| #[trigger] row_waits(board, tables, table, row);
            lemma_row_waits(board, tables, table, row);
            assert(is_blocked(
                adj,
                closed,
                columns::text_cell(table, ID as int, row).value,
                columns::text_cell(table, STATUS as int, row).value,
            ));
        }
    }
}

/// A row in no terminal state that lists an id which is neither blank, nor its own, nor
/// closed is blocked, whatever else it lists.
pub proof fn law_one_open_dependency_blocks(
    board: Seq<Table>,
    tables: Seq<Table>,
    found: Seq<usize>,
    t: int,
    row: int,
    id: Seq<char>,
    dep: Seq<char>,
)
    requires
        position_views(found) == blocked_positions(
            tables,
            dependencies(tables, tables.len()),
            closed_spec(board, board.len()),
            tables.len(),
        ),
        0 <= t < tables.len(),
        columns::has_text(tables[t], STATUS as int),
        row_lists(tables[t], row, id, dep),
        ({
            let status = columns::text_cell(tables[t], STATUS as int, row).value;
            status != "done"@ && status != "complete"@ && status != "abandoned"@ && status
                != "retired"@
        }),
        dep != id,
        text::trim_spec(dep).len() > 0,
        !board_closes(board, dep),
    ensures
        position_views(found).contains(t),
{
    law_blocked_items_wait_for_open_work(board, tables, found, t);
    let path = seq![id, dep];
    assert(board_lists(tables, path[0], path[1]));
    assert(path_goes_on(tables, path, 0));
    assert(path_to_open_work(board, tables, path));
    assert(row_waits(board, tables, tables[t], row));
}

// ---- chains as they are shown ------------------------------------------------------------------------------------------

proof fn lemma_shown_in(before: Seq<char>, part: Seq<char>, after: Seq<char>)
    ensures
        text::contains_spec(before + part + after, part),
{
    assert(part.subrange(0, part.len() as int) =~= part);
    assert(text::occurs_at(part, part, 0));
    text::lemma_contains_in_part(before, part, after, part);
}

proof fn lemma_stays_shown(before: Seq<char>, all: Seq<char>, part: Seq<char>)
    requires
        text::contains_spec(before, part),
        before.is_prefix_of(all),
    ensures
        text::contains_spec(all, part),
{
    let none = Seq::<char>::empty();
    let rest = all.skip(before.len() as int);
    text::lemma_contains_in_part(none, before, rest, part);
    assert(none + before + rest =~= all);
}

/// How a link of a chain is shown: its id and its status.
pub open spec fn link_text(map: Seq<(Seq<char>, Seq<char>)>, id: Seq<char>) -> Seq<char> {
    "→ "@ + id + " ["@ + status_of(map, id) + "]"@
}

proof fn lemma_arrow()
    ensures
        " → "@ == seq![' '] + "→ "@,
{
    reveal_strlit(" → ");
    reveal_strlit("→ ");
    assert(" → "@ =~= seq![' '] + "→ "@);
}

proof fn lemma_last_link(before: Seq<char>, id: Seq<char>, status: Seq<char>)
    ensures
        text::contains_spec(
            before + " → "@ + id + " ["@ + status + "]"@,
            "→ "@ + id + " ["@ + status + "]"@,
        ),
{
    let arrow = "→ "@;
    let part = arrow + id + " ["@ + status + "]"@;
    let none = Seq::<char>::empty();
    lemma_arrow();
    let head = before + seq![' '];
    lemma_regroup(before, seq![' '], arrow);
    lemma_regroup(head, arrow, id);
    lemma_regroup(head, arrow + id, " ["@);
    lemma_regroup(head, arrow + id + " ["@, status);
    lemma_regroup(head, arrow + id + " ["@ + status, "]"@);
    lemma_shown_in(head, part, none);
    assert(head + part + none =~= head + part);
}

proof fn lemma_regroup(a: Seq<char>, b: Seq<char>, c: Seq<char>)
    ensures
        a + b + c == a + (b + c),
{
    assert(a + b + c =~= a + (b + c));
}

proof fn lemma_links(
    s: Seq<char>,
    chain: Seq<(Seq<char>, nat)>,
    map: Seq<(Seq<char>, Seq<char>)>,
    n: nat,
    i: int,
)
    requires
        0 <= i < n <= chain.len(),
    ensures
        text::contains_spec(with_links(s, chain, map, n), link_text(map, chain[i].0)),
    decreases n,
{
    let before = with_links(s, chain, map, (n - 1) as nat);
    let all = with_links(s, chain, map, n);
    if i == n - 1 {
        lemma_last_link(before, chain[i].0, status_of(map, chain[i].0));
    } else {
        lemma_links(s, chain, map, (n - 1) as nat, i);
        assert(before.is_prefix_of(all));
        lemma_stays_shown(before, all, link_text(map, chain[i].0));
    }
}

/// The chain of an item shows all that it depends on within ten steps, each with its
/// status.
pub proof fn law_chains_show_what_is_near(
    adj: Seq<(Seq<char>, Seq<Seq<char>>)>,
    map: Seq<(Seq<char>, Seq<char>)>,
    id: Seq<char>,
    x: Seq<char>,
)
    requires
        x != id,
        traversal::within(adj, id, x, 10),
    ensures
        text::contains_spec(chain_line_spec(adj, map, id), link_text(map, x)),
        text::contains_spec(blockers_text(adj, map, id), link_text(map, x)),
        text::contains_spec(dependencies_text(adj, id), "→ "@ + x + " (depth "@),
{
    let chain = chain_of(adj, id, 10);
    traversal::law_search_finds_what_is_near(adj, id, 10);
    assert(traversal::finds(chain, x));
    let i = choose|i: int| 0 <= i < chain.len() && (#[trigger] chain[i]).0 == x;
    let head = "  "@ + id;
    lemma_links(head, chain, map, chain.len(), i);
    let links = with_links(head, chain, map, chain.len());
    assert(links.is_prefix_of(links + "\n"@));
    lemma_stays_shown(links, links + "\n"@, link_text(map, x));
    lemma_blockers("Blockers of "@ + id + ":\n"@, chain, map, chain.len(), i);
    lemma_depths("Dependencies of "@ + id + ":\n"@, chain, chain.len(), i);
}

proof fn lemma_bracket()
    ensures
        "]\n"@ == "]"@ + seq!['\n'],
{
    reveal_strlit("]");
    reveal_strlit("]\n");
    assert("]\n"@ =~= "]"@ + seq!['\n']);
}

proof fn lemma_last_blocker(head: Seq<char>, id: Seq<char>, status: Seq<char>)
    ensures
        text::contains_spec(
            head + "→ "@ + id + " ["@ + status + "]\n"@,
            "→ "@ + id + " ["@ + status + "]"@,
        ),
{
    let arrow = "→ "@;
    let part = arrow + id + " ["@ + status + "]"@;
    lemma_bracket();
    lemma_regroup(head, arrow, id);
    lemma_regroup(head, arrow + id, " ["@);
    lemma_regroup(head, arrow + id + " ["@, status);
    lemma_regroup(head + (arrow + id + " ["@ + status), "]"@, seq!['\n']);
    lemma_regroup(head, arrow + id + " ["@ + status, "]"@);
    lemma_shown_in(head, part, seq!['\n']);
}

proof fn lemma_blockers(
    s: Seq<char>,
    chain: Seq<(Seq<char>, nat)>,
    map: Seq<(Seq<char>, Seq<char>)>,
    n: nat,
    i: int,
)
    requires
        0 <= i < n <= chain.len(),
    ensures
        text::contains_spec(with_blockers(s, chain, map, n), link_text(map, chain[i].0)),
    decreases n,
{
    let before = with_blockers(s, chain, map, (n - 1) as nat);
    let all = with_blockers(s, chain, map, n);
    if i == n - 1 {
        let head = before + "  "@ + indent_spec(chain[i].1);
        lemma_last_blocker(head, chain[i].0, status_of(map, chain[i].0));
    } else {
        lemma_blockers(s, chain, map, (n - 1) as nat, i);
        assert(before.is_prefix_of(all));
        lemma_stays_shown(before, all, link_text(map, chain[i].0));
    }
}

proof fn lemma_depths(s: Seq<char>, chain: Seq<(Seq<char>, nat)>, n: nat, i: int)
    requires
        0 <= i < n <= chain.len(),
    ensures
        text::contains_spec(with_dependencies(s, chain, n), "→ "@ + chain[i].0 + " (depth "@),
    decreases n,
{
    let before = with_dependencies(s, chain, (n - 1) as nat);
    let all = with_dependencies(s, chain, n);
    let part = "→ "@ + chain[i].0 + " (depth "@;
    if i == n - 1 {
        let head = before + "  "@ + indent_spec(chain[i].1);
        let tail = text::decimal_spec(chain[i].1) + ")\n"@;
        lemma_shown_in(head, part, tail);
        assert(head + part + tail =~= all);
    } else {
        lemma_depths(s, chain, (n - 1) as nat, i);
        assert(before.is_prefix_of(all));
        lemma_stays_shown(before, all, part);
    }
}

/// The status that is shown of an item is that of its last entry, or a question mark.
pub proof fn law_statuses_are_looked_up(
    map: Seq<(Seq<char>, Seq<char>)>,
    id: Seq<char>,
    i: int,
)
    requires
        0 <= i <= map.len(),
        forall|k: int| i <= k < map.len() ==> (#[trigger] map[k]).0 != id,
        i > 0 ==> map[i - 1].0 == id,
    ensures
        status_of(map, id) == (if i > 0 {
            map[i - 1].1
        } else {
            "?"@
        }),
{
    keyed::lemma_lookup(map, id, i);
}

proof fn lemma_listed_lines(
    cells: Seq<columns::Cell<Seq<char>>>,
    mark: Seq<char>,
    n: nat,
    i: int,
)
    requires
        0 <= i < n <= cells.len(),
        cells[i].valid,
    ensures
        listed(cells, mark, n).contains("    "@ + mark + " "@ + cells[i].value),
    decreases n,
{
    let before = listed(cells, mark, (n - 1) as nat);
    let line = "    "@ + mark + " "@ + cells[i].value;
    vstd::seq_lib::lemma_seq_contains_after_push(
        before,
        "    "@ + mark + " "@ + cells[n - 1].value,
        line,
    );
    if i < n - 1 {
        lemma_listed_lines(cells, mark, (n - 1) as nat, i);
    }
}

/// The relations of an item show each dependency and each related item of its lists, each
/// typed relation, and all that it depends on within ten steps.
pub proof fn law_relations_are_all_shown(
    id: Seq<char>,
    table: Table,
    edges: Seq<(Seq<char>, Seq<char>, Seq<char>)>,
    adj: Seq<(Seq<char>, Seq<Seq<char>>)>,
    x: Seq<char>,
    e: int,
)
    ensures
        ({
            let lines = relations_lines(id, Some(table), edges, adj);
            &&& lists_text(table, DEPENDS_ON as int, x) ==> lines.contains(
                "    "@ + "→"@ + " "@ + x,
            )
            &&& lists_text(table, RELATED as int, x) ==> lines.contains("    "@ + "↔"@ + " "@ + x)
            &&& 0 <= e < edges.len() ==> lines.contains(
                "    "@ + edges[e].0 + " -"@ + edges[e].1 + "-> "@ + edges[e].2,
            )
            &&& x != id && traversal::within(adj, id, x, 10) ==> exists|d: nat|
                0 < d <= 10 && traversal::distance_is(adj, id, x, d) && lines.contains(
                    "    "@ + #[trigger] indent_spec(d) + "↳ "@ + x + " (depth "@
                        + text::decimal_spec(d) + ")"@,
                )
        }),
{
    let a = list_lines(table, DEPENDS_ON as int, "  Depends on:"@, "→"@);
    let b = list_lines(table, RELATED as int, "  Related:"@, "↔"@);
    let c = edge_lines(edges);
    let chain = chain_of(adj, id, 10);
    let d = chain_lines(chain);
    let found = a + b + c + d;
    let lines = relations_lines(id, Some(table), edges, adj);
    if lists_text(table, DEPENDS_ON as int, x) {
        let line = "    "@ + "→"@ + " "@ + x;
        lemma_list_line(table, DEPENDS_ON as int, "  Depends on:"@, "→"@, x);
        lemma_in_found(a, b, c, d, line);
    }
    if lists_text(table, RELATED as int, x) {
        let line = "    "@ + "↔"@ + " "@ + x;
        lemma_list_line(table, RELATED as int, "  Related:"@, "↔"@, x);
        lemma_in_found(a, b, c, d, line);
    }
    if 0 <= e < edges.len() {
        let line = "    "@ + edges[e].0 + " -"@ + edges[e].1 + "-> "@ + edges[e].2;
        assert(c[1 + e] == line);
        lemma_in_found(a, b, c, d, line);
    }
    if x != id && traversal::within(adj, id, x, 10) {
        traversal::law_search_finds_what_is_near(adj, id, 10);
        assert(traversal::finds(chain, x));
        let i = choose|i: int| 0 <= i < chain.len() && (#[trigger] chain[i]).0 == x;
        let k = chain[i].1;
        let line = "    "@ + indent_spec(k) + "↳ "@ + x + " (depth "@ + text::decimal_spec(k)
            + ")"@;
        assert(d[1 + i] == line);
        lemma_in_found(a, b, c, d, line);
    }
}

/// Whether the list of a column has a text in the first row.
pub open spec fn lists_text(table: Table, col: int, x: Seq<char>) -> bool {
    let list = columns::list_cell(table, col, 0);
    &&& columns::has_lists(table, col)
    &&& list.valid
    &&& list.value matches columns::ListItems::Texts(cells) && exists|i: int|
        0 <= i < cells.len() && (#[trigger] cells[i]).valid && cells[i].value == x
}

proof fn lemma_list_line(table: Table, col: int, title: Seq<char>, mark: Seq<char>, x: Seq<char>)
    requires
        lists_text(table, col, x),
    ensures
        list_lines(table, col, title, mark).contains("    "@ + mark + " "@ + x),
{
    let cells = columns::list_cell(table, col, 0).value->Texts_0;
    let i = choose|i: int| 0 <= i < cells.len() && (#[trigger] cells[i]).valid && cells[i].value == x;
    lemma_listed_lines(cells, mark, cells.len(), i);
    vstd::seq_lib::lemma_seq_concat_contains_all_elements(
        seq![title],
        listed(cells, mark, cells.len()),
        "    "@ + mark + " "@ + x,
    );
}

proof fn lemma_in_found(
    a: Seq<Seq<char>>,
    b: Seq<Seq<char>>,
    c: Seq<Seq<char>>,
    d: Seq<Seq<char>>,
    line: Seq<char>,
)
    requires
        a.contains(line) || b.contains(line) || c.contains(line) || d.contains(line),
    ensures
        (a + b + c + d).len() > 0,
        (relations_head() + (a + b + c + d)).contains(line),
{
    vstd::seq_lib::lemma_seq_concat_contains_all_elements(a, b, line);
    vstd::seq_lib::lemma_seq_concat_contains_all_elements(a + b, c, line);
    vstd::seq_lib::lemma_seq_concat_contains_all_elements(a + b + c, d, line);
    vstd::seq_lib::lemma_seq_concat_contains_all_elements(relations_head(), a + b + c + d, line);
}

/// The statuses of a board are those of all rows of its tables with ids and statuses.
pub proof fn law_statuses_are_those_of_the_rows(
    tables: Seq<Table>,
    n: nat,
    id: Seq<char>,
    status: Seq<char>,
)
    requires
        n <= tables.len(),
    ensures
        statuses(tables, n).contains((id, status)) <==> exists|t: int, row: int|
            0 <= t < n && #[trigger] row_has_status(tables[t], row, id, status),
    decreases n,
{
    if n > 0 {
        let m = (n - 1) as nat;
        law_statuses_are_those_of_the_rows(tables, m, id, status);
        let table = tables[n - 1];
        let here = Seq::new(
            columns::table_rows(table),
            |row: int|
                (
                    columns::text_cell(table, ID as int, row).value,
                    columns::text_cell(table, STATUS as int, row).value,
                ),
        );
        vstd::seq_lib::lemma_seq_concat_contains_all_elements(
            statuses(tables, m),
            here,
            (id, status),
        );
        if here.contains((id, status)) && has_statuses(table) {
            let row = choose|row: int| 0 <= row < here.len() && here[row] == (id, status);
            assert(row_has_status(tables[n - 1], row, id, status));
        }
        if exists|row: int| #[trigger] row_has_status(table, row, id, status) {
            let row = choose|row: int| #[trigger] row_has_status(table, row, id, status);
            assert(here[row] == (id, status));
        }
        if exists|t: int, row: int|
            0 <= t < m && #[trigger] row_has_status(tables[t], row, id, status) {
            let (t, row) = choose|t: int, row: int|
                0 <= t < m && #[trigger] row_has_status(tables[t], row, id, status);
            assert(0 <= t < n && row_has_status(tables[t], row, id, status));
        }
    }
}

/// Whether a row has an id and a status.
pub open spec fn row_has_status(table: Table, row: int, id: Seq<char>, status: Seq<char>) -> bool {
    &&& columns::has_text(table, ID as int)
    &&& columns::has_text(table, STATUS as int)
    &&& 0 <= row < columns::table_rows(table)
    &&& columns::text_cell(table, ID as int, row).value == id
    &&& columns::text_cell(table, STATUS as int, row).value == status
}

} // verus!
