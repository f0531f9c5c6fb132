//! Walking the graph of a board: adjacency lists read from a table, and
//! breadth-first search over them.
use vstd::prelude::*;
use crate::columns;
use crate::columns::Table;
use crate::graph;
use crate::text;

verus! {

/// Which way an edge is followed.
#[derive(Debug, Clone, Copy, PartialEq, Eq, Structural)]
pub enum Direction {
    /// From an item to what its list names.
    Forward,
    /// From what an item's list names to the item.
    Reverse,
}

/// An item reached by a search, with its distance from the start.
#[derive(Debug, Clone)]
pub struct TraversalNode {
    pub id: String,
    pub depth: usize,
}

// ---- adjacency ----------------------------------------------------------------------------

/// What a list of adjacency lists holds.
pub open spec fn adjacency_views(adj: Seq<(String, Vec<String>)>) -> Seq<
    (Seq<char>, Seq<Seq<char>>),
> {
    Seq::new(adj.len(), |i: int| (adj[i].0@, text::views(adj[i].1@)))
}

/// Where a node stands in a list of adjacency lists.
pub open spec fn node_position(adj: Seq<(Seq<char>, Seq<Seq<char>>)>, node: Seq<char>) -> Option<int>
    decreases adj.len(),
{
    if adj.len() == 0 {
        None
    } else if adj.last().0 == node {
        Some(adj.len() - 1)
    } else {
        node_position(adj.drop_last(), node)
    }
}

/// The neighbours of a node.
pub open spec fn neighbors(adj: Seq<(Seq<char>, Seq<Seq<char>>)>, node: Seq<char>) -> Seq<Seq<char>> {
    match node_position(adj, node) {
        Some(i) => adj[i].1,
        None => Seq::empty(),
    }
}

/// The lists with one more edge.
pub open spec fn with_edge(
    adj: Seq<(Seq<char>, Seq<Seq<char>>)>,
    from: Seq<char>,
    to: Seq<char>,
) -> Seq<(Seq<char>, Seq<Seq<char>>)> {
    match node_position(adj, from) {
        Some(i) => adj.update(i, (from, adj[i].1.push(to))),
        None => adj.push((from, seq![to])),
    }
}

/// The adjacency lists of the first `n` edges.
pub open spec fn grouped(edges: Seq<(Seq<char>, Seq<char>)>, n: nat) -> Seq<
    (Seq<char>, Seq<Seq<char>>),
>
    decreases n,
{
    if n == 0 {
        Seq::empty()
    } else {
        with_edge(grouped(edges, (n - 1) as nat), edges[n - 1].0, edges[n - 1].1)
    }
}

pub proof fn lemma_node_position(adj: Seq<(Seq<char>, Seq<Seq<char>>)>, node: Seq<char>, i: int)
    requires
        0 <= i <= adj.len(),
        forall|k: int| i <= k < adj.len() ==> (#[trigger] adj[k]).0 != node,
        i > 0 ==> adj[i - 1].0 == node,
    ensures
        node_position(adj, node) == (if i > 0 {
            Some(i - 1)
        } else {
            None::<int>
        }),
    decreases adj.len(),
{
    if adj.len() > 0 && i < adj.len() {
        assert(adj[adj.len() - 1].0 != node);
        lemma_node_position(adj.drop_last(), node, i);
    }
}

fn find_node(adj: &Vec<(String, Vec<String>)>, node: &str) -> (r: Option<usize>)
    ensures
        r is Some == node_position(adjacency_views(adj@), node@) is Some,
        r is Some ==> r->0 == node_position(adjacency_views(adj@), node@)->0 && r->0 < adj.len(),
{
    let ghost views = adjacency_views(adj@);
    let mut i: usize = adj.len();
    while i > 0 && !text::same(adj[i - 1].0.as_str(), node)
        invariant
            i <= adj@.len(),
            views == adjacency_views(adj@),
            forall|k: int| i <= k < views.len() ==> (#[trigger] views[k]).0 != node@,
        decreases i,
    {
        i = i - 1;
    }
    proof {
        lemma_node_position(views, node@, i as int);
    }
    if i > 0 {
        Some(i - 1)
    } else {
        None
    }
}

/// Adds an edge to adjacency lists.
pub fn add_edge(adj: &mut Vec<(String, Vec<String>)>, from: String, to: String)
    ensures
        adjacency_views(final(adj)@) == with_edge(adjacency_views(old(adj)@), from@, to@),
{
    let ghost start = adjacency_views(adj@);
    match find_node(adj, from.as_str()) {
        Some(i) => {
            let mut list: Vec<String> = text::clone_strings(&adj[i].1);
            let ghost before = text::views(list@);
            let ghost target = to@;
            list.push(to);
            assert(text::views(list@) =~= before.push(target));
            let ghost now = (from@, text::views(list@));
            adj.set(i, (from, list));
            assert(adjacency_views(adj@) =~= start.update(i as int, now));
        },
        None => {
            let mut list: Vec<String> = Vec::new();
            let ghost target = to@;
            list.push(to);
            assert(text::views(list@) =~= seq![target]);
            let ghost now = (from@, text::views(list@));
            adj.push((from, list));
            assert(adjacency_views(adj@) =~= start.push(now));
        },
    }
}

/// The edges that the first `n` texts of a list make with an item; null texts make
/// none.
pub open spec fn list_edges(
    id: Seq<char>,
    list: Seq<columns::Cell<Seq<char>>>,
    direction: Direction,
    n: nat,
) -> Seq<(Seq<char>, Seq<char>)>
    decreases n,
{
    if n == 0 {
        Seq::empty()
    } else {
        let before = list_edges(id, list, direction, (n - 1) as nat);
        let item = list[n - 1];
        if !item.valid {
            before
        } else if direction == Direction::Forward {
            before.push((id, item.value))
        } else {
            before.push((item.value, id))
        }
    }
}

/// The edges of the first `n` rows of a table.
pub open spec fn row_edges(table: Table, id_col: int, list_col: int, direction: Direction, n: nat) -> Seq<
    (Seq<char>, Seq<char>),
>
    decreases n,
{
    if n == 0 {
        Seq::empty()
    } else {
        let before = row_edges(table, id_col, list_col, direction, (n - 1) as nat);
        let list = columns::list_cell(table, list_col, n - 1);
        if list.valid && list.value is Texts {
            before + list_edges(
                columns::text_cell(table, id_col, n - 1).value,
                list.value->Texts_0,
                direction,
                list.value->Texts_0.len(),
            )
        } else {
            before
        }
    }
}

/// The edges of a table: none where the columns are not of texts and of lists.
pub open spec fn edges_of(table: Table, id_col: int, list_col: int, direction: Direction) -> Seq<
    (Seq<char>, Seq<char>),
> {
    if columns::table_rows(table) > 0 && columns::has_text(table, id_col) && columns::has_lists(
        table,
        list_col,
    ) {
        row_edges(table, id_col, list_col, direction, columns::table_rows(table))
    } else {
        Seq::empty()
    }
}

/// Adds the edges of one row's list.
fn add_list_edges(
    adj: &mut Vec<(String, Vec<String>)>,
    table: &Table,
    id_col: usize,
    list_col: usize,
    row: usize,
    direction: Direction,
    Ghost(edges): Ghost<Seq<(Seq<char>, Seq<char>)>>,
)
    requires
        columns::has_text(*table, id_col as int),
        columns::has_lists(*table, list_col as int),
        row < columns::table_rows(*table),
        columns::list_cell(*table, list_col as int, row as int).value is Texts,
        adjacency_views(old(adj)@) == grouped(edges, edges.len()),
    ensures
        ({
            let list = columns::list_cell(*table, list_col as int, row as int).value->Texts_0;
            let all = edges + list_edges(
                columns::text_cell(*table, id_col as int, row as int).value,
                list,
                direction,
                list.len(),
            );
            adjacency_views(final(adj)@) == grouped(all, all.len())
        }),
{
    let ghost list = columns::list_cell(*table, list_col as int, row as int).value->Texts_0;
    let ghost id = columns::text_cell(*table, id_col as int, row as int).value;
    let n: usize = columns::list_value_len(table, list_col, row);
    let mut i: usize = 0;
    assert(edges + list_edges(id, list, direction, 0) =~= edges);
    while i < n
        invariant
            i <= n,
            n == list.len(),
            columns::has_text(*table, id_col as int),
            columns::has_lists(*table, list_col as int),
            row < columns::table_rows(*table),
            columns::list_cell(*table, list_col as int, row as int).value is Texts,
            list == columns::list_cell(*table, list_col as int, row as int).value->Texts_0,
            id == columns::text_cell(*table, id_col as int, row as int).value,
            ({
                let all = edges + list_edges(id, list, direction, i as nat);
                adjacency_views(adj@) == grouped(all, all.len())
            }),
        decreases n - i,
    {
        let ghost before = edges + list_edges(id, list, direction, i as nat);
        if !columns::list_text_is_null(table, list_col, row, i) {
            let item: String = columns::text_value(table, id_col, row);
            let other: String = columns::list_text_value(table, list_col, row, i);
            let ghost edge = if direction == Direction::Forward {
                (id, other@)
            } else {
                (other@, id)
            };
            proof {
                let after = edges + list_edges(id, list, direction, (i + 1) as nat);
                assert(after =~= before.push(edge));
                lemma_grouped_prefix(before, before.push(edge), before.len());
            }
            if direction == Direction::Forward {
                add_edge(adj, item, other);
            } else {
                add_edge(adj, other, item);
            }
        }
        i = i + 1;
    }
}

proof fn lemma_grouped_prefix(
    a: Seq<(Seq<char>, Seq<char>)>,
    b: Seq<(Seq<char>, Seq<char>)>,
    n: nat,
)
    requires
        n <= a.len(),
        n <= b.len(),
        forall|k: int| 0 <= k < n ==> a[k] == b[k],
    ensures
        grouped(a, n) == grouped(b, n),
    decreases n,
{
    if n > 0 {
        lemma_grouped_prefix(a, b, (n - 1) as nat);
    }
}

/// Reads adjacency lists from a table: for every row an edge from the row's id to
/// each text of its list, or the other way round. Null lists and null texts are
/// passed over.
pub fn build_adjacency_from_list(
    table: &Table,
    id_col: usize,
    list_col: usize,
    direction: Direction,
) -> (r: Vec<(String, Vec<String>)>)
    requires
        columns::table_rows(*table) > 0 ==> id_col < columns::table_columns(*table).len()
            && list_col < columns::table_columns(*table).len(),
    ensures
        ({
            let edges = edges_of(*table, id_col as int, list_col as int, direction);
            adjacency_views(r@) == grouped(edges, edges.len())
        }),
{
    let mut adj: Vec<(String, Vec<String>)> = Vec::new();
    assert(adjacency_views(adj@) =~= Seq::<(Seq<char>, Seq<Seq<char>>)>::empty());
    let n: usize = columns::num_rows(table);
    if n == 0 || !columns::is_text(table, id_col) || !columns::is_lists(table, list_col) {
        return adj;
    }
    let mut row: usize = 0;
    while row < n
        invariant
            row <= n,
            n == columns::table_rows(*table),
            columns::has_text(*table, id_col as int),
            columns::has_lists(*table, list_col as int),
            ({
                let edges = row_edges(
                    *table,
                    id_col as int,
                    list_col as int,
                    direction,
                    row as nat,
                );
                adjacency_views(adj@) == grouped(edges, edges.len())
            }),
        decreases n - row,
    {
        let ghost edges = row_edges(
            *table,
            id_col as int,
            list_col as int,
            direction,
            row as nat,
        );
        if !columns::list_is_null(table, list_col, row) && columns::list_is_text(
            table,
            list_col,
            row,
        ) {
            add_list_edges(&mut adj, table, id_col, list_col, row, direction, Ghost(edges));
        }
        row = row + 1;
    }
    adj
}

// ---- search ---------------------------------------------------------------------------------

/// The nodes found so far, and those of the first `n` further ones that were neither
/// seen nor found before.
pub open spec fn add_unseen(
    found: Seq<Seq<char>>,
    seen: Seq<Seq<char>>,
    list: Seq<Seq<char>>,
    n: nat,
) -> Seq<Seq<char>>
    decreases n,
{
    if n == 0 {
        found
    } else {
        let before = add_unseen(found, seen, list, (n - 1) as nat);
        if seen.contains(list[n - 1]) || before.contains(list[n - 1]) {
            before
        } else {
            before.push(list[n - 1])
        }
    }
}

/// The neighbours of the first `n` nodes of a frontier that were not seen before, in
/// the order in which they are found.
pub open spec fn next_frontier(
    adj: Seq<(Seq<char>, Seq<Seq<char>>)>,
    frontier: Seq<Seq<char>>,
    seen: Seq<Seq<char>>,
    n: nat,
) -> Seq<Seq<char>>
    decreases n,
{
    if n == 0 {
        Seq::empty()
    } else {
        let list = neighbors(adj, frontier[n - 1]);
        add_unseen(next_frontier(adj, frontier, seen, (n - 1) as nat), seen, list, list.len())
    }
}

/// What a search finds from a frontier at a depth, up to a limit: its nodes with
/// their depths, nearest first.
pub open spec fn search(
    adj: Seq<(Seq<char>, Seq<Seq<char>>)>,
    frontier: Seq<Seq<char>>,
    seen: Seq<Seq<char>>,
    depth: nat,
    limit: nat,
) -> Seq<(Seq<char>, nat)>
    decreases limit - depth,
{
    if depth >= limit {
        Seq::empty()
    } else {
        let next = next_frontier(adj, frontier, seen, frontier.len());
        Seq::new(next.len(), |i: int| (next[i], depth + 1)) + search(
            adj,
            next,
            seen + next,
            depth + 1,
            limit,
        )
    }
}

pub open spec fn node_views(nodes: Seq<TraversalNode>) -> Seq<(Seq<char>, nat)> {
    Seq::new(nodes.len(), |i: int| (nodes[i].id@, nodes[i].depth as nat))
}

fn push_unseen(found: &mut Vec<String>, seen: &Vec<String>, list: &Vec<String>)
    ensures
        text::views(final(found)@) == add_unseen(
            text::views(old(found)@),
            text::views(seen@),
            text::views(list@),
            list@.len(),
        ),
{
    let ghost start = text::views(found@);
    let mut i: usize = 0;
    while i < list.len()
        invariant
            i <= list@.len(),
            text::views(found@) == add_unseen(
                start,
                text::views(seen@),
                text::views(list@),
                i as nat,
            ),
        decreases list@.len() - i,
    {
        if !text::contains_string(seen, list[i].as_str()) && !text::contains_string(
            found,
            list[i].as_str(),
        ) {
            let ghost before = text::views(found@);
            found.push(list[i].clone());
            assert(text::views(found@) =~= before.push(text::views(list@)[i as int]));
        }
        i = i + 1;
    }
}

fn find_next(adj: &Vec<(String, Vec<String>)>, frontier: &Vec<String>, seen: &Vec<String>) -> (r:
    Vec<String>)
    ensures
        text::views(r@) == next_frontier(
            adjacency_views(adj@),
            text::views(frontier@),
            text::views(seen@),
            frontier@.len(),
        ),
{
    let ghost lists = adjacency_views(adj@);
    let mut r: Vec<String> = Vec::new();
    let mut i: usize = 0;
    assert(text::views(r@) =~= Seq::<Seq<char>>::empty());
    while i < frontier.len()
        invariant
            i <= frontier@.len(),
            lists == adjacency_views(adj@),
            text::views(r@) == next_frontier(
                lists,
                text::views(frontier@),
                text::views(seen@),
                i as nat,
            ),
        decreases frontier@.len() - i,
    {
        match find_node(adj, frontier[i].as_str()) {
            Some(k) => {
                assert(lists[k as int].1 == text::views(adj@[k as int].1@));
                push_unseen(&mut r, seen, &adj[k].1);
            },
            None => {},
        }
        i = i + 1;
    }
    r
}

proof fn lemma_search_empty(
    adj: Seq<(Seq<char>, Seq<Seq<char>>)>,
    seen: Seq<Seq<char>>,
    depth: nat,
    limit: nat,
)
    ensures
        search(adj, Seq::empty(), seen, depth, limit) == Seq::<(Seq<char>, nat)>::empty(),
    decreases limit - depth,
{
    if depth < limit {
        let none = Seq::<Seq<char>>::empty();
        assert(next_frontier(adj, none, seen, 0) == none);
        assert(seen + none =~= seen);
        lemma_search_empty(adj, seen, depth + 1, limit);
        assert(search(adj, none, seen, depth, limit) =~= Seq::<(Seq<char>, nat)>::empty());
    }
}

/// Breadth-first search from a start over adjacency lists, up to `max_depth` steps.
///
/// The start itself is not among the nodes it returns.
pub fn bfs_with_adjacency(
    start_id: &str,
    adj: &Vec<(String, Vec<String>)>,
    max_depth: usize,
) -> (r: Vec<TraversalNode>)
    ensures
        node_views(r@) == search(
            adjacency_views(adj@),
            seq![start_id@],
            seq![start_id@],
            0,
            max_depth as nat,
        ),
{
    let ghost lists = adjacency_views(adj@);
    let ghost whole = search(lists, seq![start_id@], seq![start_id@], 0, max_depth as nat);
    let mut frontier: Vec<String> = Vec::new();
    frontier.push(text::owned(start_id));
    let mut seen: Vec<String> = Vec::new();
    seen.push(text::owned(start_id));
    assert(text::views(frontier@) =~= seq![start_id@]);
    assert(text::views(seen@) =~= seq![start_id@]);
    let mut r: Vec<TraversalNode> = Vec::new();
    let mut depth: usize = 0;
    assert(node_views(r@) + search(lists, text::views(frontier@), text::views(seen@), 0, max_depth as nat)
        =~= whole);
    while depth < max_depth && frontier.len() > 0
        invariant
            depth <= max_depth,
            lists == adjacency_views(adj@),
            node_views(r@) + search(
                lists,
                text::views(frontier@),
                text::views(seen@),
                depth as nat,
                max_depth as nat,
            ) == whole,
        decreases max_depth - depth,
    {
        let next: Vec<String> = find_next(adj, &frontier, &seen);
        let ghost before = node_views(r@);
        let ghost old_seen = text::views(seen@);
        let ghost names = text::views(next@);
        let ghost level = Seq::new(names.len(), |i: int| (names[i], depth as nat + 1));
        let mut i: usize = 0;
        assert(before =~= before + level.take(0));
        assert(old_seen =~= old_seen + names.take(0));
        while i < next.len()
            invariant
                i <= next@.len(),
                depth < max_depth,
                names == text::views(next@),
                level == Seq::new(names.len(), |i: int| (names[i], depth as nat + 1)),
                node_views(r@) == before + level.take(i as int),
                text::views(seen@) == old_seen + names.take(i as int),
            decreases next@.len() - i,
        {
            let ghost nodes = node_views(r@);
            let ghost so_far = text::views(seen@);
            r.push(TraversalNode { id: next[i].clone(), depth: depth + 1 });
            assert(node_views(r@) =~= nodes.push(level[i as int]));
            assert(node_views(r@) =~= before + level.take(i + 1));
            seen.push(next[i].clone());
            assert(text::views(seen@) =~= so_far.push(names[i as int]));
            assert(text::views(seen@) =~= old_seen + names.take(i + 1));
            i = i + 1;
        }
        assert(level.take(i as int) =~= level);
        assert(names.take(i as int) =~= names);
        proof {
            let rest = search(
                lists,
                names,
                old_seen + names,
                depth as nat + 1,
                max_depth as nat,
            );
            assert(before + (level + rest) =~= (before + level) + rest);
        }
        frontier = next;
        depth = depth + 1;
    }
    proof {
        if depth < max_depth {
            assert(text::views(frontier@) =~= Seq::<Seq<char>>::empty());
            lemma_search_empty(lists, text::views(seen@), depth as nat, max_depth as nat);
        }
        assert(node_views(r@) =~= whole);
    }
    r
}

// ---- what holds of a search ------------------------------------------------------------------

/// Whether an edge leads from one node to another.
pub open spec fn hop(adj: Seq<(Seq<char>, Seq<Seq<char>>)>, a: Seq<char>, b: Seq<char>) -> bool {
    neighbors(adj, a).contains(b)
}

/// Whether a node can be reached from the start in at most `k` steps.
pub open spec fn within(
    adj: Seq<(Seq<char>, Seq<Seq<char>>)>,
    start: Seq<char>,
    id: Seq<char>,
    k: nat,
) -> bool
    decreases k,
{
    id == start || (k > 0 && (within(adj, start, id, (k - 1) as nat) || exists|a: Seq<char>|
        within(adj, start, a, (k - 1) as nat) && #[trigger] hop(adj, a, id)))
}

/// Whether `k` is the least number of steps in which a node can be reached.
pub open spec fn distance_is(
    adj: Seq<(Seq<char>, Seq<Seq<char>>)>,
    start: Seq<char>,
    id: Seq<char>,
    k: nat,
) -> bool {
    within(adj, start, id, k) && (k > 0 ==> !within(adj, start, id, (k - 1) as nat))
}

proof fn lemma_within_grows(
    adj: Seq<(Seq<char>, Seq<Seq<char>>)>,
    start: Seq<char>,
    id: Seq<char>,
    j: nat,
    k: nat,
)
    requires
        within(adj, start, id, j),
        j <= k,
    ensures
        within(adj, start, id, k),
    decreases k,
{
    if j < k {
        lemma_within_grows(adj, start, id, j, (k - 1) as nat);
    }
}

proof fn lemma_add_unseen(
    found: Seq<Seq<char>>,
    seen: Seq<Seq<char>>,
    list: Seq<Seq<char>>,
    n: nat,
    x: Seq<char>,
)
    requires
        n <= list.len(),
    ensures
        add_unseen(found, seen, list, n).contains(x) == (found.contains(x) || (!seen.contains(x)
            && list.take(n as int).contains(x))),
    decreases n,
{
    if n == 0 {
        assert(list.take(0).len() == 0);
    } else {
        lemma_add_unseen(found, seen, list, (n - 1) as nat, x);
        let before = add_unseen(found, seen, list, (n - 1) as nat);
        assert(list.take(n as int) =~= list.take(n - 1).push(list[n - 1]));
        vstd::seq_lib::lemma_seq_contains_after_push(list.take(n - 1), list[n - 1], x);
        vstd::seq_lib::lemma_seq_contains_after_push(before, list[n - 1], x);
    }
}

proof fn lemma_add_unseen_distinct(
    found: Seq<Seq<char>>,
    seen: Seq<Seq<char>>,
    list: Seq<Seq<char>>,
    n: nat,
)
    requires
        n <= list.len(),
        found.no_duplicates(),
    ensures
        add_unseen(found, seen, list, n).no_duplicates(),
    decreases n,
{
    if n > 0 {
        lemma_add_unseen_distinct(found, seen, list, (n - 1) as nat);
    }
}

proof fn lemma_next_frontier(
    adj: Seq<(Seq<char>, Seq<Seq<char>>)>,
    frontier: Seq<Seq<char>>,
    seen: Seq<Seq<char>>,
    n: nat,
    x: Seq<char>,
)
    requires
        n <= frontier.len(),
    ensures
        next_frontier(adj, frontier, seen, n).contains(x) == (!seen.contains(x) && exists|k: int|
            0 <= k < n && hop(adj, #[trigger] frontier[k], x)),
        next_frontier(adj, frontier, seen, n).no_duplicates(),
    decreases n,
{
    if n > 0 {
        lemma_next_frontier(adj, frontier, seen, (n - 1) as nat, x);
        let before = next_frontier(adj, frontier, seen, (n - 1) as nat);
        let list = neighbors(adj, frontier[n - 1]);
        lemma_add_unseen(before, seen, list, list.len(), x);
        lemma_add_unseen_distinct(before, seen, list, list.len());
        assert(list.take(list.len() as int) =~= list);
        if !seen.contains(x) {
            if before.contains(x) {
                let k = choose|k: int| 0 <= k < n - 1 && hop(adj, #[trigger] frontier[k], x);
                assert(hop(adj, frontier[k], x));
            }
            if list.contains(x) {
                assert(hop(adj, frontier[n - 1], x));
            }
            if exists|k: int| 0 <= k < n && hop(adj, #[trigger] frontier[k], x) {
                let k = choose|k: int| 0 <= k < n && hop(adj, #[trigger] frontier[k], x);
                if k < n - 1 {
                    assert(hop(adj, frontier[k], x));
                }
            }
        }
    }
}

/// State of a search before the step from depth `k`: the frontier holds the nodes at
/// distance `k` and all nodes within `k` steps have been seen.
spec fn at_level(
    adj: Seq<(Seq<char>, Seq<Seq<char>>)>,
    start: Seq<char>,
    frontier: Seq<Seq<char>>,
    seen: Seq<Seq<char>>,
    k: nat,
) -> bool {
    &&& forall|x: Seq<char>| #[trigger] seen.contains(x) == within(adj, start, x, k)
    &&& forall|x: Seq<char>| #[trigger] frontier.contains(x) == distance_is(adj, start, x, k)
}

proof fn lemma_level_step(
    adj: Seq<(Seq<char>, Seq<Seq<char>>)>,
    start: Seq<char>,
    frontier: Seq<Seq<char>>,
    seen: Seq<Seq<char>>,
    k: nat,
)
    requires
        at_level(adj, start, frontier, seen, k),
    ensures
        ({
            let next = next_frontier(adj, frontier, seen, frontier.len());
            at_level(adj, start, next, seen + next, k + 1)
        }),
{
    let next = next_frontier(adj, frontier, seen, frontier.len());
    assert forall|x: Seq<char>| #[trigger] next.contains(x) == distance_is(
        adj,
        start,
        x,
        k + 1,
    ) by {
        lemma_next_frontier(adj, frontier, seen, frontier.len(), x);
        assert(seen.contains(x) == within(adj, start, x, k));
        if next.contains(x) {
            let i = choose|i: int| 0 <= i < frontier.len() && hop(adj, #[trigger] frontier[i], x);
            let a = frontier[i];
            assert(frontier.contains(a));
            assert(within(adj, start, a, k) && hop(adj, a, x));
        }
        if distance_is(adj, start, x, k + 1) {
            let a = choose|a: Seq<char>| within(adj, start, a, k) && #[trigger] hop(adj, a, x);
            assert(within(adj, start, a, k) && hop(adj, a, x));
            assert(!within(adj, start, x, k));
            if k > 0 && within(adj, start, a, (k - 1) as nat) {
                assert(within(adj, start, x, k));
            }
            assert(frontier.contains(a));
            let i = choose|i: int| 0 <= i < frontier.len() && frontier[i] == a;
            assert(hop(adj, frontier[i], x));
        }
    }
    assert forall|x: Seq<char>| #[trigger] (seen + next).contains(x) == within(
        adj,
        start,
        x,
        k + 1,
    ) by {
        vstd::seq_lib::lemma_seq_concat_contains_all_elements(seen, next, x);
        assert(seen.contains(x) == within(adj, start, x, k));
        assert(next.contains(x) == distance_is(adj, start, x, k + 1));
        if within(adj, start, x, k) {
            lemma_within_grows(adj, start, x, k, k + 1);
        }
    }
}

/// Whether a search has found a node.
pub open spec fn finds(nodes: Seq<(Seq<char>, nat)>, id: Seq<char>) -> bool {
    exists|i: int| 0 <= i < nodes.len() && (#[trigger] nodes[i]).0 == id
}

proof fn lemma_search(
    adj: Seq<(Seq<char>, Seq<Seq<char>>)>,
    start: Seq<char>,
    frontier: Seq<Seq<char>>,
    seen: Seq<Seq<char>>,
    depth: nat,
    limit: nat,
)
    requires
        at_level(adj, start, frontier, seen, depth),
        depth <= limit,
    ensures
        ({
            let nodes = search(adj, frontier, seen, depth, limit);
            &&& forall|i: int|
                0 <= i < nodes.len() ==> depth < (#[trigger] nodes[i]).1 <= limit && distance_is(
                    adj,
                    start,
                    nodes[i].0,
                    nodes[i].1,
                )
            &&& forall|i: int, j: int|
                0 <= i < j < nodes.len() ==> (#[trigger] nodes[i]).0 != (#[trigger] nodes[j]).0
                    && nodes[i].1 <= nodes[j].1
            &&& forall|x: Seq<char>|
                within(adj, start, x, limit) && !within(adj, start, x, depth) ==> #[trigger] finds(
                    nodes,
                    x,
                )
        }),
    decreases limit - depth,
{
    let nodes = search(adj, frontier, seen, depth, limit);
    if depth < limit {
        let next = next_frontier(adj, frontier, seen, frontier.len());
        lemma_level_step(adj, start, frontier, seen, depth);
        lemma_search(adj, start, next, seen + next, depth + 1, limit);
        let level = Seq::new(next.len(), |i: int| (next[i], depth + 1));
        let rest = search(adj, next, seen + next, depth + 1, limit);
        assert(nodes == level + rest);
        assert forall|i: int| 0 <= i < nodes.len() implies depth < (#[trigger] nodes[i]).1 <= limit
            && distance_is(adj, start, nodes[i].0, nodes[i].1) by {
            if i < level.len() {
                assert(next.contains(next[i]));
            } else {
                assert(nodes[i] == rest[i - level.len()]);
            }
        }
        assert forall|i: int, j: int| 0 <= i < j < nodes.len() implies (#[trigger] nodes[i]).0 != (
        #[trigger] nodes[j]).0 && nodes[i].1 <= nodes[j].1 by {
            lemma_next_frontier(adj, frontier, seen, frontier.len(), start);
            if i >= level.len() {
                assert(nodes[i] == rest[i - level.len()]);
                assert(nodes[j] == rest[j - level.len()]);
            } else if j >= level.len() {
                assert(nodes[j] == rest[j - level.len()]);
                assert(next.contains(next[i]));
                let d = nodes[j].1;
                assert(depth + 1 < d);
                assert(distance_is(adj, start, nodes[j].0, d));
                if nodes[i].0 == nodes[j].0 {
                    lemma_within_grows(adj, start, nodes[i].0, depth + 1, (d - 1) as nat);
                }
            }
        }
        assert forall|x: Seq<char>|
            within(adj, start, x, limit) && !within(adj, start, x, depth) implies #[trigger] finds(
            nodes,
            x,
        ) by {
            if within(adj, start, x, depth + 1) {
                assert(distance_is(adj, start, x, depth + 1));
                assert(next.contains(x));
                let i = choose|i: int| 0 <= i < next.len() && next[i] == x;
                assert(nodes[i].0 == x);
            } else {
                assert(finds(rest, x));
                let i = choose|i: int| 0 <= i < rest.len() && (#[trigger] rest[i]).0 == x;
                assert(nodes[i + level.len()] == rest[i]);
            }
        }
    }
}

/// A search finds exactly the nodes other than the start that can be reached within
/// its limit, each once, with its distance from the start, nearest first.
pub proof fn law_search_finds_what_is_near(
    adj: Seq<(Seq<char>, Seq<Seq<char>>)>,
    start: Seq<char>,
    limit: nat,
)
    ensures
        ({
            let nodes = search(adj, seq![start], seq![start], 0, limit);
            &&& forall|i: int|
                0 <= i < nodes.len() ==> (#[trigger] nodes[i]).0 != start && 0 < nodes[i].1 <= limit
                    && distance_is(adj, start, nodes[i].0, nodes[i].1)
            &&& forall|i: int, j: int|
                0 <= i < j < nodes.len() ==> (#[trigger] nodes[i]).0 != (#[trigger] nodes[j]).0
                    && nodes[i].1 <= nodes[j].1
            &&& forall|x: Seq<char>|
                x != start && within(adj, start, x, limit) ==> #[trigger] finds(nodes, x)
        }),
{
    let one = seq![start];
    assert forall|x: Seq<char>| #[trigger] one.contains(x) == within(adj, start, x, 0) by {
        if x == start {
            assert(one[0] == x);
        }
    }
    assert(at_level(adj, start, one, one, 0));
    lemma_search(adj, start, one, one, 0, limit);
    let nodes = search(adj, one, one, 0, limit);
    assert forall|i: int| 0 <= i < nodes.len() implies (#[trigger] nodes[i]).0 != start by {
        assert(distance_is(adj, start, nodes[i].0, nodes[i].1));
        assert(within(adj, start, start, (nodes[i].1 - 1) as nat));
    }
}

/// What can be reached in some steps can be reached in more.
pub proof fn law_near_stays_near(
    adj: Seq<(Seq<char>, Seq<Seq<char>>)>,
    start: Seq<char>,
    id: Seq<char>,
    j: nat,
    k: nat,
)
    requires
        j <= k,
        within(adj, start, id, j),
    ensures
        within(adj, start, id, k),
{
    lemma_within_grows(adj, start, id, j, k);
}

/// Whether a node can be reached from the start, in whatever number of steps.
pub open spec fn reaches(
    adj: Seq<(Seq<char>, Seq<Seq<char>>)>,
    start: Seq<char>,
    id: Seq<char>,
) -> bool {
    exists|k: nat| #[trigger] within(adj, start, id, k)
}

pub proof fn lemma_position_is(adj: Seq<(Seq<char>, Seq<Seq<char>>)>, node: Seq<char>)
    ensures
        node_position(adj, node) matches Some(i) ==> 0 <= i < adj.len() && adj[i].0 == node && (
        forall|k: int| i < k < adj.len() ==> (#[trigger] adj[k]).0 != node),
        node_position(adj, node) is None ==> forall|k: int|
            0 <= k < adj.len() ==> (#[trigger] adj[k]).0 != node,
    decreases adj.len(),
{
    if adj.len() > 0 && adj.last().0 != node {
        let shorter = adj.drop_last();
        lemma_position_is(shorter, node);
        assert forall|k: int| 0 <= k < adj.len() - 1 implies shorter[k] == #[trigger] adj[k] by {}
    }
}

/// The least number of steps in which a node can be reached.
proof fn lemma_distance(
    adj: Seq<(Seq<char>, Seq<Seq<char>>)>,
    start: Seq<char>,
    id: Seq<char>,
    k: nat,
) -> (d: nat)
    requires
        within(adj, start, id, k),
    ensures
        d <= k,
        distance_is(adj, start, id, d),
    decreases k,
{
    if k > 0 && within(adj, start, id, (k - 1) as nat) {
        lemma_distance(adj, start, id, (k - 1) as nat)
    } else {
        k
    }
}

/// The places of the nodes on a shortest way: at every distance one.
proof fn lemma_shortest_way(
    adj: Seq<(Seq<char>, Seq<Seq<char>>)>,
    start: Seq<char>,
    id: Seq<char>,
    d: nat,
) -> (p: Seq<int>)
    requires
        distance_is(adj, start, id, d),
    ensures
        p.len() == d,
        forall|j: int|
            0 <= j < d ==> 0 <= (#[trigger] p[j]) < adj.len() && distance_is(
                adj,
                start,
                adj[p[j]].0,
                j as nat,
            ),
    decreases d,
{
    if d == 0 {
        Seq::empty()
    } else {
        let before = (d - 1) as nat;
        let a = choose|a: Seq<char>| within(adj, start, a, before) && #[trigger] hop(adj, a, id);
        if before > 0 && within(adj, start, a, (before - 1) as nat) {
            assert(within(adj, start, id, before));
        }
        lemma_position_is(adj, a);
        let p = lemma_shortest_way(adj, start, a, before);
        p.push(node_position(adj, a)->0)
    }
}

/// What can be reached at all can be reached in no more steps than there are adjacency
/// lists.
pub proof fn law_reach_is_bounded(
    adj: Seq<(Seq<char>, Seq<Seq<char>>)>,
    start: Seq<char>,
    id: Seq<char>,
)
    ensures
        reaches(adj, start, id) == within(adj, start, id, adj.len()),
{
    if reaches(adj, start, id) {
        let k = choose|k: nat| #[trigger] within(adj, start, id, k);
        let d = lemma_distance(adj, start, id, k);
        if d > adj.len() {
            let p = lemma_shortest_way(adj, start, id, d);
            let (i, j) = graph::lemma_repeats(p, adj.len());
            assert(distance_is(adj, start, adj[p[i]].0, i as nat));
            assert(distance_is(adj, start, adj[p[j]].0, j as nat));
            lemma_within_grows(adj, start, adj[p[i]].0, i as nat, (j - 1) as nat);
        } else {
            lemma_within_grows(adj, start, id, d, adj.len());
        }
    }
}

/// The edges against the direction of the lists are those along it, turned round.
pub proof fn law_edges_can_be_turned_round(
    table: Table,
    id_col: int,
    list_col: int,
    a: Seq<char>,
    b: Seq<char>,
)
    ensures
        edges_of(table, id_col, list_col, Direction::Reverse).contains((b, a)) <==> edges_of(
            table,
            id_col,
            list_col,
            Direction::Forward,
        ).contains((a, b)),
{
    if columns::table_rows(table) > 0 && columns::has_text(table, id_col) && columns::has_lists(
        table,
        list_col,
    ) {
        lemma_rows_turned(table, id_col, list_col, columns::table_rows(table), a, b);
    }
}

proof fn lemma_rows_turned(
    table: Table,
    id_col: int,
    list_col: int,
    n: nat,
    a: Seq<char>,
    b: Seq<char>,
)
    ensures
        row_edges(table, id_col, list_col, Direction::Reverse, n).contains((b, a)) == row_edges(
            table,
            id_col,
            list_col,
            Direction::Forward,
            n,
        ).contains((a, b)),
    decreases n,
{
    if n > 0 {
        let m = (n - 1) as nat;
        lemma_rows_turned(table, id_col, list_col, m, a, b);
        let list = columns::list_cell(table, list_col, n - 1);
        if list.valid && list.value is Texts {
            let id = columns::text_cell(table, id_col, n - 1).value;
            let items = list.value->Texts_0;
            lemma_list_turned(id, items, items.len(), a, b);
            vstd::seq_lib::lemma_seq_concat_contains_all_elements(
                row_edges(table, id_col, list_col, Direction::Reverse, m),
                list_edges(id, items, Direction::Reverse, items.len()),
                (b, a),
            );
            vstd::seq_lib::lemma_seq_concat_contains_all_elements(
                row_edges(table, id_col, list_col, Direction::Forward, m),
                list_edges(id, items, Direction::Forward, items.len()),
                (a, b),
            );
        }
    }
}

proof fn lemma_list_turned(
    id: Seq<char>,
    list: Seq<columns::Cell<Seq<char>>>,
    n: nat,
    a: Seq<char>,
    b: Seq<char>,
)
    requires
        n <= list.len(),
    ensures
        list_edges(id, list, Direction::Reverse, n).contains((b, a)) == list_edges(
            id,
            list,
            Direction::Forward,
            n,
        ).contains((a, b)),
    decreases n,
{
    if n > 0 {
        let m = (n - 1) as nat;
        lemma_list_turned(id, list, m, a, b);
        let item = list[n - 1];
        vstd::seq_lib::lemma_seq_contains_after_push(
            list_edges(id, list, Direction::Reverse, m),
            (item.value, id),
            (b, a),
        );
        vstd::seq_lib::lemma_seq_contains_after_push(
            list_edges(id, list, Direction::Forward, m),
            (id, item.value),
            (a, b),
        );
    }
}

} // verus!
