//! What the commands that look at a whole board show.
use vstd::prelude::*;
use vstd::string::StringExecFns;
use crate::blocked;
use crate::columns;
use crate::columns::Table;
use crate::critical_path;
use crate::critical_path::{CriticalPathResult, ItemInfo, ItemView};
use crate::critical_path_laws;
use crate::items;
use crate::items::ID;
use crate::item_type::ItemType;
use crate::keyed;
use crate::relations;
use crate::relations::{EdgeView, RelationsStore};
use crate::render;
use crate::roadmap;
use crate::roadmap_laws;
use crate::setup;
use crate::sorting;
use crate::text;
use crate::traversal;
use crate::worklist;
use crate::worklist::{CapabilityRouting, EntryView, WorklistEntry};

verus! {

// ---- the roadmap --------------------------------------------------------------------------------

/// Whether items are others with their typed memberships among the related items.
pub open spec fn is_fold(
    before: Seq<ItemView>,
    edges: Seq<EdgeView>,
    after: Seq<ItemView>,
) -> bool {
    &&& after.len() == before.len()
    &&& forall|i: int|
        0 <= i < before.len() ==> roadmap::is_folded(
            before,
            edges,
            before[i],
            #[trigger] after[i],
        )
}

/// Whether a text is the roadmap of items.
pub open spec fn is_roadmap(items: Seq<ItemView>, shown: Seq<char>) -> bool {
    exists|cp: CriticalPathResult| #[trigger]
        critical_path::is_analysis(critical_path::active_items(items), cp) && shown
            == render::roadmap_spec(
            items,
            roadmap::groups_spec(items),
            roadmap::orphans_spec(items),
            keyed::pairs(cp.depth@),
            text::views(cp.blocked@),
        )
}

/// What the roadmap command answers for items: their roadmap, or the message that names
/// those that wait for ever.
pub open spec fn answers_roadmap(items: Seq<ItemView>, r: Result<String, String>) -> bool {
    let active = critical_path::active_items(items);
    &&& r is Ok == critical_path::resolvable(active)
    &&& r is Ok ==> is_roadmap(items, r->Ok_0@)
    &&& r is Err ==> r->Err_0@ == critical_path::cycle_message_spec(active)
}

fn fold(items: Vec<ItemInfo>, relations: &RelationsStore) -> (r: Vec<ItemInfo>)
    requires
        relations.well_formed(),
    ensures
        r@.len() == items@.len(),
        is_fold(
            critical_path::item_views(items@),
            relations.edges(),
            critical_path::item_views(r@),
        ),
{
    let ghost before = critical_path::item_views(items@);
    let mut folded: Vec<ItemInfo> = items;
    roadmap::fold_typed_voyage_memberships(&mut folded, relations);
    let ghost after = critical_path::item_views(folded@);
    assert forall|i: int| 0 <= i < before.len() implies roadmap::is_folded(
        before,
        relations.edges(),
        before[i],
        #[trigger] after[i],
    ) by {
        assert(after[i] == folded@[i]@);
        assert(before[i] == items@[i]@);
    }
    folded
}

/// The roadmap of a board, with the typed memberships of its items.
pub fn roadmap_report(items: Vec<ItemInfo>, relations: &RelationsStore) -> (r: Result<
    String,
    String,
>)
    requires
        items@.len() <= u32::MAX,
        relations.well_formed(),
    ensures
        exists|folded: Seq<ItemView>| #[trigger]
            is_fold(critical_path::item_views(items@), relations.edges(), folded)
                && answers_roadmap(folded, r),
{
    let ghost before = critical_path::item_views(items@);
    let folded: Vec<ItemInfo> = fold(items, relations);
    let ghost after = critical_path::item_views(folded@);
    assert(is_fold(before, relations.edges(), after));
    match critical_path::compute_critical_path(folded.as_slice()) {
        Ok(cp) => {
            let (groups, orphans) = roadmap::group_by_voyage(folded.as_slice());
            let shown: String = render::format_roadmap(folded.as_slice(), &groups, &orphans, &cp);
            assert(is_roadmap(after, shown@));
            Ok(shown)
        },
        Err(message) => Err(message),
    }
}

/// The items of a board that can be started now, most urgent first.
pub fn ready_items(items: &[ItemInfo]) -> (r: Result<Vec<String>, String>)
    requires
        items@.len() <= u32::MAX,
    ensures
        ({
            let active = critical_path::active_items(critical_path::item_views(items@));
            &&& r is Ok == critical_path::resolvable(active)
            &&& r is Ok ==> text::views(r->Ok_0@) == critical_path::ranked(
                active,
                critical_path::with_unmet(active, false, active.len()),
            )
            &&& r is Err ==> r->Err_0@ == critical_path::cycle_message_spec(active)
        }),
{
    match critical_path::compute_critical_path(items) {
        Ok(cp) => Ok(cp.ready),
        Err(message) => Err(message),
    }
}

/// The roadmap of a campaign. Its members are the voyages that are part of it by a
/// relation.
pub fn campaign_report(items: Vec<ItemInfo>, relations: &RelationsStore, camp_id: &str) -> (r:
    String)
    requires
        items@.len() <= u32::MAX,
        relations.well_formed(),
    ensures
        exists|folded: Seq<ItemView>, members: Seq<Seq<char>>|
            #![trigger is_fold(critical_path::item_views(items@), relations.edges(), folded), sorting::is_strictly_sorted(members)]
            is_fold(critical_path::item_views(items@), relations.edges(), folded)
                && sorting::is_strictly_sorted(members) && (forall|s: Seq<char>| #[trigger]
                members.contains(s) == relations::has_live_edge(
                    relations.edges(),
                    s,
                    camp_id@,
                    "partOf"@,
                )) && render::is_campaign_view(folded, members, camp_id@, r@),
{
    let ghost before = critical_path::item_views(items@);
    let members: Vec<String> = relations.incoming_by_predicate(camp_id, "partOf");
    let folded: Vec<ItemInfo> = fold(items, relations);
    let r: String = render::format_campaign_roadmap(camp_id, &members, folded.as_slice());
    assert(is_fold(before, relations.edges(), critical_path::item_views(folded@)));
    assert(sorting::is_strictly_sorted(text::views(members@)));
    r
}

// ---- the critical path and the worklist --------------------------------------------------------------

/// The critical path of a board.
pub fn critical_path_report(items: &[ItemInfo]) -> (r: Result<String, String>)
    requires
        items@.len() <= u32::MAX,
    ensures
        ({
            let all = critical_path::item_views(items@);
            let active = critical_path::active_items(all);
            &&& r is Ok == critical_path::resolvable(active)
            &&& r is Ok ==> exists|cp: CriticalPathResult| #[trigger]
                critical_path::is_analysis(active, cp) && r->Ok_0@ == render::critical_path_text(
                    all,
                    render::level_views(cp.depth_groups@),
                    text::views(cp.blocked@),
                    keyed::pairs(cp.downstream_count@),
                )
            &&& r is Err ==> r->Err_0@ == critical_path::cycle_message_spec(active)
        }),
{
    let ghost active = critical_path::active_items(critical_path::item_views(items@));
    match critical_path::compute_critical_path(items) {
        Ok(cp) => {
            proof {
                let all = critical_path::item_views(items@);
                all.lemma_filter_len(|x: ItemView| !critical_path::done_id(all, x.id));
                critical_path_laws::law_groups_list_every_item(active, cp);
            }
            Ok(render::format_critical_path(items, &cp))
        },
        Err(message) => Err(message),
    }
}

/// Whether a text is the worklist of agents.
pub open spec fn is_worklist(
    items: Seq<ItemView>,
    agents: Seq<Seq<char>>,
    routing: CapabilityRouting,
    depth_limit: nat,
    shown: Seq<char>,
) -> bool {
    exists|cp: CriticalPathResult| #[trigger]
        critical_path::is_analysis(critical_path::active_items(items), cp) && shown
            == worklist::worklist_spec(entries_of(items, agents, routing, depth_limit, cp))
}

/// The entries of a worklist, one for each agent.
pub open spec fn entries_of(
    items: Seq<ItemView>,
    agents: Seq<Seq<char>>,
    routing: CapabilityRouting,
    depth_limit: nat,
    cp: CriticalPathResult,
) -> Seq<EntryView> {
    Seq::new(
        agents.len(),
        |i: int|
            EntryView {
                agent: agents[i],
                items: worklist::agent_rows(
                    items,
                    routing,
                    keyed::pairs(cp.downstream_count@),
                    text::views(cp.ready@),
                    text::views(cp.blocked@),
                    agents[i],
                    depth_limit,
                ),
            },
    )
}

/// Whether agents are those that a worklist is for.
pub open spec fn are_asked_for(
    agents: Seq<Seq<char>>,
    named: Seq<char>,
    items: Seq<ItemView>,
) -> bool {
    if text::trim_spec(named).len() > 0 {
        agents == crate::request::parts_spec(named)
    } else {
        worklist::is_roster(agents, items)
    }
}

/// The worklist of a board for the agents that are named, or else for everyone who has an
/// item of it.
pub fn worklist_report(
    items: &[ItemInfo],
    named: &str,
    routing: &CapabilityRouting,
    depth_limit: usize,
) -> (r: Result<String, String>)
    requires
        items@.len() <= u32::MAX,
    ensures
        ({
            let all = critical_path::item_views(items@);
            let active = critical_path::active_items(all);
            &&& r is Ok == critical_path::resolvable(active)
            &&& r is Ok ==> exists|agents: Seq<Seq<char>>| #[trigger]
                are_asked_for(agents, named@, all) && is_worklist(
                    all,
                    agents,
                    *routing,
                    depth_limit as nat,
                    r->Ok_0@,
                )
            &&& r is Err ==> r->Err_0@ == critical_path::cycle_message_spec(active)
        }),
{
    let ghost all = critical_path::item_views(items@);
    match critical_path::compute_critical_path(items) {
        Ok(cp) => {
            let agents: Vec<String> = setup::worklist_agents(named, items);
            let entries: Vec<WorklistEntry> = worklist::generate_worklist(
                items,
                &cp,
                agents.as_slice(),
                routing,
                depth_limit,
            );
            assert(are_asked_for(text::views(agents@), named@, all));
            let shown: String = worklist::format_worklist(entries.as_slice());
            assert(worklist::entry_views(entries@) =~= entries_of(
                all,
                text::views(agents@),
                *routing,
                depth_limit as nat,
                cp,
            ));
            Ok(shown)
        },
        Err(message) => Err(message),
    }
}

// ---- blocked items -------------------------------------------------------------------------------------

/// The chains of the items in the first `n` rows of a table, one line each.
pub open spec fn row_chains(
    table: Table,
    adj: Seq<(Seq<char>, Seq<Seq<char>>)>,
    map: Seq<(Seq<char>, Seq<char>)>,
    n: nat,
) -> Seq<char>
    decreases n,
{
    if n == 0 {
        Seq::empty()
    } else {
        row_chains(table, adj, map, (n - 1) as nat) + blocked::chain_line_spec(
            adj,
            map,
            columns::text_cell(table, ID as int, n - 1).value,
        )
    }
}

/// The chains of the items in the first `n` tables of a list of positions.
pub open spec fn chains_text(
    tables: Seq<Table>,
    positions: Seq<usize>,
    adj: Seq<(Seq<char>, Seq<Seq<char>>)>,
    map: Seq<(Seq<char>, Seq<char>)>,
    n: nat,
) -> Seq<char>
    decreases n,
{
    if n == 0 {
        Seq::empty()
    } else {
        let table = tables[positions[n - 1] as int];
        chains_text(tables, positions, adj, map, (n - 1) as nat) + if columns::has_text(
            table,
            ID as int,
        ) {
            row_chains(table, adj, map, columns::table_rows(table))
        } else {
            Seq::empty()
        }
    }
}

/// The report on blocked items below their table: the chains of what they wait for.
pub open spec fn chains_report(tables: Seq<Table>, board: Seq<Table>, positions: Seq<usize>) -> Seq<
    char,
> {
    "\nBlocker Chains:\n"@ + text::repeat_spec('─', 60) + "\n"@ + chains_text(
        tables,
        positions,
        blocked::dependencies(tables, tables.len()),
        blocked::statuses(board, board.len()),
        positions.len(),
    )
}

fn push_row_chains(
    s: &mut String,
    table: &Table,
    adj: &Vec<(String, Vec<String>)>,
    map: &Vec<(String, String)>,
)
    ensures
        final(s)@ == old(s)@ + if columns::has_text(*table, ID as int) {
            row_chains(
                *table,
                traversal::adjacency_views(adj@),
                blocked::string_pairs(map@),
                columns::table_rows(*table),
            )
        } else {
            Seq::empty()
        },
{
    let ghost lists = traversal::adjacency_views(adj@);
    let ghost statuses = blocked::string_pairs(map@);
    let ghost before = s@;
    if !items::has_text_at(table, ID) {
        assert(s@ =~= before + Seq::<char>::empty());
        return;
    }
    let n: usize = columns::num_rows(table);
    let mut row: usize = 0;
    assert(s@ =~= before + row_chains(*table, lists, statuses, 0));
    while row < n
        invariant
            row <= n,
            n == columns::table_rows(*table),
            columns::has_text(*table, ID as int),
            lists == traversal::adjacency_views(adj@),
            statuses == blocked::string_pairs(map@),
            s@ == before + row_chains(*table, lists, statuses, row as nat),
        decreases n - row,
    {
        let id: String = columns::text_value(table, ID, row);
        let line: String = blocked::chain_line(adj, map, id.as_str());
        s.append(line.as_str());
        assert(s@ =~= before + row_chains(*table, lists, statuses, (row + 1) as nat));
        row = row + 1;
    }
}

/// The report on blocked items below their table. `positions` are those of the tables
/// with blocked items.
pub fn blocked_report(board: &[Table], tables: &[Table], positions: &Vec<usize>) -> (r: String)
    requires
        forall|t: int| 0 <= t < board@.len() ==> blocked::is_graph_table(#[trigger] board@[t]),
        forall|t: int| 0 <= t < tables@.len() ==> blocked::is_graph_table(#[trigger] tables@[t]),
        forall|i: int| 0 <= i < positions@.len() ==> (#[trigger] positions@[i]) < tables@.len(),
    ensures
        r@ == chains_report(tables@, board@, positions@),
{
    let adj: Vec<(String, Vec<String>)> = blocked::build_dependency_adjacency(tables);
    let map: Vec<(String, String)> = blocked::build_status_map(board);
    let ghost lists = traversal::adjacency_views(adj@);
    let ghost statuses = blocked::string_pairs(map@);
    let mut s: String = text::owned("\nBlocker Chains:\n");
    let rule: String = text::repeat('─', 60);
    s.append(rule.as_str());
    s.append("\n");
    let ghost head = s@;
    let mut i: usize = 0;
    assert(s@ =~= head + chains_text(tables@, positions@, lists, statuses, 0));
    while i < positions.len()
        invariant
            i <= positions@.len(),
            forall|i: int|
                0 <= i < positions@.len() ==> (#[trigger] positions@[i]) < tables@.len(),
            lists == traversal::adjacency_views(adj@),
            statuses == blocked::string_pairs(map@),
            s@ == head + chains_text(tables@, positions@, lists, statuses, i as nat),
        decreases positions@.len() - i,
    {
        let at: usize = positions[i];
        assert(positions@[i as int] < tables@.len());
        push_row_chains(&mut s, &tables[at], &adj, &map);
        assert(s@ =~= head + chains_text(tables@, positions@, lists, statuses, (i + 1) as nat));
        i = i + 1;
    }
    s
}

// ---- rows of a query as JSON -----------------------------------------------------------------------------

/// A name without the question marks before it.
pub open spec fn without_marks(s: Seq<char>) -> Seq<char>
    decreases s.len(),
{
    if s.len() > 0 && s[0] == '?' {
        without_marks(s.skip(1))
    } else {
        s
    }
}

fn strip_marks(s: &str) -> (r: String)
    ensures
        r@ == without_marks(s@),
{
    let chars: Vec<char> = text::to_chars(s);
    let mut i: usize = 0;
    assert(chars@.skip(0) =~= s@);
    while i < chars.len() && chars[i] == '?'
        invariant
            i <= chars@.len(),
            chars@ == s@,
            without_marks(s@) == without_marks(chars@.skip(i as int)),
        decreases chars@.len() - i,
    {
        assert(chars@.skip(i as int).skip(1) =~= chars@.skip(i + 1));
        i = i + 1;
    }
    let r: String = text::from_chars(&chars, i, chars.len());
    assert(r@ =~= chars@.skip(i as int));
    r
}

/// One value of a row: its name, and what it is.
pub open spec fn pair_text(pair: (Seq<char>, Seq<char>)) -> Seq<char> {
    "\""@ + without_marks(pair.0) + "\": \""@ + pair.1 + "\""@
}

/// One row of a result.
pub open spec fn row_text(row: Seq<(Seq<char>, Seq<char>)>) -> Seq<char> {
    "  {"@ + text::join_spec(Seq::new(row.len(), |i: int| pair_text(row[i])), ", "@) + "}"@
}

/// The rows of a result as JSON. What stands in a value is written as it is.
pub open spec fn rows_text(rows: Seq<Seq<(Seq<char>, Seq<char>)>>) -> Seq<char> {
    "[\n"@ + text::join_spec(Seq::new(rows.len(), |i: int| row_text(rows[i])), ",\n"@) + "\n]\n"@
}

pub open spec fn row_views(rows: Seq<Vec<(String, String)>>) -> Seq<Seq<(Seq<char>, Seq<char>)>> {
    Seq::new(rows.len(), |i: int| blocked::string_pairs(rows[i]@))
}

fn format_row(row: &Vec<(String, String)>) -> (r: String)
    ensures
        r@ == row_text(blocked::string_pairs(row@)),
{
    let ghost all = blocked::string_pairs(row@);
    let mut pairs: Vec<String> = Vec::new();
    let mut i: usize = 0;
    while i < row.len()
        invariant
            i <= row@.len(),
            all == blocked::string_pairs(row@),
            pairs@.len() == i,
            forall|k: int| 0 <= k < i ==> (#[trigger] pairs@[k])@ == pair_text(all[k]),
        decreases row@.len() - i,
    {
        let mut s: String = text::owned("\"");
        let name: String = strip_marks(row[i].0.as_str());
        s.append(name.as_str());
        s.append("\": \"");
        s.append(row[i].1.as_str());
        s.append("\"");
        assert(all[i as int] == (row@[i as int].0@, row@[i as int].1@));
        pairs.push(s);
        i = i + 1;
    }
    assert(text::views(pairs@) =~= Seq::new(all.len(), |i: int| pair_text(all[i])));
    let mut s: String = text::owned("  {");
    let joined: String = text::join(&pairs, ", ");
    s.append(joined.as_str());
    s.append("}");
    s
}

/// The rows of a result as JSON.
pub fn rows_json(rows: &Vec<Vec<(String, String)>>) -> (r: String)
    ensures
        r@ == rows_text(row_views(rows@)),
{
    let ghost all = row_views(rows@);
    let mut lines: Vec<String> = Vec::new();
    let mut i: usize = 0;
    while i < rows.len()
        invariant
            i <= rows@.len(),
            all == row_views(rows@),
            lines@.len() == i,
            forall|k: int| 0 <= k < i ==> (#[trigger] lines@[k])@ == row_text(all[k]),
        decreases rows@.len() - i,
    {
        let line: String = format_row(&rows[i]);
        assert(all[i as int] == blocked::string_pairs(rows@[i as int]@));
        lines.push(line);
        i = i + 1;
    }
    assert(text::views(lines@) =~= Seq::new(all.len(), |i: int| row_text(all[i])));
    let mut s: String = text::owned("[\n");
    let joined: String = text::join(&lines, ",\n");
    s.append(joined.as_str());
    s.append("\n]\n");
    s
}

// ---- exports ------------------------------------------------------------------------------------------------

/// What an export writes.
#[derive(Debug, Clone, Copy, PartialEq, Eq, Structural)]
pub enum ExportKind {
    ExpeditionIndex,
    Json,
    Markdown,
    Html,
    ResearchIndex,
    /// A directory of files, one for each item.
    Materialize,
    /// One item as markdown.
    Item,
}

/// What an export with a format writes.
pub open spec fn export_kind_spec(format: Seq<char>) -> ExportKind {
    if format == "expedition-index"@ {
        ExportKind::ExpeditionIndex
    } else if format == "json"@ {
        ExportKind::Json
    } else if format == "markdown"@ {
        ExportKind::Markdown
    } else if format == "html"@ {
        ExportKind::Html
    } else if format == "research-index"@ {
        ExportKind::ResearchIndex
    } else if format == "kanban-materialize"@ {
        ExportKind::Materialize
    } else {
        ExportKind::Item
    }
}

/// What an export writes, or why it cannot: a directory of files needs a place to go to,
/// the export of one item needs its id.
pub fn export_kind(format: &str, has_id: bool, has_output: bool) -> (r: Result<ExportKind, String>)
    ensures
        ({
            let kind = export_kind_spec(format@);
            &&& r is Err == ((kind is Materialize && !has_output) || (kind is Item && !has_id))
            &&& r is Ok ==> r->Ok_0 == kind
            &&& r is Err ==> r->Err_0@ == (if kind is Materialize {
                "--output required for kanban-materialize format"@
            } else {
                "--id required for item export format"@
            })
        }),
{
    let kind: ExportKind = if text::same(format, "expedition-index") {
        ExportKind::ExpeditionIndex
    } else if text::same(format, "json") {
        ExportKind::Json
    } else if text::same(format, "markdown") {
        ExportKind::Markdown
    } else if text::same(format, "html") {
        ExportKind::Html
    } else if text::same(format, "research-index") {
        ExportKind::ResearchIndex
    } else if text::same(format, "kanban-materialize") {
        ExportKind::Materialize
    } else {
        ExportKind::Item
    };
    if kind == ExportKind::Materialize && !has_output {
        return Err(text::owned("--output required for kanban-materialize format"));
    }
    if kind == ExportKind::Item && !has_id {
        return Err(text::owned("--id required for item export format"));
    }
    Ok(kind)
}

/// The type that an export asks for, by its own name; none where the name is not that of
/// a type.
pub fn export_type(name: Option<&str>) -> (r: Option<&'static str>)
    ensures
        match name {
            Some(n) => match crate::item_type::type_named(n@) {
                Some(t) => r is Some && r->0@ == crate::item_type::name_of_type(t),
                None => r is None,
            },
            None => r is None,
        },
{
    match name {
        Some(n) => match ItemType::from_str_loose(n) {
            Some(t) => Some(t.as_str()),
            None => None,
        },
        None => None,
    }
}

// ---- backups ---------------------------------------------------------------------------------------------------

/// A copy of the board's data.
#[derive(Debug)]
pub struct Snapshot {
    pub name: String,
    pub path: String,
    pub created_at: Option<String>,
    pub version: u64,
    pub commit_count: usize,
}

/// The line of a snapshot in a list.
pub open spec fn snapshot_line(s: Snapshot) -> Seq<char> {
    "  "@ + s.name@ + "  version="@ + text::decimal_spec(s.version as nat) + "  commits="@
        + text::decimal_spec(s.commit_count as nat) + "\n"@
}

/// The lines of the first `n` snapshots.
pub open spec fn snapshot_lines(list: Seq<Snapshot>, n: nat) -> Seq<char>
    decreases n,
{
    if n == 0 {
        Seq::empty()
    } else {
        snapshot_lines(list, (n - 1) as nat) + snapshot_line(list[n - 1])
    }
}

/// The list of snapshots that a place has.
pub fn list_snapshots(list: &Vec<Snapshot>, place: &str) -> (r: String)
    ensures
        r@ == (if list@.len() == 0 {
            "No snapshots found in "@ + place@ + "\n"@
        } else {
            "Snapshots in "@ + place@ + ":\n"@ + snapshot_lines(list@, list@.len())
        }),
{
    if list.len() == 0 {
        let mut s: String = text::owned("No snapshots found in ");
        s.append(place);
        s.append("\n");
        return s;
    }
    let mut s: String = text::owned("Snapshots in ");
    s.append(place);
    s.append(":\n");
    let ghost head = s@;
    let mut i: usize = 0;
    assert(s@ =~= head + snapshot_lines(list@, 0));
    while i < list.len()
        invariant
            i <= list@.len(),
            s@ == head + snapshot_lines(list@, i as nat),
        decreases list@.len() - i,
    {
        s.append("  ");
        s.append(list[i].name.as_str());
        s.append("  version=");
        let version: String = text::decimal_u64(list[i].version);
        s.append(version.as_str());
        s.append("  commits=");
        let commits: String = text::decimal(list[i].commit_count);
        s.append(commits.as_str());
        s.append("\n");
        assert(s@ =~= head + snapshot_lines(list@, (i + 1) as nat));
        i = i + 1;
    }
    s
}

/// The first place of a snapshot with a name, from `i` on.
pub open spec fn snapshot_named(list: Seq<Snapshot>, name: Seq<char>, i: int) -> Option<Snapshot>
    decreases list.len() - i,
{
    if i < 0 || i >= list.len() {
        None
    } else if list[i].name@ == name {
        Some(list[i])
    } else {
        snapshot_named(list, name, i + 1)
    }
}

/// What is shown of a snapshot.
pub open spec fn snapshot_details(s: Snapshot) -> Seq<char> {
    "Snapshot: "@ + s.name@ + "\n  path: "@ + s.path@ + (match s.created_at {
        Some(created) => "\n  created: "@ + created@,
        None => Seq::empty(),
    }) + "\n  version: "@ + text::decimal_spec(s.version as nat) + "\n  commits: "@
        + text::decimal_spec(s.commit_count as nat) + "\n"@
}

fn format_snapshot(snap: &Snapshot) -> (r: String)
    ensures
        r@ == snapshot_details(*snap),
{
    let mut s: String = text::owned("Snapshot: ");
    s.append(snap.name.as_str());
    s.append("\n  path: ");
    s.append(snap.path.as_str());
    match &snap.created_at {
        Some(created) => {
            let ghost before = s@;
            s.append("\n  created: ");
            s.append(created.as_str());
            assert(s@ =~= before + ("\n  created: "@ + created@));
        },
        None => {
            assert(s@ =~= s@ + Seq::<char>::empty());
        },
    }
    s.append("\n  version: ");
    let version: String = text::decimal_u64(snap.version);
    s.append(version.as_str());
    s.append("\n  commits: ");
    let commits: String = text::decimal(snap.commit_count);
    s.append(commits.as_str());
    s.append("\n");
    s
}

/// What is shown of the snapshot with a name, or that there is none.
pub fn inspect_snapshot(list: &Vec<Snapshot>, name: &str) -> (r: Result<String, String>)
    ensures
        match snapshot_named(list@, name@, 0) {
            Some(s) => r is Ok && r->Ok_0@ == snapshot_details(s),
            None => r is Err && r->Err_0@ == "Snapshot '"@ + name@ + "' not found"@,
        },
{
    let mut i: usize = 0;
    while i < list.len()
        invariant
            i <= list@.len(),
            snapshot_named(list@, name@, 0) == snapshot_named(list@, name@, i as int),
        decreases list@.len() - i,
    {
        if text::same(list[i].name.as_str(), name) {
            return Ok(format_snapshot(&list[i]));
        }
        i = i + 1;
    }
    let mut s: String = text::owned("Snapshot '");
    s.append(name);
    s.append("' not found");
    Err(s)
}

// ---- what reports show -----------------------------------------------------------------------------------------------

proof fn lemma_snapshot(list: Seq<Snapshot>, name: Seq<char>, from: int, i: int)
    requires
        0 <= from <= i < list.len(),
        list[i].name@ == name,
        forall|k: int| from <= k < i ==> (#[trigger] list[k]).name@ != name,
    ensures
        snapshot_named(list, name, from) == Some(list[i]),
    decreases i - from,
{
    if from < i {
        assert(list[from].name@ != name);
        lemma_snapshot(list, name, from + 1, i);
    }
}

proof fn lemma_no_snapshot(list: Seq<Snapshot>, name: Seq<char>, from: int)
    requires
        0 <= from <= list.len(),
        forall|k: int| from <= k < list.len() ==> (#[trigger] list[k]).name@ != name,
    ensures
        snapshot_named(list, name, from) is None,
    decreases list.len() - from,
{
    if from < list.len() {
        assert(list[from].name@ != name);
        lemma_no_snapshot(list, name, from + 1);
    }
}

/// A snapshot is the first with its name, and none where none has it.
pub proof fn law_snapshots_are_found_by_name(list: Seq<Snapshot>, name: Seq<char>, i: int)
    ensures
        0 <= i < list.len() && list[i].name@ == name && (forall|k: int|
            0 <= k < i ==> (#[trigger] list[k]).name@ != name) ==> snapshot_named(list, name, 0)
            == Some(list[i]),
        (forall|k: int| 0 <= k < list.len() ==> (#[trigger] list[k]).name@ != name)
            ==> snapshot_named(list, name, 0) is None,
{
    if 0 <= i < list.len() && list[i].name@ == name && (forall|k: int|
        0 <= k < i ==> (#[trigger] list[k]).name@ != name) {
        lemma_snapshot(list, name, 0, i);
    }
    if forall|k: int| 0 <= k < list.len() ==> (#[trigger] list[k]).name@ != name {
        lemma_no_snapshot(list, name, 0);
    }
}

/// The list of snapshots has a line for each of them.
pub proof fn law_every_snapshot_is_listed(list: Seq<Snapshot>, n: nat, i: int)
    requires
        0 <= i < n <= list.len(),
    ensures
        text::contains_spec(snapshot_lines(list, n), snapshot_line(list[i])),
    decreases n,
{
    let before = snapshot_lines(list, (n - 1) as nat);
    let line = snapshot_line(list[i]);
    let none = Seq::<char>::empty();
    if i == n - 1 {
        assert(line.subrange(0, line.len() as int) =~= line);
        assert(text::occurs_at(line, line, 0));
        text::lemma_contains_in_part(before, line, none, line);
        assert(before + line + none =~= snapshot_lines(list, n));
    } else {
        law_every_snapshot_is_listed(list, (n - 1) as nat, i);
        text::lemma_contains_in_part(none, before, snapshot_line(list[n - 1]), line);
        assert(none + before + snapshot_line(list[n - 1]) =~= snapshot_lines(list, n));
    }
}

/// A format has its own export by its name, and any other name means one item.
pub proof fn law_formats_are_named(format: Seq<char>)
    ensures
        export_kind_spec(format) == ExportKind::ExpeditionIndex <==> format == "expedition-index"@,
        export_kind_spec(format) == ExportKind::Json <==> format == "json"@,
        export_kind_spec(format) == ExportKind::Markdown <==> format == "markdown"@,
        export_kind_spec(format) == ExportKind::Html <==> format == "html"@,
        export_kind_spec(format) == ExportKind::ResearchIndex <==> format == "research-index"@,
        export_kind_spec(format) == ExportKind::Materialize <==> format == "kanban-materialize"@,
{
    reveal_strlit("expedition-index");
    reveal_strlit("json");
    reveal_strlit("markdown");
    reveal_strlit("html");
    reveal_strlit("research-index");
    reveal_strlit("kanban-materialize");
    assert("expedition-index"@[0] == 'e' && "json"@[0] == 'j' && "markdown"@[0] == 'm');
    assert("html"@[0] == 'h' && "research-index"@[0] == 'r' && "kanban-materialize"@[0] == 'k');
}

proof fn lemma_row_chain(
    table: Table,
    adj: Seq<(Seq<char>, Seq<Seq<char>>)>,
    map: Seq<(Seq<char>, Seq<char>)>,
    n: nat,
    row: int,
)
    requires
        0 <= row < n,
    ensures
        text::contains_spec(
            row_chains(table, adj, map, n),
            blocked::chain_line_spec(adj, map, columns::text_cell(table, ID as int, row).value),
        ),
    decreases n,
{
    let before = row_chains(table, adj, map, (n - 1) as nat);
    let here = blocked::chain_line_spec(
        adj,
        map,
        columns::text_cell(table, ID as int, n - 1).value,
    );
    let line = blocked::chain_line_spec(
        adj,
        map,
        columns::text_cell(table, ID as int, row).value,
    );
    let none = Seq::<char>::empty();
    if row == n - 1 {
        assert(line.subrange(0, line.len() as int) =~= line);
        assert(text::occurs_at(line, line, 0));
        text::lemma_contains_in_part(before, line, none, line);
        assert(before + line + none =~= before + here);
    } else {
        lemma_row_chain(table, adj, map, (n - 1) as nat, row);
        text::lemma_contains_in_part(none, before, here, line);
        assert(none + before + here =~= before + here);
    }
}

/// The report on what is blocked shows the chain of every item that is asked for.
pub proof fn law_every_chain_is_shown(
    tables: Seq<Table>,
    positions: Seq<usize>,
    adj: Seq<(Seq<char>, Seq<Seq<char>>)>,
    map: Seq<(Seq<char>, Seq<char>)>,
    n: nat,
    p: int,
    row: int,
)
    requires
        0 <= p < n <= positions.len(),
        columns::has_text(tables[positions[p] as int], ID as int),
        0 <= row < columns::table_rows(tables[positions[p] as int]),
    ensures
        text::contains_spec(
            chains_text(tables, positions, adj, map, n),
            blocked::chain_line_spec(
                adj,
                map,
                columns::text_cell(tables[positions[p] as int], ID as int, row).value,
            ),
        ),
    decreases n,
{
    let before = chains_text(tables, positions, adj, map, (n - 1) as nat);
    let all = chains_text(tables, positions, adj, map, n);
    let none = Seq::<char>::empty();
    let line = blocked::chain_line_spec(
        adj,
        map,
        columns::text_cell(tables[positions[p] as int], ID as int, row).value,
    );
    if p == n - 1 {
        let table = tables[positions[p] as int];
        let here = row_chains(table, adj, map, columns::table_rows(table));
        lemma_row_chain(table, adj, map, columns::table_rows(table), row);
        text::lemma_contains_in_part(before, here, none, line);
        assert(before + here + none =~= all);
    } else {
        law_every_chain_is_shown(tables, positions, adj, map, (n - 1) as nat, p, row);
        let rest = all.skip(before.len() as int);
        text::lemma_contains_in_part(none, before, rest, line);
        assert(none + before + rest =~= all);
    }
}

/// The marks before the name of a variable are left out, and nothing else is.
pub proof fn law_marks_are_left_out(n: nat, name: Seq<char>)
    requires
        name.len() > 0 ==> name[0] != '?',
    ensures
        without_marks(text::repeat_spec('?', n) + name) == name,
    decreases n,
{
    let s = text::repeat_spec('?', n) + name;
    if n > 0 {
        law_marks_are_left_out((n - 1) as nat, name);
        assert(s[0] == '?');
        assert(s.skip(1) =~= text::repeat_spec('?', (n - 1) as nat) + name);
    } else {
        assert(s =~= name);
    }
}

/// Every value of every row of a result is shown with its name.
pub proof fn law_every_value_is_shown(rows: Seq<Seq<(Seq<char>, Seq<char>)>>, i: int, k: int)
    requires
        0 <= i < rows.len(),
        0 <= k < rows[i].len(),
    ensures
        text::contains_spec(
            rows_text(rows),
            "\""@ + without_marks(rows[i][k].0) + "\": \""@ + rows[i][k].1 + "\""@,
        ),
{
    let pairs = Seq::new(rows[i].len(), |j: int| pair_text(rows[i][j]));
    let lines = Seq::new(rows.len(), |j: int| row_text(rows[j]));
    let part = pair_text(rows[i][k]);
    assert(pairs[k] == part);
    text::law_joined_text_has_every_part(pairs, ", "@, k);
    text::lemma_contains_in_part("  {"@, text::join_spec(pairs, ", "@), "}"@, part);
    assert(lines[i] == row_text(rows[i]));
    text::law_joined_text_has_every_part(lines, ",\n"@, i);
    let list = text::join_spec(lines, ",\n"@);
    lemma_shown_through(list, lines[i], part);
    text::lemma_contains_in_part("[\n"@, list, "\n]\n"@, part);
}

proof fn lemma_shown_through(a: Seq<char>, b: Seq<char>, c: Seq<char>)
    requires
        text::contains_spec(a, b),
        text::contains_spec(b, c),
    ensures
        text::contains_spec(a, c),
{
    let i = choose|i: int| text::occurs_at(a, b, i);
    text::lemma_contains_in_part(a.take(i), b, a.skip(i + b.len()), c);
    assert(a.take(i) + b + a.skip(i + b.len()) =~= a);
}

/// A report knows the typed members of voyages: an item of it is related to what it was
/// related to, and to the voyages that it implements or that spawn it.
pub proof fn law_reports_know_typed_members(
    before: Seq<ItemView>,
    edges: Seq<EdgeView>,
    after: Seq<ItemView>,
    i: int,
    v: Seq<char>,
)
    requires
        is_fold(before, edges, after),
        0 <= i < before.len(),
    ensures
        after.len() == before.len(),
        after[i].id == before[i].id,
        after[i].status == before[i].status,
        after[i].title == before[i].title,
        after[i].depends_on == before[i].depends_on,
        before[i].related.contains(v) ==> after[i].related.contains(v),
        (exists|k: int|
            0 <= k < before.len() && (#[trigger] before[k]).id == v && before[k].item_type
                == "voyage"@) && (exists|e: int|
            0 <= e < edges.len() && !(#[trigger] edges[e]).deleted && edges[e].source
                == before[i].id && edges[e].target == v && edges[e].predicate == "implements"@)
            ==> after[i].related.contains(v),
{
    assert(roadmap::is_folded(before, edges, before[i], after[i]));
    roadmap_laws::law_typed_members_are_folded_in(before, edges, before[i], after[i], v);
}

/// A roadmap is answered if and only if no open item waits for itself and no id is used
/// twice; it shows the head of every group.
pub proof fn law_roadmap_reports_show_every_group(
    items: Seq<ItemView>,
    r: Result<String, String>,
    g: int,
)
    requires
        answers_roadmap(items, r),
        forall|k: int|
            0 <= k < roadmap::groups_spec(items).len() ==> (#[trigger] roadmap::groups_spec(
                items,
            )[k]).items.len() <= usize::MAX,
    ensures
        r is Ok <==> critical_path::ids_distinct(critical_path::active_items(items)) && forall|
            id: Seq<char>,
        |
            !#[trigger] critical_path::waits_through(critical_path::active_items(items), id, id),
        r is Ok && 0 <= g < roadmap::groups_spec(items).len() ==> text::contains_spec(
            r->Ok_0@,
            render::progress_spec(roadmap::groups_spec(items)[g]),
        ),
{
    if critical_path::ids_distinct(critical_path::active_items(items)) {
        critical_path_laws::law_resolvable_iff_acyclic(critical_path::active_items(items));
    }
    if r is Ok {
        let cp = choose|cp: CriticalPathResult| #[trigger]
            critical_path::is_analysis(critical_path::active_items(items), cp) && r->Ok_0@
                == render::roadmap_spec(
                items,
                roadmap::groups_spec(items),
                roadmap::orphans_spec(items),
                keyed::pairs(cp.depth@),
                text::views(cp.blocked@),
            );
        render::law_roadmaps_show_every_item(
            items,
            roadmap::groups_spec(items),
            roadmap::orphans_spec(items),
            keyed::pairs(cp.depth@),
            text::views(cp.blocked@),
            g,
            Seq::empty(),
        );
    }
}

/// A worklist shows every agent that is asked for, and every item that the agent is given.
pub proof fn law_worklist_reports_show_every_agent(
    items: Seq<ItemView>,
    agents: Seq<Seq<char>>,
    routing: CapabilityRouting,
    depth_limit: nat,
    shown: Seq<char>,
    i: int,
)
    requires
        is_worklist(items, agents, routing, depth_limit, shown),
        0 <= i < agents.len(),
    ensures
        text::contains_spec(shown, text::pad_right_spec(agents[i], 24)),
        exists|cp: CriticalPathResult| #[trigger]
            critical_path::is_analysis(critical_path::active_items(items), cp) && forall|row: int|
                0 <= row < worklist::agent_rows(
                    items,
                    routing,
                    keyed::pairs(cp.downstream_count@),
                    text::views(cp.ready@),
                    text::views(cp.blocked@),
                    agents[i],
                    depth_limit,
                ).len() ==> text::contains_spec(
                    shown,
                    #[trigger] worklist::cell_spec(
                        EntryView {
                            agent: agents[i],
                            items: worklist::agent_rows(
                                items,
                                routing,
                                keyed::pairs(cp.downstream_count@),
                                text::views(cp.ready@),
                                text::views(cp.blocked@),
                                agents[i],
                                depth_limit,
                            ),
                        },
                        row,
                    ),
                ),
{
    let cp = choose|cp: CriticalPathResult| #[trigger]
        critical_path::is_analysis(critical_path::active_items(items), cp) && shown
            == worklist::worklist_spec(entries_of(items, agents, routing, depth_limit, cp));
    let entries = entries_of(items, agents, routing, depth_limit, cp);
    worklist::law_worklists_show_every_item(entries, i, -1);
    assert(entries[i].agent == agents[i]);
    let rows = worklist::agent_rows(
        items,
        routing,
        keyed::pairs(cp.downstream_count@),
        text::views(cp.ready@),
        text::views(cp.blocked@),
        agents[i],
        depth_limit,
    );
    let entry = EntryView { agent: agents[i], items: rows };
    assert(entries[i] == entry);
    assert forall|row: int| 0 <= row < rows.len() implies text::contains_spec(
        shown,
        #[trigger] worklist::cell_spec(entry, row),
    ) by {
        worklist::law_worklists_show_every_item(entries, i, row);
    }
}

/// A worklist is for the agents that are named, and where none is named for those of the
/// board.
pub proof fn law_worklists_are_for_whom_they_are_asked(
    agents: Seq<Seq<char>>,
    named: Seq<char>,
    items: Seq<ItemView>,
    agent: Seq<char>,
)
    requires
        are_asked_for(agents, named, items),
    ensures
        text::trim_spec(named).len() > 0 ==> (agents.contains(agent) <==> exists|k: int|
            0 <= k < text::split_spec(named, ',').len() && text::trim_spec(
                #[trigger] text::split_spec(named, ',')[k],
            ) == agent),
        text::trim_spec(named).len() == 0 ==> (agents.contains(agent) <==> agent.len() > 0 && agent
            != "unassigned"@ && exists|k: int|
            0 <= k < items.len() && text::trim_spec((#[trigger] items[k]).assignee) == agent),
{
    if text::trim_spec(named).len() > 0 {
        let pieces = text::split_spec(named, ',');
        if agents.contains(agent) {
            let k = choose|k: int| 0 <= k < agents.len() && agents[k] == agent;
            assert(text::trim_spec(pieces[k]) == agent);
        }
        if exists|k: int| 0 <= k < pieces.len() && text::trim_spec(#[trigger] pieces[k]) == agent {
            let k = choose|k: int|
                0 <= k < pieces.len() && text::trim_spec(#[trigger] pieces[k]) == agent;
            assert(agents[k] == agent);
        }
    } else {
        worklist::law_rosters_have_each_agent_once(agents, items, agent, 0, 0);
    }
}

/// The details of a snapshot have its name, its path, its version and its commits in them.
pub proof fn law_details_say_what_a_snapshot_is(s: Snapshot)
    ensures
        ("Snapshot: "@ + s.name@ + "\n  path: "@ + s.path@).is_prefix_of(snapshot_details(s)),
        text::contains_spec(
            snapshot_details(s),
            "\n  version: "@ + text::decimal_spec(s.version as nat),
        ),
{
    let head = "Snapshot: "@ + s.name@ + "\n  path: "@ + s.path@;
    let made = match s.created_at {
        Some(created) => "\n  created: "@ + created@,
        None => Seq::empty(),
    };
    let version = text::decimal_spec(s.version as nat);
    let part = "\n  version: "@ + version;
    let commits = text::decimal_spec(s.commit_count as nat);
    let tail = "\n  commits: "@ + commits + "\n"@;
    assert(head.is_prefix_of(snapshot_details(s)));
    assert(part.subrange(0, part.len() as int) =~= part);
    assert(text::occurs_at(part, part, 0));
    text::lemma_contains_in_part(head + made, part, tail, part);
    lemma_grouped(head + made, "\n  version: "@, version);
    lemma_grouped(head + made + part, "\n  commits: "@, commits);
    lemma_grouped(head + made + part, "\n  commits: "@ + commits, "\n"@);
}

proof fn lemma_grouped(a: Seq<char>, b: Seq<char>, c: Seq<char>)
    ensures
        a + b + c == a + (b + c),
{
    assert(a + b + c =~= a + (b + c));
}

} // verus!
