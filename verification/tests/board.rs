//! What is read from the tables of a board.
use std::sync::Arc;

use arrow::array::{
    ArrayRef, BooleanArray, FixedSizeListBuilder, Float32Builder, Int32Array, ListArray,
    ListBuilder, RecordBatch, StringArray, StringBuilder, TimestampMillisecondArray,
};
use arrow_kanban::columns::Table;
use arrow_kanban::embedding::EMBED_DIM;
use arrow_kanban::item_type::ItemType;
use arrow::datatypes::{DataType, Field, Schema};
use arrow_kanban::blocked::{
    build_dependency_adjacency, build_status_map, find_blocked_items, format_blockers,
    format_dependencies, format_item_relations,
};
use arrow_kanban::critical_path::{extract_items, item_requirements_from_batches, CapabilityRouting};
use arrow_kanban::listing::{
    check_id_range, filter_by_range, filter_by_title, filter_list, flat_order, has_list_columns,
    next_id, parse_number, ListFilters,
};
use arrow_kanban::materialize::{
    collect_web, manifest, nodes_of, scope_named, written_line, Node,
};
use arrow_kanban::persist::normalize_batch;
use arrow_kanban::relations::RelationsStore;
use arrow_kanban::reports::{
    blocked_report, campaign_report, critical_path_report, export_kind, export_type,
    inspect_snapshot, list_snapshots, ready_items, roadmap_report, rows_json, worklist_report,
    ExportKind, Snapshot,
};
use arrow_kanban::setup::{history_since, init_message, template_file, types_of_theme};

/// What a new item is made of.
struct CreateItemInput {
    title: String,
    item_type: ItemType,
    priority: Option<String>,
    assignee: Option<String>,
    tags: Vec<String>,
    related: Vec<String>,
    depends_on: Vec<String>,
    body: Option<String>,
    embedding: Option<Vec<f32>>,
}

/// One item of the board in the tests.
struct Row {
    id: String,
    status: String,
    resolution: Option<String>,
    rank: Option<i32>,
    deleted: bool,
    input: CreateItemInput,
}

/// A board in memory: one table for each item.
struct KanbanStore {
    rows: Vec<Row>,
}

fn texts(list: &[String]) -> ListArray {
    let mut builder = ListBuilder::new(StringBuilder::new());
    for s in list {
        builder.values().append_value(s);
    }
    builder.append(true);
    builder.finish()
}

fn text(value: Option<&str>) -> ArrayRef {
    Arc::new(StringArray::from(vec![value]))
}

fn vector(value: Option<&Vec<f32>>) -> ArrayRef {
    let mut builder = FixedSizeListBuilder::new(Float32Builder::new(), EMBED_DIM as i32);
    match value {
        Some(v) => builder.values().append_slice(v),
        None => builder.values().append_nulls(EMBED_DIM),
    }
    builder.append(value.is_some());
    Arc::new(builder.finish())
}

fn item_table(row: &Row) -> Table {
    let board = if ItemType::RESEARCH.iter().any(|t| t.as_str() == row.input.item_type.as_str()) {
        "research"
    } else {
        "development"
    };
    let columns: Vec<(&str, ArrayRef)> = vec![
        ("id", text(Some(&row.id))),
        ("title", text(Some(&row.input.title))),
        ("item_type", text(Some(row.input.item_type.as_str()))),
        ("status", text(Some(&row.status))),
        ("priority", text(row.input.priority.as_deref())),
        ("created", Arc::new(TimestampMillisecondArray::from(vec![1_000]))),
        ("assignee", text(row.input.assignee.as_deref())),
        ("board", text(Some(board))),
        ("tags", Arc::new(texts(&row.input.tags))),
        ("related", Arc::new(texts(&row.input.related))),
        ("depends_on", Arc::new(texts(&row.input.depends_on))),
        ("body", text(row.input.body.as_deref())),
        ("body_hash", text(None)),
        ("deleted", Arc::new(BooleanArray::from(vec![row.deleted]))),
        ("resolution", text(row.resolution.as_deref())),
        ("closed_by", text(None)),
        ("updated_at", Arc::new(TimestampMillisecondArray::from(vec![None::<i64>]))),
        ("priority_rank", Arc::new(Int32Array::from(vec![row.rank]))),
        ("attempt_count", Arc::new(Int32Array::from(vec![0]))),
        ("embedding", vector(row.input.embedding.as_ref())),
    ];
    let batch = RecordBatch::try_from_iter_with_nullable(
        columns.into_iter().map(|(name, column)| (name, column, true)),
    );
    Table { batch: batch.expect("one row") }
}

impl KanbanStore {
    fn new() -> Self {
        KanbanStore { rows: vec![] }
    }

    fn create_item(&mut self, input: &CreateItemInput) -> Result<String, String> {
        let id = format!("{}-{}", input.item_type.prefix(), 3001 + self.rows.len());
        self.rows.push(Row {
            id: id.clone(),
            status: "backlog".to_string(),
            resolution: None,
            rank: None,
            deleted: false,
            input: CreateItemInput {
                title: input.title.clone(),
                item_type: input.item_type,
                priority: input.priority.clone(),
                assignee: input.assignee.clone(),
                tags: input.tags.clone(),
                related: input.related.clone(),
                depends_on: input.depends_on.clone(),
                body: input.body.clone(),
                embedding: input.embedding.clone(),
            },
        });
        Ok(id)
    }

    fn row(&mut self, id: &str) -> &mut Row {
        self.rows.iter_mut().find(|r| r.id == id).expect("an item")
    }

    fn tables(&self) -> Vec<Table> {
        self.rows.iter().map(item_table).collect()
    }
}

fn add(store: &mut KanbanStore, item_type: ItemType, title: &str, depends_on: &[&str]) -> String {
    store
        .create_item(&CreateItemInput {
            title: title.to_string(),
            item_type,
            priority: Some("high".to_string()),
            assignee: None,
            tags: vec![],
            related: vec![],
            depends_on: depends_on.iter().map(|s| s.to_string()).collect(),
            body: None,
            embedding: None,
        })
        .unwrap()
}

fn strings(list: &[&str]) -> Vec<String> {
    list.iter().map(|s| s.to_string()).collect()
}

/// Three items in a chain: the third waits for the second, the second for the first.
fn chain() -> (KanbanStore, String, String, String) {
    let mut store = KanbanStore::new();
    let a = add(&mut store, ItemType::Chore, "Alpha", &[]);
    let b = add(&mut store, ItemType::Chore, "Beta", &[&a]);
    let c = add(&mut store, ItemType::Chore, "Gamma", &[&b]);
    (store, a, b, c)
}

#[test]
fn items_are_read_from_their_tables() {
    let (mut store, a, b, c) = chain();
    store.row(&c).deleted = true;
    store.row(&a).rank = Some(7);
    let items = extract_items(&store.tables());
    assert_eq!(items.iter().map(|i| i.id.clone()).collect::<Vec<_>>(), vec![a.clone(), b]);
    assert_eq!(items[1].depends_on, vec![a]);
    assert_eq!(items[0].rank, Some(7));
    assert_eq!(items[1].rank, None);
    assert_eq!(items[0].priority, "high");
    assert_eq!(items[0].title, "Alpha");
}

#[test]
fn blocked_items_wait_for_something_open() {
    let (mut store, a, b, _c) = chain();
    let tables = store.tables();
    assert_eq!(find_blocked_items(&tables, &tables), vec![1, 2]);
    store.row(&a).status = "done".to_string();
    let tables = store.tables();
    assert_eq!(find_blocked_items(&tables, &tables), vec![2]);
    store.row(&b).status = "done".to_string();
    let tables = store.tables();
    assert_eq!(find_blocked_items(&tables, &tables), Vec::<usize>::new());
}

#[test]
fn chains_are_shown_with_their_statuses() {
    let (store, a, b, c) = chain();
    let tables = store.tables();
    let adj = build_dependency_adjacency(&tables);
    let map = build_status_map(&tables);
    assert_eq!(
        format_blockers(&adj, &map, &c),
        format!("Blockers of {c}:\n    → {b} [backlog]\n      → {a} [backlog]\n")
    );
    assert_eq!(format_blockers(&adj, &map, &a), format!("{a} has no blockers.\n"));
    assert_eq!(
        format_dependencies(&adj, &b),
        format!("Dependencies of {b}:\n    → {a} (depth 1)\n")
    );
    let shown = blocked_report(&tables, &tables, &vec![1]);
    assert!(shown.starts_with("\nBlocker Chains:\n"), "{shown}");
    assert!(shown.ends_with(&format!("  {b} → {a} [backlog]\n")), "{shown}");
    let mut typed = RelationsStore::new();
    let shown = format_item_relations(&b, Some(&tables[1]), &typed, &adj);
    assert!(shown.contains(&format!("    → {a}\n")), "{shown}");
    assert!(shown.contains("Dependency chain (transitive):"), "{shown}");
    assert!(!shown.contains("Typed relations:"), "{shown}");
    assert!(format_item_relations("X-1", None, &typed, &adj).contains("(item not found)"));
    let none = format_item_relations(&a, Some(&tables[0]), &typed, &adj);
    assert!(none.contains("(no relationships)"), "{none}");
    typed.add_relation(&a, "VY-1", "implements").unwrap();
    typed.add_relation("EX-9", &a, "blocks").unwrap();
    typed.add_relation("EX-9", "EX-8", "blocks").unwrap();
    let shown = format_item_relations(&a, Some(&tables[0]), &typed, &adj);
    assert!(
        shown.ends_with(&format!(
            "  Typed relations:\n    {a} -implements-> VY-1\n    EX-9 -blocks-> {a}\n"
        )),
        "{shown}"
    );
}

fn no_filters() -> ListFilters {
    ListFilters { resolution: None, priority: None, tags: vec![], ready: None }
}

#[test]
fn listings_are_filtered() {
    let (mut store, a, b, _c) = chain();
    store.row(&a).input.tags = strings(&["x", "y"]);
    store.row(&b).input.tags = strings(&["x"]);
    store.row(&b).input.priority = None;
    store.row(&b).resolution = Some("completed".to_string());
    let tables = store.tables();
    assert!(tables.iter().all(has_list_columns));
    assert_eq!(filter_list(&tables, &no_filters()), vec![0, 1, 2]);
    let f = ListFilters { tags: strings(&["x"]), ..no_filters() };
    assert_eq!(filter_list(&tables, &f), vec![0, 1]);
    let f = ListFilters { tags: strings(&["y", "x"]), ..no_filters() };
    assert_eq!(filter_list(&tables, &f), vec![0]);
    let f = ListFilters { priority: Some("high".to_string()), ..no_filters() };
    assert_eq!(filter_list(&tables, &f), vec![0, 2]);
    let f = ListFilters { resolution: Some("completed".to_string()), ..no_filters() };
    assert_eq!(filter_list(&tables, &f), vec![1]);
    let ready = ready_items(&extract_items(&tables)).unwrap();
    assert_eq!(ready, vec![a]);
    let f = ListFilters { ready: Some(ready), ..no_filters() };
    assert_eq!(filter_list(&tables, &f), vec![0]);
}

#[test]
fn ids_and_titles_are_searched() {
    assert_eq!(parse_number("0042"), Some(42));
    assert_eq!(parse_number("+7"), Some(7));
    assert_eq!(parse_number("4294967295"), Some(u32::MAX));
    assert_eq!(parse_number("4294967296"), None);
    assert_eq!(parse_number("99999999999999999999999"), None);
    for bad in ["", "+", "-1", "1a", " 1", "++1"] {
        assert_eq!(parse_number(bad), None, "{bad}");
        assert!(bad.parse::<u32>().is_err(), "{bad}");
    }
    assert!(check_id_range("EX-3100", 3100, None));
    assert!(!check_id_range("EX-3099", 3100, None));
    assert!(check_id_range("CMT-EX-1-99", 1, Some(99)));
    assert!(!check_id_range("EX-3100", 1, Some(3099)));
    let (store, ..) = chain();
    let tables = store.tables();
    assert_eq!(filter_by_range(&tables, 3002, Some(3002)), vec![1]);
    assert_eq!(filter_by_title(&tables, "ALPH"), vec![0]);
    assert_eq!(filter_by_title(&tables, "ma"), vec![2]);
    assert_eq!(filter_by_title(&tables, "zzz"), Vec::<usize>::new());
}

#[test]
fn the_flat_roadmap_is_ranked() {
    let (mut store, a, b, c) = chain();
    store.row(&a).input.priority = Some("low".to_string());
    store.row(&b).input.priority = Some("critical".to_string());
    store.row(&c).rank = Some(5);
    assert_eq!(flat_order(&store.tables()), vec![2, 1, 0]);
    store.row(&a).rank = Some(1);
    assert_eq!(flat_order(&store.tables()), vec![0, 2, 1]);
}

#[test]
fn reports_are_made_of_the_items() {
    let (mut store, a, b, c) = chain();
    let v = add(&mut store, ItemType::Voyage, "Trip", &[]);
    let camp = add(&mut store, ItemType::Campaign, "All trips", &[]);
    let e = add(&mut store, ItemType::Expedition, "Leg", &[]);
    let mut rels = RelationsStore::new();
    rels.add_relation(&e, &v, "implements").unwrap();
    rels.add_relation(&v, &camp, "partOf").unwrap();
    let tables = store.tables();
    let shown = roadmap_report(extract_items(&tables), &rels).unwrap();
    assert!(shown.contains(&v) && shown.contains("0/1"), "{shown}");
    let shown = campaign_report(extract_items(&tables), &rels, &camp);
    assert!(shown.contains("1 member voyage(s)"), "{shown}");
    assert!(shown.contains("0/1 expeditions done (0%)"), "{shown}");
    let shown = critical_path_report(&extract_items(&tables)).unwrap();
    assert!(shown.starts_with("Critical Path (6 items, "), "{shown}");
    let routing = CapabilityRouting::default();
    let shown = worklist_report(&extract_items(&tables), "node-a, node-b", &routing, 2).unwrap();
    assert!(shown.contains("node-a") && shown.contains("node-b"), "{shown}");
    store.row(&a).input.depends_on = vec![c.clone()];
    let tables = store.tables();
    let message = critical_path_report(&extract_items(&tables)).unwrap_err();
    assert_eq!(
        message,
        format!("Dependency cycle detected among: {a} (Alpha), {b} (Beta), {c} (Gamma)")
    );
    assert_eq!(ready_items(&extract_items(&tables)).unwrap_err(), message);
    assert!(worklist_report(&extract_items(&tables), "", &routing, 2).is_err());
}

#[test]
fn requirements_come_from_tags() {
    let (mut store, a, ..) = chain();
    store.row(&a).input.tags = strings(&["gpu-required", "v20"]);
    let found = item_requirements_from_batches(&store.tables());
    assert_eq!(found, vec![(a, strings(&["gpu"]))]);
}

#[test]
fn webs_of_items_are_collected() {
    let (store, a, b, c) = chain();
    let nodes = nodes_of(&extract_items(&store.tables()));
    let web = |depth: u32, scope: &str| collect_web(&nodes, scope_named(scope), &c, depth);
    assert_eq!(web(0, "all"), vec![c.clone()]);
    assert_eq!(web(1, "all"), vec![b.clone(), c.clone()]);
    assert_eq!(web(2, "work"), vec![a.clone(), b.clone(), c.clone()]);
    assert_eq!(web(2, "research"), vec![c.clone()]);
    let lines = vec![written_line(&c, "out/c.md")];
    assert_eq!(
        manifest(&c, "all", 1, "out", &lines, &vec![]),
        format!(
            "Materialized 1 items to out\n\nRoot: {c}\nScope: all\nDepth: 1\n\nFiles written:\n  {c} → out/c.md\n"
        )
    );
}

#[test]
fn rows_become_json() {
    let row = |k: &str, v: &str| (k.to_string(), v.to_string());
    let rows = vec![vec![row("?id", "EX-1"), row("??t", "A")], vec![row("id", "EX-2")]];
    assert_eq!(
        rows_json(&rows),
        "[\n  {\"id\": \"EX-1\", \"t\": \"A\"},\n  {\"id\": \"EX-2\"}\n]\n"
    );
}

#[test]
fn exports_need_what_they_write() {
    assert_eq!(export_kind("json", false, false), Ok(ExportKind::Json));
    assert_eq!(export_kind("anything", true, false), Ok(ExportKind::Item));
    assert_eq!(
        export_kind("item", false, true),
        Err("--id required for item export format".to_string())
    );
    assert_eq!(export_kind("kanban-materialize", false, true), Ok(ExportKind::Materialize));
    assert_eq!(
        export_kind("kanban-materialize", true, false),
        Err("--output required for kanban-materialize format".to_string())
    );
    assert_eq!(export_type(Some("Expedition")), Some("expedition"));
    assert_eq!(export_type(Some("nonsense")), None);
}

#[test]
fn snapshots_are_listed_and_inspected() {
    let list = vec![Snapshot {
        name: "s1".to_string(),
        path: "\"/b/s1\"".to_string(),
        created_at: Some("today".to_string()),
        version: 3,
        commit_count: 9,
    }];
    assert_eq!(
        list_snapshots(&list, "\"/b\""),
        "Snapshots in \"/b\":\n  s1  version=3  commits=9\n"
    );
    assert_eq!(list_snapshots(&vec![], "x"), "No snapshots found in x\n");
    assert_eq!(
        inspect_snapshot(&list, "s1").unwrap(),
        "Snapshot: s1\n  path: \"/b/s1\"\n  created: today\n  version: 3\n  commits: 9\n"
    );
    assert_eq!(inspect_snapshot(&list, "s2").unwrap_err(), "Snapshot 's2' not found");
}

#[test]
fn themes_have_their_types() {
    assert_eq!(types_of_theme("software").len(), 7);
    assert_eq!(types_of_theme("hdd").len(), 6);
    assert_eq!(types_of_theme("nautical").len(), 13);
    assert_eq!(template_file(ItemType::Expedition), "_TEMPLATE_EXPEDITION.md");
    assert_eq!(
        init_message("hdd", 6),
        "Initialized arrow-kanban in .arrow-kanban/ (theme: hdd, 6 templates)"
    );
    assert_eq!(history_since(2_592_000_005, false, true), 5);
    assert_eq!(history_since(604_800_007, true, false), 7);
    assert_eq!(history_since(604_800_007, false, false), 0);
}

#[test]
fn older_tables_get_the_columns_they_lack() {
    let full = Schema::new(vec![
        Field::new("id", DataType::Utf8, false),
        Field::new("attempt_count", DataType::Int32, true),
    ]);
    let column: ArrayRef = Arc::new(StringArray::from(vec!["EX-1", "EX-2"]));
    let old = Table {
        batch: RecordBatch::try_from_iter(vec![("id", column)]).unwrap(),
    };
    let new = normalize_batch(&old, &full).unwrap();
    assert_eq!(new.batch.num_columns(), 2);
    assert_eq!(new.batch.num_rows(), 2);
    assert_eq!(new.batch.column(1).null_count(), 2);
    assert_eq!(new.batch.column(0), old.batch.column(0));
    let again = normalize_batch(&new, &full).unwrap();
    assert_eq!(again.batch, new.batch);
}

#[test]
fn closed_dependencies_hold_nothing_up() {
    for closed in ["done", "complete", "abandoned", "retired"] {
        let mut store = KanbanStore::new();
        let y = add(&mut store, ItemType::Chore, "Y", &[]);
        let x = add(&mut store, ItemType::Chore, "X", &[&y]);
        store.row(&y).status = closed.to_string();
        let tables = store.tables();
        assert_eq!(find_blocked_items(&tables, &tables), Vec::<usize>::new(), "{closed}");
        store.row(&y).status = "stale".to_string();
        let tables = store.tables();
        assert_eq!(find_blocked_items(&tables, &tables), vec![1]);
        store.row(&x).status = closed.to_string();
        let tables = store.tables();
        assert_eq!(find_blocked_items(&tables, &tables), Vec::<usize>::new(), "{closed}");
    }
}

#[test]
fn long_chains_are_followed_to_their_end() {
    let mut store = KanbanStore::new();
    let mut last = add(&mut store, ItemType::Chore, "0", &[]);
    let first = last.clone();
    for i in 1..=130 {
        last = add(&mut store, ItemType::Chore, &i.to_string(), &[&last]);
        if i < 130 {
            store.row(&last).status = "done".to_string();
        }
    }
    let tables = store.tables();
    assert_eq!(find_blocked_items(&tables, &tables), vec![130]);
    store.row(&first).status = "retired".to_string();
    let tables = store.tables();
    assert_eq!(find_blocked_items(&tables, &tables), Vec::<usize>::new());
}

fn node(id: &str, item_type: &str, related: &[&str], depends_on: &[&str]) -> Node {
    Node {
        id: id.to_string(),
        item_type: item_type.to_string(),
        related: strings(related),
        depends_on: strings(depends_on),
    }
}

#[test]
fn webs_hold_items_of_the_scope_only() {
    let nodes = vec![
        node("VY-1", "voyage", &["PAPER-1", "EX-1", "EX-9"], &[]),
        node("PAPER-1", "paper", &["EX-2"], &[]),
        node("EX-1", "expedition", &[], &[]),
        node("EX-2", "expedition", &[], &[]),
    ];
    let web = |scope: &str, depth: u32| collect_web(&nodes, scope_named(scope), "VY-1", depth);
    assert_eq!(web("work", 1), vec!["EX-1", "EX-9", "VY-1"]);
    assert_eq!(web("work", 3), vec!["EX-1", "EX-9", "VY-1"]);
    assert_eq!(web("research", 1), vec!["VY-1"]);
    assert_eq!(web("all", 1), vec!["EX-1", "EX-9", "PAPER-1", "VY-1"]);
    assert_eq!(web("all", 2), vec!["EX-1", "EX-2", "EX-9", "PAPER-1", "VY-1"]);
}

#[test]
fn webs_reach_what_is_near_by_any_way() {
    let nodes = vec![
        node("R", "chore", &["B"], &["A"]),
        node("A", "chore", &["B"], &[]),
        node("B", "chore", &["C"], &[]),
        node("C", "chore", &[], &[]),
    ];
    assert_eq!(collect_web(&nodes, scope_named("all"), "R", 2), vec!["A", "B", "C", "R"]);
}

#[test]
fn new_ids_follow_the_highest() {
    let ids = strings(&["EX-3", "EX-12", "CH-40", "EX-x", "EXPR-99"]);
    assert_eq!(next_id(&ids, "EX-"), "EX-13");
    assert_eq!(next_id(&ids, "VY-"), "VY-1");
    assert_eq!(next_id(&strings(&["EX-4294967295"]), "EX-"), "EX-4294967296");
}
