//! Checks of items, and of what waits for ratification.
use std::sync::Arc;

use arrow::array::{
    ArrayRef, BooleanArray, FixedSizeListBuilder, Float32Builder, Int32Array, ListArray,
    ListBuilder, RecordBatch, StringArray, StringBuilder, TimestampMillisecondArray,
};
use arrow_kanban::columns::Table;
use arrow_kanban::embedding::EMBED_DIM;
use arrow_kanban::item_type::ItemType;
use arrow_kanban::ratification::{body_says_pending, voyage_id_from_tag};
use arrow_kanban::setup::board_report;
use arrow_kanban::validate::{
    check_ratification_consistency, format_board_summary, format_ratification_findings,
    format_report, suggest_fixes, validate_all, validate_item, RatificationFinding,
    RatificationIssue, Severity,
};

/// What a new item is made of.
struct CreateItemInput {
    title: String,
    item_type: ItemType,
    priority: Option<String>,
    assignee: Option<String>,
    tags: Vec<String>,
    related: Vec<String>,
    depends_on: Vec<String>,
    body: Option<String>,
    embedding: Option<Vec<f32>>,
}

/// One item of the board in the tests.
struct Row {
    id: String,
    status: String,
    resolution: Option<String>,
    rank: Option<i32>,
    deleted: bool,
    input: CreateItemInput,
}

/// A board in memory: one table for each item.
struct KanbanStore {
    rows: Vec<Row>,
}

fn texts(list: &[String]) -> ListArray {
    let mut builder = ListBuilder::new(StringBuilder::new());
    for s in list {
        builder.values().append_value(s);
    }
    builder.append(true);
    builder.finish()
}

fn text(value: Option<&str>) -> ArrayRef {
    Arc::new(StringArray::from(vec![value]))
}

fn vector(value: Option<&Vec<f32>>) -> ArrayRef {
    let mut builder = FixedSizeListBuilder::new(Float32Builder::new(), EMBED_DIM as i32);
    match value {
        Some(v) => builder.values().append_slice(v),
        None => builder.values().append_nulls(EMBED_DIM),
    }
    builder.append(value.is_some());
    Arc::new(builder.finish())
}

fn item_table(row: &Row) -> Table {
    let board = if ItemType::RESEARCH.iter().any(|t| t.as_str() == row.input.item_type.as_str()) {
        "research"
    } else {
        "development"
    };
    let columns: Vec<(&str, ArrayRef)> = vec![
        ("id", text(Some(&row.id))),
        ("title", text(Some(&row.input.title))),
        ("item_type", text(Some(row.input.item_type.as_str()))),
        ("status", text(Some(&row.status))),
        ("priority", text(row.input.priority.as_deref())),
        ("created", Arc::new(TimestampMillisecondArray::from(vec![1_000]))),
        ("assignee", text(row.input.assignee.as_deref())),
        ("board", text(Some(board))),
        ("tags", Arc::new(texts(&row.input.tags))),
        ("related", Arc::new(texts(&row.input.related))),
        ("depends_on", Arc::new(texts(&row.input.depends_on))),
        ("body", text(row.input.body.as_deref())),
        ("body_hash", text(None)),
        ("deleted", Arc::new(BooleanArray::from(vec![row.deleted]))),
        ("resolution", text(row.resolution.as_deref())),
        ("closed_by", text(None)),
        ("updated_at", Arc::new(TimestampMillisecondArray::from(vec![None::<i64>]))),
        ("priority_rank", Arc::new(Int32Array::from(vec![row.rank]))),
        ("attempt_count", Arc::new(Int32Array::from(vec![0]))),
        ("embedding", vector(row.input.embedding.as_ref())),
    ];
    let batch = RecordBatch::try_from_iter_with_nullable(
        columns.into_iter().map(|(name, column)| (name, column, true)),
    );
    Table { batch: batch.expect("one row") }
}

impl KanbanStore {
    fn new() -> Self {
        KanbanStore { rows: vec![] }
    }

    fn create_item(&mut self, input: &CreateItemInput) -> Result<String, String> {
        let id = format!("{}-{}", input.item_type.prefix(), 3001 + self.rows.len());
        self.rows.push(Row {
            id: id.clone(),
            status: "backlog".to_string(),
            resolution: None,
            rank: None,
            deleted: false,
            input: CreateItemInput {
                title: input.title.clone(),
                item_type: input.item_type,
                priority: input.priority.clone(),
                assignee: input.assignee.clone(),
                tags: input.tags.clone(),
                related: input.related.clone(),
                depends_on: input.depends_on.clone(),
                body: input.body.clone(),
                embedding: input.embedding.clone(),
            },
        });
        Ok(id)
    }

    fn row(&mut self, id: &str) -> &mut Row {
        self.rows.iter_mut().find(|r| r.id == id).expect("an item")
    }

    fn tables(&self) -> Vec<Table> {
        self.rows.iter().map(item_table).collect()
    }
}

fn make_item(
    item_type: ItemType,
    priority: Option<&str>,
    assignee: Option<&str>,
    body: Option<&str>,
    status: &str,
) -> Table {
    let mut store = KanbanStore::new();
    let id = store
        .create_item(&CreateItemInput {
            title: "Test Item".to_string(),
            item_type,
            priority: priority.map(|s| s.to_string()),
            assignee: assignee.map(|s| s.to_string()),
            tags: vec![],
            related: vec![],
            depends_on: vec![],
            body: body.map(|s| s.to_string()),
            embedding: None,
        })
        .expect("create_item");

    if status != "backlog" {
        store.row(&id).status = status.to_string();
    }

    item_table(store.row(&id))
}

#[test]
fn test_expedition_without_body_produces_error() {
    let batch = make_item(
        ItemType::Expedition,
        Some("high"),
        Some("M5"),
        None,
        "backlog",
    );
    let report = validate_item(&batch);
    assert!(!report.is_conformant());
    assert!(report.violations.iter().any(|v| v.field == "body"));
    assert!(
        report
            .violations
            .iter()
            .any(|v| v.field == "body" && v.severity == Severity::Error)
    );
}

#[test]
fn test_expedition_with_body_no_body_violation() {
    let batch = make_item(
        ItemType::Expedition,
        Some("high"),
        Some("M5"),
        Some("## Phase 1\nDo the thing."),
        "backlog",
    );
    let report = validate_item(&batch);
    assert!(
        !report.violations.iter().any(|v| v.field == "body"),
        "should have no body violation when body is set"
    );
}

#[test]
fn test_chore_without_body_produces_error() {
    let batch = make_item(ItemType::Chore, Some("low"), None, None, "backlog");
    let report = validate_item(&batch);
    assert!(
        report
            .violations
            .iter()
            .any(|v| v.field == "body" && v.severity == Severity::Error)
    );
}

#[test]
fn test_hazard_without_body_produces_warning_not_error() {
    let batch = make_item(ItemType::Hazard, None, None, None, "backlog");
    let report = validate_item(&batch);
    let body_violations: Vec<_> = report
        .violations
        .iter()
        .filter(|v| v.field == "body")
        .collect();
    assert!(
        !body_violations.is_empty(),
        "hazard without body should have a body violation"
    );
    assert!(
        body_violations
            .iter()
            .all(|v| v.severity == Severity::Warning)
    );
}

#[test]
fn test_signal_without_body_produces_warning_not_error() {
    let batch = make_item(ItemType::Signal, None, None, None, "backlog");
    let report = validate_item(&batch);
    let body_violations: Vec<_> = report
        .violations
        .iter()
        .filter(|v| v.field == "body")
        .collect();
    assert!(
        body_violations
            .iter()
            .all(|v| v.severity == Severity::Warning)
    );
}

#[test]
fn test_expedition_without_priority_produces_error() {
    let batch = make_item(
        ItemType::Expedition,
        None,
        Some("M5"),
        Some("body"),
        "backlog",
    );
    let report = validate_item(&batch);
    assert!(
        report
            .violations
            .iter()
            .any(|v| v.field == "priority" && v.severity == Severity::Error)
    );
}

#[test]
fn test_voyage_without_priority_produces_error() {
    let batch = make_item(ItemType::Voyage, None, None, Some("body"), "backlog");
    let report = validate_item(&batch);
    assert!(
        report
            .violations
            .iter()
            .any(|v| v.field == "priority" && v.severity == Severity::Error)
    );
}

#[test]
fn test_hypothesis_does_not_require_priority() {
    let batch = make_item(ItemType::Hypothesis, None, None, Some("body"), "backlog");
    let report = validate_item(&batch);
    assert!(
        !report.violations.iter().any(|v| v.field == "priority"),
        "hypothesis should not require priority"
    );
}

#[test]
fn test_expedition_without_assignee_produces_warning() {
    let batch = make_item(
        ItemType::Expedition,
        Some("high"),
        None,
        Some("body"),
        "backlog",
    );
    let report = validate_item(&batch);
    assert!(
        report
            .violations
            .iter()
            .any(|v| v.field == "assignee" && v.severity == Severity::Warning)
    );
}

#[test]
fn test_chore_without_assignee_no_violation() {
    let batch = make_item(ItemType::Chore, Some("low"), None, Some("body"), "backlog");
    let report = validate_item(&batch);
    assert!(
        !report.violations.iter().any(|v| v.field == "assignee"),
        "chore should not require assignee"
    );
}

#[test]
fn test_in_progress_with_unassigned_produces_warning() {
    let batch = make_item(
        ItemType::Expedition,
        Some("high"),
        Some("unassigned"),
        Some("body"),
        "in_progress",
    );
    let report = validate_item(&batch);
    assert!(
        report
            .violations
            .iter()
            .any(|v| v.field == "assignee" && v.severity == Severity::Warning),
        "in_progress item with 'unassigned' should produce assignee warning"
    );
}

#[test]
fn test_fully_conformant_expedition() {
    let batch = make_item(
        ItemType::Expedition,
        Some("high"),
        Some("M5"),
        Some("## Phase 1\nDo the thing."),
        "backlog",
    );
    let report = validate_item(&batch);
    assert!(
        report.is_conformant(),
        "fully-set expedition should be conformant (no errors)"
    );
    assert!(
        !report
            .violations
            .iter()
            .any(|v| v.severity == Severity::Error)
    );
}

#[test]
fn test_is_conformant_false_when_errors_exist() {
    let batch = make_item(ItemType::Expedition, None, None, None, "backlog");
    let report = validate_item(&batch);
    assert!(!report.is_conformant());
}

#[test]
fn test_suggest_fixes_returns_nk_update_commands() {
    let batch = make_item(ItemType::Expedition, None, None, None, "backlog");
    let report = validate_item(&batch);
    let fixes = suggest_fixes(&report);
    assert!(!fixes.is_empty());
    assert!(
        fixes.iter().all(|f| f.starts_with("nk update ")),
        "all fix suggestions should start with 'nk update'"
    );
}

#[test]
fn test_suggest_fixes_assignee_command() {
    let batch = make_item(
        ItemType::Expedition,
        Some("high"),
        None,
        Some("body"),
        "backlog",
    );
    let report = validate_item(&batch);
    let fixes = suggest_fixes(&report);
    assert!(
        fixes.iter().any(|f| f.contains("--assign")),
        "should suggest --assign fix"
    );
}

#[test]
fn test_suggest_fixes_body_command() {
    let batch = make_item(
        ItemType::Expedition,
        Some("high"),
        Some("M5"),
        None,
        "backlog",
    );
    let report = validate_item(&batch);
    let fixes = suggest_fixes(&report);
    assert!(
        fixes.iter().any(|f| f.contains("--body-file")),
        "should suggest --body-file fix"
    );
}

#[test]
fn test_suggest_fixes_priority_command() {
    let batch = make_item(
        ItemType::Expedition,
        None,
        Some("M5"),
        Some("body"),
        "backlog",
    );
    let report = validate_item(&batch);
    let fixes = suggest_fixes(&report);
    assert!(
        fixes.iter().any(|f| f.contains("--priority")),
        "should suggest --priority fix"
    );
}

#[test]
fn test_validate_all_returns_one_report_per_item() {
    let mut store = KanbanStore::new();
    store
        .create_item(&CreateItemInput {
            title: "A".to_string(),
            item_type: ItemType::Expedition,
            priority: None,
            assignee: None,
            tags: vec![],
            related: vec![],
            depends_on: vec![],
            body: None,
            embedding: None,
        })
        .unwrap();
    store
        .create_item(&CreateItemInput {
            title: "B".to_string(),
            item_type: ItemType::Chore,
            priority: Some("low".to_string()),
            assignee: None,
            tags: vec![],
            related: vec![],
            depends_on: vec![],
            body: Some("body".to_string()),
            embedding: None,
        })
        .unwrap();

    let batches = store.tables();
    let reports = validate_all(&batches);
    assert_eq!(reports.len(), 2);
}

#[test]
fn test_validate_all_conformant_item_passes() {
    let mut store = KanbanStore::new();
    store
        .create_item(&CreateItemInput {
            title: "Good".to_string(),
            item_type: ItemType::Expedition,
            priority: Some("high".to_string()),
            assignee: Some("M5".to_string()),
            tags: vec![],
            related: vec![],
            depends_on: vec![],
            body: Some("## Phase 1\nDo the thing.".to_string()),
            embedding: None,
        })
        .unwrap();

    let batches = store.tables();
    let reports = validate_all(&batches);
    assert_eq!(reports.len(), 1);
    assert!(reports[0].is_conformant());
}

#[test]
fn test_format_report_conformant_shows_ok() {
    let batch = make_item(
        ItemType::Expedition,
        Some("high"),
        Some("M5"),
        Some("body"),
        "backlog",
    );
    let report = validate_item(&batch);
    let out = format_report(&report, false);
    assert!(out.contains("OK"), "conformant item should show OK");
}

#[test]
fn test_format_report_violations_shows_error_label() {
    let batch = make_item(ItemType::Expedition, None, None, None, "backlog");
    let report = validate_item(&batch);
    let out = format_report(&report, false);
    assert!(out.contains("ERROR"), "report should show ERROR label");
    assert!(
        out.contains("VIOLATIONS"),
        "report header should say VIOLATIONS"
    );
}

#[test]
fn test_format_report_with_fixes_shows_suggestions() {
    let batch = make_item(ItemType::Expedition, None, None, None, "backlog");
    let report = validate_item(&batch);
    let out = format_report(&report, true);
    assert!(out.contains("Suggested fixes:"));
    assert!(out.contains("nk update "));
}

#[test]
fn test_format_board_summary_all_ok() {
    let mut store = KanbanStore::new();
    store
        .create_item(&CreateItemInput {
            title: "Good".to_string(),
            item_type: ItemType::Expedition,
            priority: Some("high".to_string()),
            assignee: Some("M5".to_string()),
            tags: vec![],
            related: vec![],
            depends_on: vec![],
            body: Some("body".to_string()),
            embedding: None,
        })
        .unwrap();

    let batches = store.tables();
    let reports = validate_all(&batches);
    let summary = format_board_summary(&reports);
    assert!(summary.contains("1 conformant"));
    assert!(summary.contains("0 with violations"));
    assert!(summary.contains("All items conform"));
}

fn make_full_item(
    store: &mut KanbanStore,
    item_type: ItemType,
    tags: &[&str],
    related: &[&str],
    body: Option<&str>,
) -> String {
    store
        .create_item(&CreateItemInput {
            title: "T".to_string(),
            item_type,
            priority: Some("high".to_string()),
            assignee: None,
            tags: tags.iter().map(|s| s.to_string()).collect(),
            related: related.iter().map(|s| s.to_string()).collect(),
            depends_on: vec![],
            body: body.map(|s| s.to_string()),
            embedding: None,
        })
        .expect("create_item")
}

fn find_finding<'a>(
    findings: &'a [RatificationFinding],
    id: &str,
) -> Option<&'a RatificationFinding> {
    findings.iter().find(|f| f.item_id == id)
}

#[test]
fn test_body_says_pending_matches_only_a_leading_status_marker() {
    assert!(body_says_pending(
        "**PENDING CAPTAIN RATIFICATION** (VY-6426). PR class: in-plane."
    ));
    assert!(body_says_pending("PENDING RATIFICATION\n\nPhase 1: ..."));
    assert!(body_says_pending(
        "> **Awaiting Captain ratification** of the scope."
    ));
    assert!(body_says_pending("\n\n  **pending ratification** — rev2"));
}

#[test]
fn test_body_says_pending_rejects_prose_mentions_the_live_false_positives() {
    assert!(!body_says_pending(
        "THE RECURRING BUG: an item's BODY says \"PENDING CAPTAIN RATIFICATION\" but carries no tag."
    ));
    assert!(!body_says_pending(
        "**✅ RELEASED 2026-07-24 — FLEET-READY.** ... pending-ratification cleared."
    ));
    assert!(!body_says_pending(
        "Converging, not thrashing: Q=0, 0 pending-ratification, no stop-train."
    ));
    assert!(!body_says_pending("their sealed floor is stale"));
    assert!(!body_says_pending("this is pending review by a peer"));
    assert!(!body_says_pending("bounce it back to the author"));
}

#[test]
fn test_body_pending_no_tag_is_an_error() {
    let mut store = KanbanStore::new();
    let id = make_full_item(
        &mut store,
        ItemType::Expedition,
        &["v20"],
        &[],
        Some("**PENDING CAPTAIN RATIFICATION** (VY-1). Phase 1..."),
    );
    let batches = store.tables();
    let findings = check_ratification_consistency(&batches);
    let f = find_finding(&findings, &id).expect("should flag the pollution");
    assert_eq!(f.issue, RatificationIssue::BodyPendingNoTag);
    assert_eq!(f.severity, Severity::Error);
}

#[test]
fn test_body_pending_with_tag_clears() {
    let mut store = KanbanStore::new();
    let id = make_full_item(
        &mut store,
        ItemType::Expedition,
        &["v20", "pending-ratification"],
        &[],
        Some("**PENDING RATIFICATION**. Phase 1..."),
    );
    let batches = store.tables();
    let findings = check_ratification_consistency(&batches);
    assert!(
        find_finding(&findings, &id).is_none(),
        "an item that carries the tag is consistent — no finding"
    );
}

#[test]
fn test_body_pending_child_exempt_when_parent_voyage_pending() {
    let mut store = KanbanStore::new();
    let voyage = make_full_item(
        &mut store,
        ItemType::Voyage,
        &["v20", "pending-ratification"],
        &[],
        Some("Voyage body pending ratification"),
    );
    let child = make_full_item(
        &mut store,
        ItemType::Expedition,
        &["v20"],
        &[voyage.as_str()],
        Some("**PENDING RATIFICATION** — inherits from the voyage"),
    );
    let batches = store.tables();
    let findings = check_ratification_consistency(&batches);
    assert!(
        find_finding(&findings, &child).is_none(),
        "a child inherits pending from its parent voyage's tag — not pollution"
    );
}

#[test]
fn test_voyage_id_from_tag_normalizes_only_voyage_member_tags() {
    assert_eq!(voyage_id_from_tag("vy-6416"), Some("VY-6416".to_string()));
    assert_eq!(voyage_id_from_tag("VY-6416"), Some("VY-6416".to_string()));
    assert_eq!(voyage_id_from_tag("v20"), None);
    assert_eq!(voyage_id_from_tag("vy-"), None);
    assert_eq!(voyage_id_from_tag("vy-abc"), None);
    assert_eq!(voyage_id_from_tag("safety"), None);
}

#[test]
fn test_body_pending_child_exempt_via_vy_tag_not_just_related() {
    let mut store = KanbanStore::new();
    let voyage = make_full_item(
        &mut store,
        ItemType::Voyage,
        &["v20", "pending-ratification"],
        &[],
        Some("Voyage pending ratification"),
    );
    let vy_tag = voyage.to_lowercase();
    let child = make_full_item(
        &mut store,
        ItemType::Expedition,
        &["v20", vy_tag.as_str()],
        &[],
        Some("**PENDING CAPTAIN RATIFICATION** — inherits via the vy-tag"),
    );
    let batches = store.tables();
    let findings = check_ratification_consistency(&batches);
    assert!(
        find_finding(&findings, &child).is_none(),
        "a child linked to a pending voyage by its `vy-NNNN` TAG (not Related) inherits pending \
         — not pollution"
    );
}

#[test]
fn test_tag_without_body_marker_is_a_warning() {
    let mut store = KanbanStore::new();
    let id = make_full_item(
        &mut store,
        ItemType::Chore,
        &["v20", "pending-ratification"],
        &[],
        Some("A perfectly ratified body with no marker."),
    );
    let batches = store.tables();
    let findings = check_ratification_consistency(&batches);
    let f = find_finding(&findings, &id).expect("should warn on tag-without-marker");
    assert_eq!(f.issue, RatificationIssue::TagNoBodyMarker);
    assert_eq!(f.severity, Severity::Warning);
}

#[test]
fn test_terminal_item_is_never_flagged() {
    let mut store = KanbanStore::new();
    let id = make_full_item(
        &mut store,
        ItemType::Expedition,
        &["v20"],
        &[],
        Some("**PENDING CAPTAIN RATIFICATION** (long since shipped)."),
    );
    store.row(&id).status = "done".to_string();
    let batches = store.tables();
    let findings = check_ratification_consistency(&batches);
    assert!(
        find_finding(&findings, &id).is_none(),
        "a terminal item's stale body line is harmless — never flagged"
    );
}

#[test]
fn test_tag_but_parent_voyage_ratified_is_a_warning() {
    let mut store = KanbanStore::new();
    let voyage = make_full_item(
        &mut store,
        ItemType::Voyage,
        &["v20"],
        &[],
        Some("Ratified voyage body."),
    );
    let child = make_full_item(
        &mut store,
        ItemType::Expedition,
        &["v20", "pending-ratification"],
        &[voyage.as_str()],
        Some("**PENDING RATIFICATION**. child body."),
    );
    let batches = store.tables();
    let findings = check_ratification_consistency(&batches);
    let f = find_finding(&findings, &child).expect("should warn: tag but parent ratified");
    assert_eq!(f.issue, RatificationIssue::TagButParentVoyageRatified);
    assert_eq!(f.severity, Severity::Warning);
}

#[test]
fn test_clean_board_has_no_findings() {
    let mut store = KanbanStore::new();
    make_full_item(
        &mut store,
        ItemType::Expedition,
        &["v20"],
        &[],
        Some("A clean body with no ratification marker and no tag."),
    );
    let batches = store.tables();
    let findings = check_ratification_consistency(&batches);
    assert!(findings.is_empty(), "a consistent board yields no findings");
    assert!(format_ratification_findings(&findings).is_empty());
}

#[test]
fn test_format_ratification_findings_shows_counts_and_labels() {
    let mut store = KanbanStore::new();
    make_full_item(
        &mut store,
        ItemType::Expedition,
        &["v20"],
        &[],
        Some("PENDING CAPTAIN RATIFICATION"),
    );
    let batches = store.tables();
    let findings = check_ratification_consistency(&batches);
    let out = format_ratification_findings(&findings);
    assert!(out.contains("CH-6502"));
    assert!(out.contains("ERROR"));
    assert!(out.contains("1 error"));
}

#[test]
fn test_format_board_summary_with_violations() {
    let mut store = KanbanStore::new();
    store
        .create_item(&CreateItemInput {
            title: "Bad".to_string(),
            item_type: ItemType::Expedition,
            priority: None,
            assignee: None,
            tags: vec![],
            related: vec![],
            depends_on: vec![],
            body: None,
            embedding: None,
        })
        .unwrap();
    store
        .create_item(&CreateItemInput {
            title: "Good".to_string(),
            item_type: ItemType::Chore,
            priority: Some("low".to_string()),
            assignee: None,
            tags: vec![],
            related: vec![],
            depends_on: vec![],
            body: Some("body".to_string()),
            embedding: None,
        })
        .unwrap();

    let batches = store.tables();
    let reports = validate_all(&batches);
    let summary = format_board_summary(&reports);
    assert!(summary.contains("1 conformant"));
    assert!(summary.contains("1 with violations"));
}

#[test]
fn a_board_report_ends_with_the_summary() {
    let bad = make_item(ItemType::Expedition, None, None, None, "backlog");
    let good = make_item(ItemType::Chore, Some("low"), None, Some("body"), "backlog");
    let reports = validate_all(&[bad, good]);
    let (shown, any) = board_report(&reports, false);
    assert!(any);
    assert!(shown.starts_with(&format_report(&reports[0], false)), "{shown}");
    assert!(shown.ends_with(&format!("{}\n", format_board_summary(&reports))), "{shown}");
    let good = make_item(ItemType::Chore, Some("low"), None, Some("body"), "backlog");
    let reports = validate_all(&[good]);
    assert!(!board_report(&reports, false).1);
}
