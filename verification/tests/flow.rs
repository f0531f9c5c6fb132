//! Flow of work: what was in which status when.
use std::sync::Arc;

use arrow::array::{BooleanArray, RecordBatch, StringArray, TimestampMillisecondArray};
use arrow_kanban::columns::Table;
use arrow_kanban::config::BoardConfig;
use arrow_kanban::flow::{
    aging, combined_series_type, flow_items, render_aging, render_cfd, render_throughput,
    render_wip, status_series, throughput, transitions, wip, FlowItem, Transition,
};
use arrow_kanban::keyed::lookup;

fn dev_board() -> BoardConfig {
    BoardConfig {
        name: "development".to_string(),
        preset: "nautical".to_string(),
        path: "kanban-work/".to_string(),
        scan_paths: vec!["kanban-work/expeditions/".to_string()],
        ignore: vec![],
        wip_exempt_types: vec!["voyage".to_string()],
        wip_limits: vec![
            ("provisioning".to_string(), 50),
            ("underway".to_string(), 4),
            ("approaching".to_string(), 3),
        ],
        states: vec![
            "backlog".to_string(),
            "planning".to_string(),
            "ready".to_string(),
            "in_progress".to_string(),
            "review".to_string(),
            "done".to_string(),
        ],
        phases: vec![],
        type_states: vec![],
    }
}

fn t(id: &str, from: Option<&str>, to: &str, ts: i64, forced: bool) -> Transition {
    Transition {
        item_id: id.into(),
        from: from.map(Into::into),
        to: to.into(),
        ts_ms: ts,
        forced,
    }
}
fn item(id: &str, ty: &str, status: &str, assignee: &str) -> FlowItem {
    FlowItem {
        id: id.into(),
        item_type: ty.into(),
        board: "development".into(),
        status: status.into(),
        assignee: assignee.into(),
    }
}

#[test]
fn series_folds_known_transitions() {
    let trans = vec![
        t("CH-1", None, "backlog", 1_000, false),
        t("EX-2", None, "backlog", 1_000, false),
        t("CH-1", Some("backlog"), "in_progress", 2_000, false),
        t("EX-2", Some("backlog"), "in_progress", 3_000, true),
        t("CH-1", Some("in_progress"), "done", 4_000, false),
    ];
    let items = vec![
        item("CH-1", "chore", "done", "A"),
        item("EX-2", "expedition", "in_progress", "B"),
    ];
    let series = status_series(&trans, &items, 1_000, "development");
    assert_eq!(lookup(&series[0].1, "backlog"), Some(&2), "{series:?}");
    assert_eq!(lookup(&series[2].1, "in_progress"), Some(&2), "{series:?}");
    assert_eq!(lookup(&series[3].1, "done"), Some(&1), "{series:?}");
    assert_eq!(lookup(&series[3].1, "in_progress"), Some(&1), "{series:?}");
}

#[test]
fn chore_and_expedition_are_one_series_and_voyages_are_not() {
    assert!(combined_series_type("chore"));
    assert!(combined_series_type("expedition"));
    assert!(!combined_series_type("voyage"));
    assert!(!combined_series_type("campaign"));
    assert!(!combined_series_type("hazard"));
    assert!(!combined_series_type("signal"));
    let trans = vec![
        t("CH-1", None, "backlog", 1_000, false),
        t("VY-9", None, "backlog", 1_000, false),
    ];
    let items = vec![
        item("CH-1", "chore", "backlog", "-"),
        item("VY-9", "voyage", "backlog", "-"),
    ];
    let series = status_series(&trans, &items, 1_000, "development");
    assert_eq!(
        lookup(&series[0].1, "backlog"),
        Some(&1),
        "voyage leaked into the combined series"
    );
}

#[test]
fn wip_flags_breach_and_exempts_voyages() {
    let mut cfg = dev_board();
    cfg.wip_limits.push(("in_progress".into(), 1));
    let items = vec![
        item("CH-1", "chore", "in_progress", "A"),
        item("CH-2", "chore", "in_progress", "B"),
        item("VY-9", "voyage", "in_progress", "-"),
    ];
    let (rows, per_agent) = wip(&items, &cfg);
    let ip = rows
        .iter()
        .find(|r| r.status == "in_progress")
        .expect("row");
    assert_eq!(ip.count, 2, "voyage must be exempt: {rows:?}");
    assert!(ip.breach, "2 > limit 1 must flag: {rows:?}");
    assert_eq!(
        lookup(&per_agent, "A").and_then(|m| lookup(m, "in_progress")),
        Some(&1)
    );
}

#[test]
fn aging_uses_entry_into_current_status_and_skips_unmeasurable() {
    let trans = vec![
        t("CH-1", None, "backlog", 1_000, false),
        t("CH-1", Some("backlog"), "in_progress", 2_000, false),
        t("CH-1", Some("in_progress"), "backlog", 3_000, false),
        t("CH-1", Some("backlog"), "in_progress", 5_000, false),
    ];
    let items = vec![
        item("CH-1", "chore", "in_progress", "A"),
        item("CH-2", "chore", "in_progress", "B"),
    ];
    let terminal = vec!["done".to_string()];
    let rows = aging(&items, &trans, &terminal, 10_000);
    assert_eq!(rows.len(), 1, "the unmeasurable item is skipped: {rows:?}");
    assert_eq!(
        rows[0].in_status_ms, 5_000,
        "clock restarts at RE-entry: {rows:?}"
    );
}

#[test]
fn throughput_counts_terminal_arrivals() {
    let trans = vec![
        t("CH-1", Some("review"), "done", 1_000, false),
        t("EX-2", Some("review"), "done", 1_500, false),
        t("VY-9", Some("review"), "done", 1_600, false),
        t("CH-3", Some("review"), "done", 90_000_000, false),
    ];
    let items = vec![
        item("CH-1", "chore", "done", "-"),
        item("EX-2", "expedition", "done", "-"),
        item("VY-9", "voyage", "done", "-"),
        item("CH-3", "chore", "done", "-"),
    ];
    let terminal = vec!["done".to_string()];
    let buckets = throughput(&trans, &items, &terminal, 86_400_000);
    assert_eq!(buckets.len(), 2, "{buckets:?}");
    assert_eq!(
        buckets[0].1, 2,
        "voyage excluded from the combined series: {buckets:?}"
    );
    assert_eq!(buckets[1].1, 1);
}

#[test]
fn flow_is_shown_as_text() {
    let items = vec![item("CH-1", "chore", "in_progress", "A")];
    let trans = vec![
        t("CH-1", None, "backlog", 1_000, false),
        t("CH-1", Some("backlog"), "in_progress", 86_401_000, false),
    ];
    let (rows, per_agent) = wip(&items, &dev_board());
    let shown = render_wip(&rows, &per_agent);
    assert!(shown.contains("in_progress"), "{shown}");
    let rows = aging(&items, &trans, &vec!["done".to_string()], 3 * 86_400_000);
    assert_eq!(rows[0].in_status_ms, 2 * 86_400_000 - 1_000);
    assert!(render_aging(&rows).contains("CH-1"));
    let shown = render_throughput(&[(86_400_000, 3)], 86_400_000);
    assert!(shown.contains("1970-01-02"), "{shown}");
    let series = status_series(&trans, &items, 86_400_000, "development");
    let shown = render_cfd(&series);
    assert!(shown.contains("1970-01-01"), "{shown}");
    assert!(shown.contains("in_progress"), "{shown}");
}

#[test]
fn each_item_counts_once_in_the_rows() {
    let items = vec![
        item("CH-1", "chore", "in_progress", "A"),
        item("CH-2", "chore", "backlog", "A"),
        item("EX-3", "expedition", "backlog", "B"),
    ];
    let (rows, _) = wip(&items, &dev_board());
    assert_eq!(rows.iter().map(|r| r.count).sum::<usize>(), 3);
}
