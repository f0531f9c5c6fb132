//! The texts that views of a board are shown as, to the letter.
use arrow_kanban::critical_path::{
    compute_critical_path, format_campaign_roadmap, format_critical_path, format_roadmap,
    format_worklist, generate_worklist, group_by_voyage, CapabilityRouting, ItemInfo,
};
use arrow_kanban::flow::{
    render_aging, render_cfd, render_throughput, render_wip, AgingRow, WipRow,
};
use arrow_kanban::validate::{
    format_board_summary, format_report, Severity, ValidationReport, Violation,
};

fn item(id: &str, title: &str, item_type: &str, status: &str, priority: &str) -> ItemInfo {
    ItemInfo {
        id: id.into(),
        title: title.into(),
        item_type: item_type.into(),
        status: status.into(),
        priority: priority.into(),
        assignee: "-".into(),
        related: vec![],
        depends_on: vec![],
        rank: None,
    }
}

fn board() -> Vec<ItemInfo> {
    let trip = item("VY-1", "Trip", "voyage", "backlog", "critical");
    let mut first = item("EX-1", "First", "expedition", "in_progress", "high");
    first.assignee = "A".into();
    first.related = vec!["VY-1".into()];
    let mut second = item("EX-2", "Second", "expedition", "backlog", "high");
    second.related = vec!["VY-1".into()];
    second.depends_on = vec!["EX-1".into()];
    let loose = item("CH-3", "Loose", "chore", "backlog", "low");
    vec![trip, first, second, loose]
}

#[test]
fn a_roadmap_to_the_letter() {
    let items = board();
    let cp = compute_critical_path(&items).unwrap();
    let (groups, orphans) = group_by_voyage(&items);
    let expected = [
        "VY-1: Trip [0/2 done]".to_string(),
        format!("  ▶ {:<14}{:<46}IN PROGRESS  A", "EX-1", "First"),
        format!("  ◇ {:<14}{:<46}BLOCKED -> EX-1", "EX-2", "Second"),
        String::new(),
        "Ungrouped:".to_string(),
        format!("  → {:<14}{:<46}READY", "CH-3", "Loose"),
        String::new(),
    ];
    assert_eq!(format_roadmap(&items, &groups, &orphans, &cp), expected.join("\n"));
}

#[test]
fn long_titles_are_cut_in_a_roadmap() {
    let mut items = board();
    items[3].title = "x".repeat(45);
    let cp = compute_critical_path(&items).unwrap();
    let (groups, orphans) = group_by_voyage(&items);
    let shown = format_roadmap(&items, &groups, &orphans, &cp);
    let cut = format!("{}...", "x".repeat(41));
    assert!(shown.contains(&format!("  → {:<14}{:<46}READY", "CH-3", cut)), "{shown}");
}

#[test]
fn a_critical_path_to_the_letter() {
    let items = board();
    let cp = compute_critical_path(&items).unwrap();
    let expected = [
        "Critical Path (4 items, 2 depth levels):".to_string(),
        String::new(),
        "Depth 0 (start now — 3 parallel):".to_string(),
        format!("  {:<14}{:<46}Any     ", "VY-1", "Trip"),
        format!("  {:<14}{:<46}A       ", "EX-1", "First"),
        format!("  {:<14}{:<46}Any     ", "CH-3", "Loose"),
        String::new(),
        "Depth 1 (after depth 0):".to_string(),
        format!("  {:<14}{:<46}Any       <- EX-1", "EX-2", "Second"),
        String::new(),
        "Bottlenecks (most downstream dependents):".to_string(),
        format!("  {:<14}{:<42} -> 1 items depend", "EX-1", "First"),
        String::new(),
    ];
    assert_eq!(format_critical_path(&items, &cp), expected.join("\n"));
    let none = compute_critical_path(&[]).unwrap();
    assert_eq!(format_critical_path(&[], &none), "Critical Path (0 items, 1 depth levels):\n");
}

#[test]
fn a_worklist_to_the_letter() {
    let items = board();
    let cp = compute_critical_path(&items).unwrap();
    let agents = vec!["A".to_string(), "B".to_string()];
    let list = generate_worklist(&items, &cp, &agents, &CapabilityRouting::default(), 4);
    let row = |a: &str, b: &str| format!("| {a:<24} | {b:<24} |");
    let expected = [
        row("A", "B"),
        row(&"-".repeat(24), &"-".repeat(24)),
        row("EX-1 First", "VY-1 Trip"),
        row("VY-1 Trip", "CH-3 Loose"),
        row("CH-3 Loose", "EX-2 Second ~"),
        row("EX-2 Second ~", ""),
        String::new(),
        "~ = blocked, will become ready after current work completes".to_string(),
    ];
    assert_eq!(format_worklist(&list), expected.join("\n"));
}

#[test]
fn a_campaign_to_the_letter() {
    let items = board();
    assert_eq!(
        format_campaign_roadmap("CA-1", &vec![], &items),
        "Campaign CA-1 — 0 member voyage(s) [partOf]:\n  (no members yet — a voyage joins with: arrow-kanban update VY-XXXX --relate partOf:CA-1)\n"
    );
    let mut done = board();
    done[1].status = "done".into();
    let expected = [
        "Campaign CA-1 — 1 member voyage(s) [partOf]:".to_string(),
        "  Program: 1/2 expeditions done (50%)".to_string(),
        String::new(),
        "VY-1: Trip [1/2 done]".to_string(),
        format!("  ✓ {:<14}{:<46}done  A", "EX-1", "First"),
        format!("  → {:<14}{:<46}READY", "EX-2", "Second"),
        String::new(),
    ];
    let shown = format_campaign_roadmap("CA-1", &vec!["VY-1".to_string()], &done);
    assert_eq!(shown, expected.join("\n"));
}

#[test]
fn work_in_progress_to_the_letter() {
    let row = |status: &str, count: usize, limit: Option<u32>, breach: bool| WipRow {
        status: status.into(),
        count,
        limit,
        breach,
    };
    let rows = vec![row("backlog", 12, None, false), row("in_progress", 5, Some(4), true)];
    let per_agent = vec![(
        "A".to_string(),
        vec![("backlog".to_string(), 1), ("in_progress".to_string(), 2)],
    )];
    let expected = [
        "WIP vs limits (voyage/campaign exempt; chore+expedition combined per the type-drift ruling)"
            .to_string(),
        format!("  {:<14} {:>4} / limit -", "backlog", 12),
        format!("  {:<14} {:>4} / limit 4  ⚠ BREACH", "in_progress", 5),
        "per agent:".to_string(),
        format!("  {:<10} backlog=1 in_progress=2", "A"),
        String::new(),
    ];
    assert_eq!(render_wip(&rows, &per_agent), expected.join("\n"));
}

#[test]
fn ages_to_the_letter() {
    let head = "WIP aging (time in CURRENT status, from the runs audit trail)\n";
    assert_eq!(render_aging(&[]), format!("{head}  (no measurable non-terminal items)\n"));
    let row = |id: &str, in_status_ms: i64| AgingRow {
        id: id.into(),
        status: "review".into(),
        in_status_ms,
    };
    let hour: i64 = 3_600_000;
    assert_eq!(
        render_aging(&[row("CH-1", 73 * hour), row("CH-2", 48 * hour - 1)]),
        format!(
            "{head}  {:<10} {:<14} {:>4}d\n  {:<10} {:<14} {:>4}h\n",
            "CH-1", "review", 3, "CH-2", "review", 47
        )
    );
}

#[test]
fn throughput_to_the_letter() {
    let day: i64 = 86_400_000;
    assert_eq!(
        render_throughput(&[(0, 2), (day, 61)], day),
        format!(
            "throughput (terminal arrivals per day, chore+expedition combined)\n  1970-01-01  {:>4}  ##\n  1970-01-02  {:>4}  {}\n",
            2,
            61,
            "#".repeat(60)
        )
    );
    assert_eq!(
        render_throughput(&[], 7 * day),
        "throughput (terminal arrivals per week, chore+expedition combined)\n  (no terminal transitions recorded)\n"
    );
}

#[test]
fn cumulative_flow_to_the_letter() {
    let day: i64 = 86_400_000;
    let series = vec![
        (0, vec![("backlog".to_string(), 2)]),
        (day, vec![("backlog".to_string(), 1), ("done".to_string(), 1)]),
    ];
    let expected = [
        "cumulative flow (items per status per bucket)".to_string(),
        format!("  bucket  {:>12}  {:>12}", "backlog", "done"),
        format!("  1970-01-01  {:>12}  {:>12}", 2, 0),
        format!("  1970-01-02  {:>12}  {:>12}", 1, 1),
        String::new(),
    ];
    assert_eq!(render_cfd(&series), expected.join("\n"));
    assert_eq!(
        render_cfd(&[]),
        "cumulative flow (items per status per bucket)\n  bucket\n  (no transitions in scope)\n"
    );
}

#[test]
fn days_out_of_range_are_shown_as_numbers() {
    let shown = render_throughput(&[(i64::MAX, 1)], 1);
    assert!(shown.contains(&format!("  {}  ", i64::MAX)), "{shown}");
}

#[test]
fn reports_to_the_letter() {
    let violation = |field: &str, message: &str, severity: Severity| Violation {
        field: field.into(),
        message: message.into(),
        severity,
    };
    let report = ValidationReport {
        item_id: "EX-1".into(),
        item_type: "expedition".into(),
        violations: vec![
            violation("body", "no body", Severity::Error),
            violation("assignee", "nobody", Severity::Warning),
            violation("colour", "no colour", Severity::Warning),
        ],
    };
    assert_eq!(
        format_report(&report, true),
        "EX-1 expedition — VIOLATIONS (1 errors, 2 warnings)\n  ERROR   body: no body\n  WARNING assignee: nobody\n  WARNING colour: no colour\n\nSuggested fixes:\n  nk update EX-1 --body-file /tmp/body.md\n  nk update EX-1 --assign M5\n  nk update EX-1 # fix colour"
    );
    let fine = ValidationReport {
        item_id: "CH-2".into(),
        item_type: "chore".into(),
        violations: vec![],
    };
    assert_eq!(format_report(&fine, true), "CH-2 chore — OK");
    let warned = ValidationReport {
        item_id: "CH-3".into(),
        item_type: "chore".into(),
        violations: vec![violation("body", "no body", Severity::Warning)],
    };
    assert_eq!(
        format_report(&warned, false),
        "CH-3 chore — WARNINGS (1)\n  WARNING body: no body"
    );
    assert_eq!(
        format_board_summary(&[report, fine, warned]),
        "Validation summary: 2 conformant, 1 with violations\n\nItems with violations:\n  EX-1 (expedition) — 1 errors, 2 warnings"
    );
    assert_eq!(
        format_board_summary(&[]),
        "Validation summary: 0 conformant, 0 with violations\nAll items conform to their SHACL shapes."
    );
}
