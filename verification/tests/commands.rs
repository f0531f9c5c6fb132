//! Commands: what they ask a server for, and what is shown of the reply.
use arrow_kanban::config::BoardConfig;
use arrow_kanban::critical_path::ItemInfo;
use arrow_kanban::edges::{
    add_target, added_edge, created_edge, flat_col_for, parse_relate_specs, project_edges,
    remove_target, removed_edge,
};
use arrow_kanban::export_pages::{next_offset, reassemble_export_pages, PAGE};
use arrow_kanban::items::{DEPENDS_ON, RELATED};
use arrow_kanban::moves::{
    after_push, check_claim, check_move, check_status_filter, count_at_status, created_message,
    creation_commit, move_message, ratify_outcome, update_message, updated_fields, PushStep,
};
use arrow_kanban::parquet_store::{dataset_file, temporary_file, Commit, CommitsTable};
use arrow_kanban::request::{
    body_source, command_to_nats, parse_nats_tags, split_list, update_body, BodyFile, BodySource,
    Command, Argument,
};
use arrow_kanban::response::{client_response, Output, Reply, ReplyField, Scalar};
use arrow_kanban::state_machine::{validate_status_filter, StateError, VALID_STATUSES};

fn with_status(command: &str, status: &str) -> Command {
    let status = Some(status.to_string());
    match command {
        "list" => Command::List {
            status,
            board: None,
            item_type: None,
            assignee: None,
            resolution: None,
            priority: None,
            tag: vec![],
            ready: false,
        },
        "validate" => Command::Validate { id: None, fix: false, board: None, all: false, status },
        "export" => Command::Export {
            id: None,
            format: "json".to_string(),
            board: "development".to_string(),
            item_type: None,
            status,
            output: None,
        },
        _ => unreachable!(),
    }
}

const STATUS_TAKING_COMMANDS: &[&str] = &["list", "validate", "export"];

#[test]
fn every_status_taking_command_refuses_an_unmatchable_value() {
    assert_eq!(STATUS_TAKING_COMMANDS.len(), 3);
    for cmd in STATUS_TAKING_COMMANDS {
        assert!(check_status_filter(&with_status(cmd, "done")).is_ok());
        let text = check_status_filter(&with_status(cmd, "totally-bogus-xyz")).unwrap_err();
        assert!(text.contains("totally-bogus-xyz"), "{text}");
        assert!(
            text.contains("valid statuses:") && text.contains("in_progress"),
            "{text}"
        );
    }
}

#[test]
fn the_hyphen_spelling_is_refused_rather_than_silently_empty() {
    let text = check_status_filter(&with_status("list", "in-progress")).unwrap_err();
    assert!(text.contains("in_progress"), "{text}");
}

#[test]
fn a_valid_status_with_no_matches_still_succeeds_quietly() {
    assert_eq!(check_status_filter(&with_status("list", "done")), Ok(()));
}

#[test]
fn json_pages_concatenate_into_one_array() {
    let pages = vec![
        r#"[{"id":"EX-1"},{"id":"EX-2"}]"#.to_string(),
        r#"[{"id":"EX-3"}]"#.to_string(),
        "[]".to_string(),
    ];
    let out = reassemble_export_pages("json", &pages);
    let v: serde_json::Value = serde_json::from_str(&out).expect("valid json");
    let arr = v.as_array().expect("array");
    assert_eq!(arr.len(), 3, "all items across pages present: {out}");
    assert_eq!(arr[0]["id"], "EX-1");
    assert_eq!(arr[2]["id"], "EX-3");
}

#[test]
fn json_ignores_a_malformed_page() {
    let pages = vec![r#"[{"id":"EX-1"}]"#.to_string(), "not json".to_string()];
    let out = reassemble_export_pages("json", &pages);
    let v: serde_json::Value = serde_json::from_str(&out).expect("valid json");
    assert_eq!(v.as_array().unwrap().len(), 1);
}

#[test]
fn markdown_keeps_one_header_appends_rows() {
    let hdr = "| ID | Title | Type | Status | Priority | Assignee |\n|---|---|---|---|---|---|";
    let page1 = format!("{hdr}\n| EX-1 | A | expedition | done | - | M5 |");
    let page2 = format!("{hdr}\n| EX-2 | B | chore | backlog | - | - |");
    let out = reassemble_export_pages("markdown", &[page1, page2]);
    let header_lines = out
        .lines()
        .filter(|l| l.starts_with("| ID | Title"))
        .count();
    let sep_lines = out
        .lines()
        .filter(|l| *l == "|---|---|---|---|---|---|")
        .count();
    assert_eq!(header_lines, 1, "one header row only:\n{out}");
    assert_eq!(sep_lines, 1, "one separator row only:\n{out}");
    assert!(
        out.contains("| EX-1 |") && out.contains("| EX-2 |"),
        "both rows present"
    );
}

#[test]
fn every_advertised_status_is_actually_accepted() {
    for status in VALID_STATUSES {
        assert!(
            validate_status_filter(status).is_ok(),
            "'{status}' is advertised as valid and must be accepted"
        );
    }
    assert!(
        VALID_STATUSES.len() >= 16,
        "the valid set must not silently shrink — a shrink refuses legitimate queries"
    );
}

#[test]
fn pages_end_at_the_total() {
    assert_eq!(PAGE, 400);
    assert_eq!(next_offset(0, 400, 1000), Some(400));
    assert_eq!(next_offset(800, 200, 1000), None);
    assert_eq!(next_offset(400, 0, 1000), None);
}

#[test]
fn lists_are_split_at_commas() {
    assert_eq!(split_list("a, b ,c"), vec!["a".to_string(), "b".to_string(), "c".to_string()]);
    assert_eq!(parse_nats_tags(&None), Vec::<String>::new());
    assert_eq!(parse_nats_tags(&Some("x".to_string())), vec!["x".to_string()]);
}

#[test]
fn a_move_becomes_a_request() {
    let command = Command::Move {
        id: "EX-1".to_string(),
        status: "done".to_string(),
        assign: None,
        force: true,
        resolution: Some("completed".to_string()),
        closed_by: None,
    };
    let (subject, payload) = command_to_nats(&command, &None);
    assert_eq!(subject, "move");
    let named = |name: &str| payload.iter().find(|p| p.0 == name).map(|p| &p.1);
    assert_eq!(named("id"), Some(&Argument::Text("EX-1".to_string())));
    assert_eq!(named("status"), Some(&Argument::Text("done".to_string())));
    assert_eq!(named("assignee"), Some(&Argument::Null));
    assert_eq!(named("force"), Some(&Argument::Flag(true)));
    assert_eq!(named("resolution"), Some(&Argument::Text("completed".to_string())));
    assert_eq!(named("closed_by"), Some(&Argument::Null));
    assert_eq!(payload.len(), 6);
}

#[test]
fn a_creation_carries_its_body_and_edges() {
    let command = Command::Create {
        item_type: "chore".to_string(),
        title: "Tidy".to_string(),
        priority: Some("low".to_string()),
        assign: None,
        tags: Some("a, b".to_string()),
        body: None,
        body_file: None,
        body_stdin: false,
        template: None,
        relate: vec!["related:EX-1".to_string()],
        push: false,
    };
    let (subject, payload) = command_to_nats(&command, &Some("the body".to_string()));
    assert_eq!(subject, "create");
    let named = |name: &str| payload.iter().find(|p| p.0 == name).map(|p| &p.1);
    assert_eq!(named("title"), Some(&Argument::Text("Tidy".to_string())));
    assert_eq!(named("item_type"), Some(&Argument::Text("chore".to_string())));
    assert_eq!(named("tags"), Some(&Argument::Texts(vec!["a".to_string(), "b".to_string()])));
    assert_eq!(named("body"), Some(&Argument::Text("the body".to_string())));
    assert_eq!(named("relate"), Some(&Argument::Texts(vec!["related:EX-1".to_string()])));
}

#[test]
fn empty_updates_carry_the_id_alone() {
    let command = Command::Update {
        id: "EX-1".to_string(),
        title: None,
        priority: None,
        assign: None,
        tags: None,
        body: None,
        body_file: None,
        related: None,
        depends_on: None,
        relate: vec![],
        unrelate: vec![],
    };
    let (subject, payload) = command_to_nats(&command, &None);
    assert_eq!(subject, "update");
    assert_eq!(payload.len(), 1);
    assert_eq!(payload[0], ("id".to_string(), Argument::Text("EX-1".to_string())));
    assert_eq!(updated_fields(&command, false, false), Vec::<String>::new());
    assert!(update_message("EX-1", &vec![]).starts_with("No fields specified to update."));
    let fields = updated_fields(&command, true, false);
    assert_eq!(update_message("EX-1", &fields), "Updated EX-1: relationships_added");
}

#[test]
fn bodies_come_from_the_first_source() {
    let some = |s: &str| Some(s.to_string());
    assert!(matches!(body_source(&some("b"), &some("f"), true, &None), BodySource::Inline(_)));
    assert!(matches!(body_source(&None, &some("f"), true, &None), BodySource::File(_)));
    assert!(matches!(body_source(&None, &None, true, &some("t")), BodySource::Stdin));
    assert!(matches!(body_source(&None, &None, false, &some("t")), BodySource::Template));
    assert!(matches!(body_source(&None, &None, false, &None), BodySource::Nowhere));
    assert_eq!(update_body(&some("b"), &BodyFile::Unnamed), some("b"));
    assert_eq!(update_body(&some("b"), &BodyFile::Content(" c\n".to_string())), some("c"));
    assert_eq!(update_body(&some("b"), &BodyFile::Unreadable), None);
}

fn reply(fields: Vec<(&str, Scalar)>) -> Reply {
    Reply {
        fields: fields
            .into_iter()
            .map(|(name, value)| (name.to_string(), ReplyField::One(value)))
            .collect(),
    }
}

fn shown(command: &str, reply: &Reply) -> String {
    match client_response(command, reply) {
        Output::Text(s) => s,
        other => panic!("{other:?}"),
    }
}

#[test]
fn replies_are_shown_in_words() {
    let t = |s: &str| Scalar::Text(s.to_string());
    let r = reply(vec![("id", t("EX-1")), ("title", t("Tidy"))]);
    assert_eq!(shown("create", &r), "Created EX-1: Tidy\n");
    let r = reply(vec![("id", t("EX-1")), ("from", t("backlog")), ("to", t("done"))]);
    assert_eq!(shown("move", &r), "Moved EX-1 from backlog to done\n");
    let r = reply(vec![("id", t("EX-1")), ("rank", Scalar::Whole(3))]);
    assert_eq!(shown("rank", &r), "Ranked EX-1 → 3\n");
    let r = reply(vec![("id", t("EX-1"))]);
    assert_eq!(shown("rank", &r), "Cleared rank on EX-1\n");
    assert_eq!(shown("show", &reply(vec![("markdown", t("# A"))])), "# A");
    assert_eq!(shown("show", &reply(vec![("json", t("[]"))])), "[]\n");
    assert_eq!(shown("create", &reply(vec![])), "");
    assert!(matches!(client_response("pipeline-health", &reply(vec![])), Output::Whole));
}

#[test]
fn one_bad_edge_refuses_all() {
    let asked = |list: &[&str]| list.iter().map(|s| s.to_string()).collect::<Vec<_>>();
    let good = parse_relate_specs(
        &asked(&["implements:VY-1", "depends_on:EX-2", "related:CH-3"]),
        "expedition",
        None,
    )
    .unwrap();
    assert_eq!(good.len(), 3);
    assert_eq!(good[1], ("dependsOn".to_string(), "EX-2".to_string()));
    let (related, depends_on) = project_edges(&good);
    assert_eq!(related, vec!["CH-3".to_string()]);
    assert_eq!(depends_on, vec!["EX-2".to_string()]);
    for bad in ["frobnicates:VY-1", "implements:CH-1", "nocolon"] {
        let list = asked(&["related:CH-3", bad]);
        assert!(parse_relate_specs(&list, "expedition", None).is_err(), "{bad}");
    }
    let list = asked(&["related:EX-9"]);
    assert!(parse_relate_specs(&list, "expedition", Some("EX-9")).is_err());
}

#[test]
fn edges_are_told_in_words() {
    assert_eq!(flat_col_for("related"), Some(RELATED));
    assert_eq!(flat_col_for("depends-on"), Some(DEPENDS_ON));
    assert_eq!(flat_col_for("implements"), None);
    assert_eq!(created_edge("EX-1", "blocks", "EX-2"), "  EX-1 -blocks-> EX-2");
    assert_eq!(added_edge("EX-1", "blocks", "EX-2"), "  + EX-1 -blocks-> EX-2");
    assert_eq!(
        removed_edge("EX-1", "blocks", "EX-2", false, true),
        "  - EX-1 -blocks-> EX-2"
    );
    assert_eq!(
        removed_edge("EX-1", "blocks", "EX-2", false, false),
        "  (no EX-1 -blocks-> EX-2 edge to remove)"
    );
}

fn board() -> BoardConfig {
    BoardConfig {
        name: "development".to_string(),
        preset: "nautical".to_string(),
        path: "work/".to_string(),
        scan_paths: vec![],
        ignore: vec![],
        wip_exempt_types: vec!["voyage".to_string()],
        wip_limits: vec![("underway".to_string(), 4)],
        states: ["backlog", "planning", "ready", "in_progress", "review", "done"]
            .iter()
            .map(|s| s.to_string())
            .collect(),
        phases: vec![],
        type_states: vec![],
    }
}

#[test]
fn moves_are_checked_before_they_happen() {
    let b = board();
    let check = |to: &str, resolution: Option<&str>, force: bool, count: u32| {
        check_move(&b, "backlog", to, "chore", resolution, force, count)
    };
    assert!(check("in_progress", None, false, 3).is_ok());
    assert!(matches!(
        check("in_progress", None, false, 4),
        Err(StateError::WipLimitReached { .. })
    ));
    assert!(check("in_progress", None, true, 4).is_ok());
    assert!(check("review", None, true, 0).is_ok());
    assert!(check("review", None, false, 0).is_err());
    assert!(matches!(
        check("review", Some("completed"), true, 0),
        Err(StateError::ResolutionOnNonTerminal { .. })
    ));
    assert_eq!(
        move_message("EX-1", "backlog", "done", true, Some("completed")),
        "Moved EX-1 from backlog to done (forced) [resolution: completed]"
    );
    assert_eq!(
        move_message("EX-1", "backlog", "done", false, None),
        "Moved EX-1 from backlog to done"
    );
}

#[test]
fn a_partial_ratification_is_refused() {
    let voyages = vec!["VY-1".to_string(), "VY-2".to_string()];
    assert_eq!(
        ratify_outcome("phase-e", 3, &voyages, 0).unwrap(),
        "Ratified phase-e: stripped pending-ratification from 3 item(s); started 2 voyage(s) (VY-1, VY-2)"
    );
    assert_eq!(
        ratify_outcome("phase-e", 0, &vec![], 0).unwrap(),
        "Ratified phase-e: stripped pending-ratification from 0 item(s); started 0 voyage(s)"
    );
    let e = ratify_outcome("phase-e", 3, &voyages, 1).unwrap_err();
    assert!(e.starts_with("ratify phase-e: 1 item(s) still pending-ratification"), "{e}");
}

#[test]
fn commits_form_a_chain() {
    let mut log = CommitsTable::new();
    assert!(log.is_empty());
    let first = creation_commit(&log, "c1".to_string(), 100, "EX-1", "Tidy");
    assert_eq!(first.message, "Create EX-1: Tidy");
    assert_eq!(first.parent_ids.len(), 0);
    assert_eq!(first.author, "arrow-kanban");
    log.append(first);
    let second = creation_commit(&log, "c2".to_string(), 200, "EX-2", "Sort");
    assert_eq!(second.parent_ids, vec!["c1".to_string()]);
    log.append(second);
    assert_eq!(log.len(), 2);
    assert_eq!(log.all().last().expect("last").commit_id, "c2");
    let again = CommitsTable::from_commits(vec![Commit {
        commit_id: "c1".into(),
        parent_ids: vec![],
        timestamp_ms: 100,
        message: "first".into(),
        author: "arrow-kanban".into(),
    }]);
    assert_eq!(again.len(), 1);
    assert_eq!(created_message("Created", "EX-1", "Tidy"), "Created EX-1: Tidy");
    assert_eq!(dataset_file("items"), "items.parquet");
    assert_eq!(temporary_file("items.parquet"), "items.parquet.tmp");
}

#[test]
fn a_push_is_tried_three_times() {
    assert!(matches!(after_push(1, true), PushStep::Done));
    assert!(matches!(after_push(1, false), PushStep::Rebase));
    assert!(matches!(after_push(2, false), PushStep::Rebase));
    assert!(matches!(after_push(3, false), PushStep::GiveUp));
}

#[test]
fn an_item_in_progress_belongs_to_its_holder() {
    let claim = |from: &str, holder: &str, to: &str, agent: Option<&str>, force: bool| {
        check_claim("EX-1", from, holder, to, agent, force)
    };
    assert_eq!(
        claim("in_progress", "M5", "in_progress", Some("DGX"), false),
        Err("EX-1 is already claimed by M5 (use --force to take it over)".to_string())
    );
    assert!(claim("in_progress", "M5", "in_progress", Some("DGX"), true).is_ok());
    assert!(claim("in_progress", "M5", "in_progress", Some("M5"), false).is_ok());
    assert!(claim("in_progress", "", "in_progress", Some("DGX"), false).is_ok());
    assert!(claim("backlog", "M5", "in_progress", Some("DGX"), false).is_ok());
    assert!(claim("in_progress", "M5", "review", Some("DGX"), false).is_ok());
    assert!(claim("in_progress", "M5", "in_progress", None, false).is_ok());
}

#[test]
fn exempt_items_do_not_count() {
    let item = |status: &str, item_type: &str| ItemInfo {
        id: "X-1".into(),
        title: "x".into(),
        item_type: item_type.into(),
        status: status.into(),
        priority: "medium".into(),
        assignee: "-".into(),
        related: vec![],
        depends_on: vec![],
        rank: None,
    };
    let items = vec![
        item("review", "chore"),
        item("review", "voyage"),
        item("done", "chore"),
        item("review", "expedition"),
    ];
    let b = BoardConfig {
        name: "development".to_string(),
        preset: "nautical".to_string(),
        path: "kanban-work/".to_string(),
        scan_paths: vec![],
        ignore: vec![],
        wip_exempt_types: vec!["voyage".to_string()],
        wip_limits: vec![],
        states: vec![],
        phases: vec![],
        type_states: vec![],
    };
    assert_eq!(count_at_status(&items, "review", &b), 2);
    assert_eq!(count_at_status(&items, "ready", &b), 0);
}

#[test]
fn a_target_stands_once_in_a_list_and_leaves_it_whole() {
    let list = vec!["EX-1".to_string(), "EX-2".to_string()];
    assert_eq!(add_target(&list, "EX-3"), vec!["EX-1", "EX-2", "EX-3"]);
    assert_eq!(add_target(&list, "EX-1"), list);
    let twice = vec!["EX-1".to_string(), "EX-2".to_string(), "EX-1".to_string()];
    assert_eq!(remove_target(&twice, "EX-1"), (vec!["EX-2".to_string()], true));
    assert_eq!(remove_target(&list, "EX-9"), (list.clone(), false));
    assert_eq!(remove_target(&add_target(&list, "EX-3"), "EX-3"), (list, true));
}
