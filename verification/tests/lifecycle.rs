//! Lifecycles of items: which moves are allowed.
use arrow_kanban::config::BoardConfig;
use arrow_kanban::ontology::kanban_ttl;
use arrow_kanban::state_machine::{
    check_wip_limit, is_terminal_state, status_to_wip_category,
    type_transition_verdict, validate_resolution, validate_status_filter, validate_transition,
    validate_transition_for_type, StateError, TypeTransitionVerdict, VALID_STATUSES,
};
use arrow_kanban::state_model::{
    fallback_states, is_legal_transition, legal_targets, parse_lifecycle_states, state, states,
    states_from, TransitionVerdict,
};

#[test]
fn every_model_state_is_a_valid_status_filter() {
    for state in states() {
        assert!(
            VALID_STATUSES.contains(&state.name.as_str()),
            "state '{}' is in the lifecycle model but missing from VALID_STATUSES — \
             the --status filter would refuse a state the state machine accepts",
            state.name
        );
    }
}

#[test]
fn refining_is_a_valid_status() {
    assert!(
        validate_status_filter("refining").is_ok(),
        "the idea pipeline's refine stage must be a legal status and filter value"
    );
    assert!(
        validate_status_filter("refinning").is_err(),
        "a near-miss must still refuse — this pin must not be satisfiable by opening \
         the vocabulary"
    );
}

fn dev_board() -> BoardConfig {
    BoardConfig {
        name: "development".to_string(),
        preset: "nautical".to_string(),
        path: "kanban-work/".to_string(),
        scan_paths: vec!["kanban-work/expeditions/".to_string()],
        ignore: vec![],
        wip_exempt_types: vec!["voyage".to_string()],
        wip_limits: vec![
            ("provisioning".to_string(), 50),
            ("underway".to_string(), 4),
            ("approaching".to_string(), 3),
        ],
        states: vec![
            "backlog".to_string(),
            "planning".to_string(),
            "ready".to_string(),
            "in_progress".to_string(),
            "review".to_string(),
            "done".to_string(),
        ],
        phases: vec![],
        type_states: vec![],
    }
}

fn research_board() -> BoardConfig {
    BoardConfig {
        name: "research".to_string(),
        preset: "hdd".to_string(),
        path: "research/".to_string(),
        scan_paths: vec!["research/hypotheses/".to_string()],
        ignore: vec![],
        wip_exempt_types: vec![],
        wip_limits: vec![("active".to_string(), 5)],
        states: vec![
            "draft".to_string(),
            "active".to_string(),
            "complete".to_string(),
            "abandoned".to_string(),
        ],
        phases: vec![],
        type_states: vec![],
    }
}

#[test]
fn test_valid_forward_transitions() {
    let board = dev_board();
    assert!(validate_transition(&board, "backlog", "in_progress").is_ok());
    assert!(validate_transition(&board, "in_progress", "review").is_ok());
    assert!(validate_transition(&board, "review", "done").is_ok());
    assert!(validate_transition(&board, "backlog", "done").is_ok());
}

#[test]
fn test_invalid_backward_transition() {
    let board = dev_board();
    assert!(validate_transition(&board, "done", "backlog").is_ok());
    assert!(validate_transition(&board, "review", "in_progress").is_ok());
    assert!(validate_transition(&board, "in_progress", "backlog").is_ok());
    match validate_transition(&board, "planning", "in_progress") {
        Err(StateError::IllegalPerModel { targets, .. }) => {
            assert!(
                targets.contains("ready"),
                "refusal must name 'ready': {targets}"
            );
        }
        other => panic!("planning->in_progress must be IllegalPerModel, got {other:?}"),
    }
    assert!(validate_transition(&board, "backlog", "review").is_err());
    assert!(validate_transition(&board, "ready", "backlog").is_err());
}

#[test]
fn test_invalid_state() {
    let board = dev_board();
    let err = validate_transition(&board, "nonexistent", "done");
    assert!(err.is_err());
    match err.unwrap_err() {
        StateError::InvalidState { state, .. } => assert_eq!(state, "nonexistent"),
        _ => panic!("Expected InvalidState"),
    }
}

#[test]
fn test_research_transitions() {
    let board = research_board();
    assert!(validate_transition(&board, "draft", "active").is_ok());
    assert!(validate_transition(&board, "active", "complete").is_ok());
    assert!(validate_transition(&board, "draft", "abandoned").is_ok());
    assert!(validate_transition(&board, "complete", "draft").is_err());
}

#[test]
fn test_wip_limit_under() {
    let board = dev_board();
    assert!(check_wip_limit(&board, "in_progress", 3, "expedition").is_ok());
}

#[test]
fn test_wip_limit_at_capacity() {
    let board = dev_board();
    let err = check_wip_limit(&board, "in_progress", 4, "expedition");
    assert!(err.is_err());
    match err.unwrap_err() {
        StateError::WipLimitReached { current, limit, .. } => {
            assert_eq!(current, 4);
            assert_eq!(limit, 4);
        }
        _ => panic!("Expected WipLimitReached"),
    }
}

#[test]
fn test_wip_exempt_voyage() {
    let board = dev_board();
    assert!(check_wip_limit(&board, "in_progress", 4, "voyage").is_ok());
    assert!(check_wip_limit(&board, "in_progress", 100, "voyage").is_ok());
}

#[test]
fn test_wip_no_limit_for_done() {
    let board = dev_board();
    assert!(check_wip_limit(&board, "done", 1000, "expedition").is_ok());
}

fn research_board_with_type_states() -> BoardConfig {
    BoardConfig {
        name: "research".to_string(),
        preset: "hdd".to_string(),
        path: "research/".to_string(),
        scan_paths: vec!["research/".to_string()],
        ignore: vec![],
        wip_exempt_types: vec![],
        wip_limits: vec![("active".to_string(), 5)],
        states: vec![
            "draft".to_string(),
            "active".to_string(),
            "complete".to_string(),
            "abandoned".to_string(),
            "retired".to_string(),
        ],
        phases: vec![],
        type_states: vec![
            (
                "hypothesis".to_string(),
                vec![
                    "draft".to_string(),
                    "active".to_string(),
                    "retired".to_string(),
                ],
            ),
            (
                "measure".to_string(),
                vec![
                    "draft".to_string(),
                    "active".to_string(),
                    "retired".to_string(),
                ],
            ),
            (
                "experiment".to_string(),
                vec![
                    "planned".to_string(),
                    "running".to_string(),
                    "complete".to_string(),
                    "abandoned".to_string(),
                ],
            ),
            (
                "paper".to_string(),
                vec![
                    "draft".to_string(),
                    "outline".to_string(),
                    "writing".to_string(),
                    "review".to_string(),
                    "complete".to_string(),
                    "abandoned".to_string(),
                ],
            ),
            (
                "idea".to_string(),
                vec![
                    "captured".to_string(),
                    "formalized".to_string(),
                    "abandoned".to_string(),
                ],
            ),
        ],
    }
}

#[test]
fn test_hypothesis_cannot_complete() {
    let board = research_board_with_type_states();
    assert!(
        validate_transition_for_type(&board, "draft", "active", Some("hypothesis")).is_ok()
    );
    assert!(
        validate_transition_for_type(&board, "active", "retired", Some("hypothesis")).is_ok()
    );
    assert!(
        validate_transition_for_type(&board, "active", "complete", Some("hypothesis")).is_err()
    );
}

#[test]
fn test_measure_cannot_complete() {
    let board = research_board_with_type_states();
    assert!(validate_transition_for_type(&board, "draft", "active", Some("measure")).is_ok());
    assert!(validate_transition_for_type(&board, "active", "retired", Some("measure")).is_ok());
    assert!(
        validate_transition_for_type(&board, "active", "complete", Some("measure")).is_err()
    );
}

#[test]
fn test_experiment_follows_run_lifecycle() {
    let board = research_board_with_type_states();
    assert!(
        validate_transition_for_type(&board, "planned", "running", Some("experiment")).is_ok()
    );
    assert!(
        validate_transition_for_type(&board, "running", "complete", Some("experiment")).is_ok()
    );
    assert!(
        validate_transition_for_type(&board, "planned", "abandoned", Some("experiment"))
            .is_ok()
    );
    assert!(
        validate_transition_for_type(&board, "complete", "running", Some("experiment"))
            .is_err()
    );
}

#[test]
fn test_paper_follows_work_lifecycle() {
    let board = research_board_with_type_states();
    assert!(validate_transition_for_type(&board, "draft", "outline", Some("paper")).is_ok());
    assert!(validate_transition_for_type(&board, "outline", "writing", Some("paper")).is_ok());
    assert!(validate_transition_for_type(&board, "writing", "review", Some("paper")).is_ok());
    assert!(validate_transition_for_type(&board, "review", "complete", Some("paper")).is_ok());
    assert!(validate_transition_for_type(&board, "draft", "abandoned", Some("paper")).is_ok());
}

#[test]
fn test_idea_captured_to_formalized() {
    let board = research_board_with_type_states();
    assert!(
        validate_transition_for_type(&board, "captured", "formalized", Some("idea")).is_ok()
    );
    assert!(
        validate_transition_for_type(&board, "captured", "abandoned", Some("idea")).is_ok()
    );
    assert!(
        validate_transition_for_type(&board, "formalized", "captured", Some("idea")).is_ok()
    );
    assert!(
        validate_transition_for_type(&board, "abandoned", "captured", Some("idea")).is_err()
    );
}

#[test]
fn a_release_returns_a_running_item_to_its_queue() {
    let board = research_board_with_type_states();
    assert!(
        validate_transition_for_type(&board, "running", "planned", Some("experiment")).is_ok(),
        "running -> planned is the un-claim: the ONLY non-terminal target from 'running'"
    );
    assert!(
        validate_transition_for_type(&board, "review", "writing", Some("paper")).is_ok(),
        "review -> writing is the same edge wearing a different name"
    );
    assert!(
        validate_transition_for_type(&board, "active", "draft", Some("hypothesis")).is_ok(),
        "active -> draft likewise"
    );
}

#[test]
fn a_terminal_state_is_absorbing() {
    let board = research_board_with_type_states();
    for (from, to, ty) in [
        ("complete", "running", "experiment"),
        ("complete", "planned", "experiment"),
        ("abandoned", "planned", "experiment"),
        ("retired", "active", "hypothesis"),
        ("retired", "draft", "measure"),
        ("complete", "writing", "paper"),
    ] {
        assert!(
            validate_transition_for_type(&board, from, to, Some(ty)).is_err(),
            "{from} -> {to} ({ty}) is a resurrection and must stay refused"
        );
    }
}

#[test]
fn an_idempotent_re_move_is_legal_at_every_state_including_terminal() {
    let board = research_board_with_type_states();
    for (state, ty) in [
        ("planned", "experiment"),
        ("running", "experiment"),
        ("complete", "experiment"),
        ("abandoned", "experiment"),
        ("retired", "hypothesis"),
    ] {
        assert!(
            validate_transition_for_type(&board, state, state, Some(ty)).is_ok(),
            "{state} -> {state} ({ty}) is a no-op re-move, not a refusal"
        );
    }
}

#[test]
fn type_transition_verdict_separates_outside_from_illegal() {
    let board = research_board_with_type_states();

    assert_eq!(
        type_transition_verdict(&board, "running", "planned", "experiment"),
        TypeTransitionVerdict::Legal,
        "the un-claim"
    );

    match type_transition_verdict(&board, "complete", "running", "experiment") {
        TypeTransitionVerdict::Illegal { legal_targets } => assert_eq!(
            legal_targets,
            vec!["abandoned".to_string()],
            "from a terminal state only the forward tail remains"
        ),
        other => panic!("complete -> running must be Illegal, got {other:?}"),
    }

    for (from, to, ty, why) in [
        (
            "backlog",
            "planned",
            "experiment",
            "the intake state every item is created at",
        ),
        (
            "running",
            "backlog",
            "experiment",
            "the release target existing tooling uses",
        ),
        (
            "complete",
            "done",
            "experiment",
            "a board-level terminal an item was parked at",
        ),
        (
            "captured",
            "refining",
            "idea",
            "a deliberate const-only status with no lifecycle place",
        ),
    ] {
        assert_eq!(
            type_transition_verdict(&board, from, to, ty),
            TypeTransitionVerdict::OutsideLifecycle,
            "{from} -> {to} ({ty}): {why}"
        );
    }

    assert_eq!(
        type_transition_verdict(&board, "draft", "active", "chore"),
        TypeTransitionVerdict::OutsideLifecycle,
        "a type the board declares no states for"
    );
}

#[test]
fn the_states_other_status_writers_target_are_outside_every_per_type_lifecycle() {
    let mut research = research_board_with_type_states();
    research.type_states.push((
        "literature".to_string(),
        vec![
            "draft".to_string(),
            "active".to_string(),
            "complete".to_string(),
        ],
    ));
    let board = &research;

    let mut checked = 0usize;
    let mut types_seen = 0usize;
    for (item_type, states) in &board.type_states {
        types_seen += 1;
        for target in ["backlog", "blocked", "in_progress"] {
            for own in states {
                for (from, to) in [(own.as_str(), target), (target, own.as_str())] {
                    assert_eq!(
                        type_transition_verdict(board, from, to, item_type),
                        TypeTransitionVerdict::OutsideLifecycle,
                        "{from} -> {to} ({item_type}): '{target}' is written directly by \
                         the requeue/ratify verbs, which never consult the per-type gate — \
                         it must not become part of a per-type lifecycle without that \
                         bypass being closed first"
                    );
                    checked += 1;
                }
            }
        }
    }
    assert!(
        types_seen >= 6 && checked >= 120,
        "the loops must have run over the lifecycle of every research type: \
         types_seen={types_seen} checked={checked}"
    );
}

#[test]
fn test_unknown_type_uses_board_states() {
    let board = research_board_with_type_states();
    assert!(validate_transition_for_type(&board, "draft", "active", Some("unknown")).is_ok());
    assert!(
        validate_transition_for_type(&board, "active", "complete", Some("unknown")).is_ok()
    );
}

#[test]
fn test_research_wip_limit() {
    let board = research_board();
    assert!(check_wip_limit(&board, "active", 4, "hypothesis").is_ok());
    assert!(check_wip_limit(&board, "active", 5, "hypothesis").is_err());
}

#[test]
fn test_valid_resolutions_on_terminal_states() {
    assert!(validate_resolution(Some("completed"), "done").is_ok());
    assert!(validate_resolution(Some("superseded"), "done").is_ok());
    assert!(validate_resolution(Some("wont_do"), "done").is_ok());
    assert!(validate_resolution(Some("duplicate"), "done").is_ok());
    assert!(validate_resolution(Some("obsolete"), "done").is_ok());
    assert!(validate_resolution(Some("merged"), "done").is_ok());
    assert!(validate_resolution(Some("completed"), "complete").is_ok());
    assert!(validate_resolution(Some("wont_do"), "abandoned").is_ok());
    assert!(validate_resolution(Some("completed"), "retired").is_ok());
    assert!(validate_resolution(Some("refuted"), "retired").is_ok());
    assert!(validate_resolution(Some("refuted"), "done").is_ok());
}

#[test]
fn test_none_resolution_always_ok() {
    assert!(validate_resolution(None, "done").is_ok());
    assert!(validate_resolution(None, "in_progress").is_ok());
    assert!(validate_resolution(None, "backlog").is_ok());
}

#[test]
fn test_invalid_resolution_value() {
    let err = validate_resolution(Some("cancelled"), "done");
    assert!(err.is_err());
    match err.unwrap_err() {
        StateError::InvalidResolution { resolution } => {
            assert_eq!(resolution, "cancelled");
        }
        _ => panic!("Expected InvalidResolution"),
    }
}

#[test]
fn test_resolution_on_non_terminal_state() {
    let err = validate_resolution(Some("completed"), "in_progress");
    assert!(err.is_err());
    match err.unwrap_err() {
        StateError::ResolutionOnNonTerminal { status } => {
            assert_eq!(status, "in_progress");
        }
        _ => panic!("Expected ResolutionOnNonTerminal"),
    }
}

#[test]
fn test_is_terminal_state() {
    assert!(is_terminal_state("done"));
    assert!(is_terminal_state("complete"));
    assert!(is_terminal_state("abandoned"));
    assert!(is_terminal_state("retired"));
    assert!(!is_terminal_state("in_progress"));
    assert!(!is_terminal_state("backlog"));
    assert!(!is_terminal_state("review"));
}

#[test]
fn state_model_is_loaded_from_data_only() {
    let live = states();
    for data_only in ["planning", "ready"] {
        assert!(
            live.iter().any(|s| s.name == data_only),
            "'{data_only}' missing from the live model — the ttl state block was removed or failed to parse"
        );
        assert!(
            !fallback_states().iter().any(|s| s.name == data_only),
            "'{data_only}' leaked into the compiled fallback — the data-only proof is void"
        );
    }
}

#[test]
fn every_fallback_state_is_in_the_loaded_model() {
    let live = states();
    for f in fallback_states() {
        assert!(
            live.iter().any(|s| s.name == f.name),
            "legacy state '{}' missing from the loaded model — live items carrying it would be bricked",
            f.name
        );
    }
}

#[test]
fn planning_to_in_progress_is_refused() {
    match is_legal_transition("planning", "in_progress") {
        TransitionVerdict::Illegal { legal_targets } => {
            assert!(
                legal_targets.contains(&"ready".to_string()),
                "the refusal must name 'ready' as the way out of planning"
            );
        }
        v => panic!("planning->in_progress must be Illegal with named targets, got {v:?}"),
    }
}

#[test]
fn the_planned_path_is_legal_end_to_end() {
    for (from, to) in [
        ("backlog", "planning"),
        ("planning", "ready"),
        ("ready", "in_progress"),
        ("in_progress", "review"),
        ("review", "done"),
    ] {
        assert_eq!(
            is_legal_transition(from, to),
            TransitionVerdict::Legal,
            "{from}->{to} must be legal"
        );
    }
}

#[test]
fn migration_postures_hold() {
    assert_eq!(
        is_legal_transition("backlog", "in_progress"),
        TransitionVerdict::Legal,
        "the legacy claim path must stay legal during migration"
    );
    assert_eq!(
        is_legal_transition("review", "review"),
        TransitionVerdict::Legal
    );
    assert_eq!(
        is_legal_transition("archived", "done"),
        TransitionVerdict::UnknownState
    );
}

#[test]
fn dangling_transition_target_refuses_the_parse() {
    let bad = r#"
kb:alpha a kb:LifecycleState ;
    rdfs:label "alpha" ;
    kb:transitionsTo kb:ghost .
"#;
    assert!(parse_lifecycle_states(bad).is_err());
}

#[test]
fn ttl_without_state_block_parses_empty() {
    let stripped: String = kanban_ttl()
        .split("LIFECYCLE STATES + TRANSITIONS")
        .next()
        .unwrap()
        .to_string();
    let parsed = parse_lifecycle_states(&stripped).expect("pre-block ttl must still parse");
    assert!(
        parsed.is_empty(),
        "no kb:LifecycleState should survive the block's removal"
    );
}

#[test]
fn the_model_falls_back_when_the_ontology_is_broken() {
    assert_eq!(states_from("kb:a a kb:LifecycleState ;").len(), fallback_states().len());
    assert!(states_from(&kanban_ttl()).len() > fallback_states().len());
    assert_eq!(state("nowhere").map(|s| s.name), None);
    assert_eq!(state("review").map(|s| s.name).as_deref(), Some("review"));
    assert!(legal_targets("planning").unwrap().contains(&"ready".to_string()));
    assert_eq!(legal_targets("nowhere"), None);
}

#[test]
fn refusals_are_told_in_words() {
    let board = dev_board();
    let e = validate_transition(&board, "planning", "in_progress").unwrap_err();
    assert!(e.message().contains("planning"), "{}", e.message());
    assert!(e.message().contains("ready"), "{}", e.message());
    let e = check_wip_limit(&board, "in_progress", 4, "expedition").unwrap_err();
    assert!(e.message().contains('4'), "{}", e.message());
    let e = validate_status_filter("in-progress").unwrap_err();
    assert!(e.contains("in-progress"), "{e}");
    assert!(e.contains("in_progress"), "{e}");
}

#[test]
fn statuses_belong_to_wip_categories() {
    assert_eq!(status_to_wip_category("in_progress", "development"), "underway");
    assert_eq!(status_to_wip_category("review", "development"), "approaching");
    assert_eq!(status_to_wip_category("active", "research"), "active");
}

#[test]
fn states_without_a_category_have_no_limit() {
    let mut board = dev_board();
    board.wip_limits.push(("".to_string(), 1));
    assert!(check_wip_limit(&board, "done", 5, "expedition").is_ok());
    assert!(check_wip_limit(&board, "stale", 5, "expedition").is_ok());
    assert!(check_wip_limit(&board, "in_progress", 4, "expedition").is_err());
}

#[test]
fn states_of_the_ontology_can_be_looked_for() {
    let names: Vec<String> = states().into_iter().map(|s| s.name).collect();
    assert_eq!(
        names,
        vec!["backlog", "planning", "ready", "in_progress", "review", "done", "stale"]
    );
    assert!(names.iter().all(|name| validate_status_filter(name).is_ok()));
    assert!(validate_status_filter("refinning").is_err());
}
