//! What is read from stored tables, and how they are saved.
use std::sync::Arc;

use arrow::array::{
    Array, ArrayRef, BooleanArray, Float64Array, Int32Array, Int64Array, RecordBatch, StringArray,
    TimestampMillisecondArray,
};
use arrow::datatypes::{DataType, Field, Schema, TimeUnit};
use arrow_kanban::columns::{check_types, has_known_further_fields, Table};
use arrow_kanban::dispatch::{page_request, route, Route};
use arrow_kanban::flow::{flow_items, transitions, Transition};
use arrow_kanban::parquet_store::{save_plan, FileStep};
use arrow_kanban::persist::{
    assemble, knows_board, normalize_batch, normalize_batches, BoardSchemas,
};
use arrow_kanban::request::{Argument as Value, Command};
use arrow_kanban::setup::{board_to_validate, closed_since, done_status, worklist_agents};

fn table(columns: Vec<(&str, ArrayRef)>) -> Table {
    Table { batch: RecordBatch::try_from_iter_with_nullable(
        columns.into_iter().map(|(name, column)| (name, column, true)),
    )
    .expect("columns of one length") }
}

fn texts(values: Vec<Option<&str>>) -> ArrayRef {
    Arc::new(StringArray::from(values))
}

#[test]
fn transitions_are_read_in_the_order_of_time() {
    let first = table(vec![
        ("item_id", texts(vec![Some("EX-1"), Some("EX-2")])),
        ("from_status", texts(vec![Some("backlog"), None])),
        ("to_status", texts(vec![Some("done"), Some("backlog")])),
        ("timestamp", Arc::new(TimestampMillisecondArray::from(vec![Some(30), Some(20)]))),
        ("forced", Arc::new(BooleanArray::from(vec![Some(true), None]))),
    ]);
    let second = table(vec![
        ("item_id", texts(vec![Some("EX-3")])),
        ("to_status", texts(vec![Some("ready")])),
        ("timestamp", Arc::new(TimestampMillisecondArray::from(vec![None]))),
    ]);
    let unread = table(vec![("item_id", texts(vec![Some("EX-4")]))]);
    let list = transitions(&[first, second, unread]);
    let ids: Vec<&str> = list.iter().map(|t| t.item_id.as_str()).collect();
    assert_eq!(ids, vec!["EX-3", "EX-2", "EX-1"]);
    assert_eq!(list[0].ts_ms, 0);
    assert_eq!(list[0].from, None);
    assert!(!list[0].forced);
    assert_eq!(list[1].ts_ms, 20);
    assert_eq!(list[1].from, None);
    assert!(!list[1].forced);
    assert_eq!(list[2].ts_ms, 30);
    assert_eq!(list[2].from.as_deref(), Some("backlog"));
    assert_eq!(list[2].to, "done");
    assert!(list[2].forced);
}

#[test]
fn times_in_seconds_are_not_times_in_milliseconds() {
    let runs = table(vec![
        ("item_id", texts(vec![Some("EX-1")])),
        ("to_status", texts(vec![Some("done")])),
        ("timestamp", Arc::new(Int64Array::from(vec![5]))),
    ]);
    assert!(transitions(&[runs]).is_empty());
}

#[test]
fn flow_items_leave_out_what_is_deleted() {
    let items = table(vec![
        ("id", texts(vec![Some("EX-1"), Some("EX-2"), Some("EX-3")])),
        ("item_type", texts(vec![Some("expedition"), Some("chore"), None])),
        ("status", texts(vec![Some("done"), Some("ready"), Some("backlog")])),
        ("deleted", Arc::new(BooleanArray::from(vec![Some(true), Some(false), None]))),
    ]);
    let list = flow_items(&[items]);
    assert_eq!(list.len(), 2);
    assert_eq!(list[0].id, "EX-2");
    assert_eq!(list[0].item_type, "chore");
    assert_eq!(list[0].board, "");
    assert_eq!(list[0].status, "ready");
    assert_eq!(list[0].assignee, "");
    assert_eq!(list[1].id, "EX-3");
    assert_eq!(list[1].item_type, "");
}

#[test]
fn a_column_of_another_type_does_not_fit() {
    let schema = Schema::new(vec![
        Field::new("id", DataType::Utf8, true),
        Field::new("rank", DataType::Int32, true),
    ]);
    let good = table(vec![("id", texts(vec![Some("EX-1")]))]);
    let bad = table(vec![("id", Arc::new(Int32Array::from(vec![1])))]);
    assert!(check_types(&good, &schema));
    assert!(!check_types(&bad, &schema));
    assert!(normalize_batch(&good, &schema).is_ok());
    assert!(normalize_batch(&bad, &schema).is_err());
    assert_eq!(normalize_batches(&vec![], &schema).unwrap().len(), 0);
    let both = vec![
        table(vec![("id", texts(vec![Some("EX-1")]))]),
        table(vec![("id", texts(vec![Some("EX-2"), None]))]),
    ];
    let after = normalize_batches(&both, &schema).unwrap();
    assert_eq!(after[0].batch.num_columns(), 2);
    assert_eq!(after[1].batch.num_rows(), 2);
    assert_eq!(after[1].batch.column(1).null_count(), 2);
    assert!(normalize_batches(&vec![good, bad], &schema).is_err());
}

#[test]
fn a_needed_column_cannot_be_made_up() {
    let schema = Schema::new(vec![
        Field::new("id", DataType::Utf8, true),
        Field::new("rank", DataType::Int32, false),
    ]);
    let old = table(vec![("id", texts(vec![Some("EX-1")]))]);
    assert!(normalize_batch(&old, &schema).is_err());
}

#[test]
fn fields_of_known_types_are_told_from_others() {
    let millis = DataType::Timestamp(TimeUnit::Millisecond, Some("UTC".into()));
    let local = DataType::Timestamp(TimeUnit::Millisecond, None);
    let known = Schema::new(vec![
        Field::new("id", DataType::LargeUtf8, false),
        Field::new("at", millis, true),
        Field::new("score", DataType::Float64, true),
    ]);
    let other = Schema::new(vec![
        Field::new("id", DataType::Utf8, false),
        Field::new("at", local, true),
    ]);
    let one = table(vec![("id", texts(vec![Some("EX-1")]))]);
    assert!(has_known_further_fields(&one, &known));
    assert!(!has_known_further_fields(&one, &other));
    let two = table(vec![
        ("id", texts(vec![Some("EX-1")])),
        ("at", Arc::new(TimestampMillisecondArray::from(vec![5]))),
    ]);
    assert!(has_known_further_fields(&two, &other));
    assert!(normalize_batch(&two, &other).is_ok());
}

#[test]
fn a_board_is_put_together_from_what_was_stored() {
    let schema = || Schema::new(vec![
        Field::new("id", DataType::Utf8, true),
        Field::new("score", DataType::Float64, true),
    ]);
    let schemas = BoardSchemas {
        items: schema(),
        runs: schema(),
        comments: schema(),
        relations: schema(),
    };
    let stored = vec![
        ("items".to_string(), vec![table(vec![("id", texts(vec![Some("EX-1")]))])]),
        (
            "relations".to_string(),
            vec![table(vec![
                ("id", texts(vec![Some("r")])),
                ("score", Arc::new(Float64Array::from(vec![0.5]))),
            ])],
        ),
    ];
    assert!(knows_board(&stored, &schemas));
    let board = assemble(&stored, &schemas).unwrap();
    assert!(board.takes_comments_from_runs());
    assert_eq!(board.items.len(), 1);
    assert_eq!(board.items[0].batch.num_columns(), 2);
    assert_eq!(board.items[0].batch.column(1).null_count(), 1);
    assert!(board.runs.is_empty());
    assert!(board.comments.is_empty());
    assert_eq!(board.relations[0].batch, stored[1].1[0].batch);
    let wrong = vec![(
        "item_comments".to_string(),
        vec![table(vec![("id", Arc::new(Int32Array::from(vec![1])))])],
    )];
    assert!(assemble(&wrong, &schemas).is_err());
    let commented = vec![("item_comments".to_string(), vec![table(vec![("id", texts(vec![]))])])];
    assert!(!assemble(&commented, &schemas).unwrap().takes_comments_from_runs());
    let strange = BoardSchemas {
        items: Schema::new(vec![
            Field::new("id", DataType::Utf8, true),
            Field::new("note", DataType::LargeUtf8, true),
        ]),
        runs: schema(),
        comments: schema(),
        relations: schema(),
    };
    assert!(!knows_board(&stored, &strange));
}

#[test]
fn each_file_is_complete_before_it_takes_its_place() {
    let steps = save_plan(&vec!["items".to_string(), "runs".to_string()]);
    let shown: Vec<String> = steps
        .iter()
        .map(|s| match s {
            FileStep::Write { dataset, file } => format!("{dataset} > {file}"),
            FileStep::Rename { from, to } => format!("{from} > {to}"),
        })
        .collect();
    assert_eq!(
        shown,
        vec![
            "0 > items.parquet.tmp",
            "items.parquet.tmp > items.parquet",
            "1 > runs.parquet.tmp",
            "runs.parquet.tmp > runs.parquet",
        ]
    );
    assert!(save_plan(&vec![]).is_empty());
}

fn export(id: Option<&str>, format: &str) -> Command {
    Command::Export {
        id: id.map(Into::into),
        format: format.into(),
        board: "development".into(),
        item_type: Some("chore".into()),
        status: None,
        output: None,
    }
}

#[test]
fn commands_go_where_they_belong() {
    assert!(matches!(route(&Command::Boards, true), Route::Server));
    assert!(matches!(route(&Command::Boards, false), Route::Board));
    assert!(matches!(route(&export(None, "json"), true), Route::ServerPages));
    assert!(matches!(route(&export(None, "markdown"), true), Route::ServerPages));
    assert!(matches!(route(&export(None, "json"), false), Route::Board));
    assert!(matches!(route(&export(Some("EX-1"), "json"), true), Route::Server));
    assert!(matches!(route(&export(None, "html"), true), Route::Server));
    let init = Command::Init { theme: "nautical".into() };
    assert!(matches!(route(&init, false), Route::SetUp));
    assert!(matches!(route(&init, true), Route::Server));
    let serve = Command::McpServer { nats_url: "nats://here".into() };
    assert!(matches!(route(&serve, true), Route::Serve));
    let backup = Command::Backup { list: true, inspect: None };
    assert!(matches!(route(&backup, true), Route::Files));
}

#[test]
fn a_page_is_asked_for_from_its_offset() {
    let payload = page_request(&export(None, "json"), 400);
    let names: Vec<&str> = payload.iter().map(|(name, _)| name.as_str()).collect();
    assert_eq!(
        names,
        vec!["id", "format", "board", "item_type", "status", "offset", "limit"]
    );
    assert!(matches!(payload[0].1, Value::Null));
    assert!(matches!(&payload[1].1, Value::Text(t) if t == "json"));
    assert!(matches!(&payload[3].1, Value::Text(t) if t == "chore"));
    assert!(matches!(payload[4].1, Value::Null));
    assert!(matches!(payload[5].1, Value::Number(400)));
}

#[test]
fn the_board_to_validate_is_all_or_the_named_one() {
    assert_eq!(board_to_validate(true, &Some("research".to_string())), None);
    assert_eq!(
        board_to_validate(false, &Some("research".to_string())).as_deref(),
        Some("research")
    );
    assert_eq!(board_to_validate(false, &None).as_deref(), Some("development"));
}

#[test]
fn named_agents_are_split_at_commas() {
    assert_eq!(worklist_agents("node-a, node-b", &[]), vec!["node-a", "node-b"]);
    assert_eq!(worklist_agents("node-a,", &[]), vec!["node-a", ""]);
    assert!(worklist_agents("  ", &[]).is_empty());
}

#[test]
fn a_history_shows_what_was_closed_last() {
    let change = |id: &str, to: &str, ts_ms: i64| Transition {
        item_id: id.to_string(),
        from: None,
        to: to.to_string(),
        ts_ms,
        forced: false,
    };
    let changes =
        vec![change("EX-1", "review", 10), change("EX-2", "done", 20), change("EX-1", "done", 30)];
    assert!(closed_since("EX-1", "done", &changes, 30));
    assert!(!closed_since("EX-1", "done", &changes, 31));
    assert!(!closed_since("EX-1", "review", &changes, 0));
    assert!(closed_since("EX-2", "complete", &changes, 20));
    assert!(!closed_since("EX-2", "done", &changes, 21));
    assert!(closed_since("EX-9", "retired", &changes, 0));
    assert!(!closed_since("EX-9", "retired", &changes, 1));
}

#[test]
fn without_limits_the_last_state_of_the_board_is_shown() {
    assert_eq!(done_status(&vec!["backlog".to_string(), "shipped".to_string()]), "shipped");
    assert_eq!(done_status(&vec![]), "done");
}
