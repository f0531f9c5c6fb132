//! Relations between items, and walks along lists of ids.
use std::sync::Arc;

use arrow::array::{
    Array, ListBuilder, RecordBatch, StringArray, StringBuilder, TimestampMillisecondArray,
};
use arrow::datatypes::{DataType, Field, Schema, TimeUnit};
use arrow_kanban::columns::Table;
use arrow_kanban::relations::{relations_schema, RelationError, RelationsStore};
use arrow_kanban::traversal::{bfs_with_adjacency, build_adjacency_from_list, Direction};

fn make_items(rows: &[(&str, &[&str])]) -> Table {
    let schema = Arc::new(Schema::new(vec![
        Field::new("id", DataType::Utf8, false),
        Field::new(
            "deps",
            DataType::List(Arc::new(Field::new("item", DataType::Utf8, true))),
            true,
        ),
    ]));
    let ids: Vec<&str> = rows.iter().map(|(id, _)| *id).collect();
    let mut list_builder = ListBuilder::new(StringBuilder::new());
    for (_, deps) in rows {
        for d in *deps {
            list_builder.values().append_value(d);
        }
        list_builder.append(true);
    }
    let batch = RecordBatch::try_new(
        schema,
        vec![
            Arc::new(StringArray::from(ids)),
            Arc::new(list_builder.finish()),
        ],
    )
    .expect("build items batch");
    Table { batch }
}

#[test]
fn forward_adjacency_and_bfs_chain() {
    let batch = make_items(&[("A", &["B", "D"]), ("B", &["C"]), ("C", &[]), ("D", &[])]);
    let adj = build_adjacency_from_list(&batch, 0, 1, Direction::Forward);
    let chain = bfs_with_adjacency("A", &adj, 10);
    let ids: Vec<&str> = chain.iter().map(|n| n.id.as_str()).collect();
    assert!(ids.contains(&"B") && ids.contains(&"C") && ids.contains(&"D"));
    let c = chain.iter().find(|n| n.id == "C").expect("C reached");
    assert_eq!(c.depth, 2);
}

#[test]
fn reverse_adjacency_finds_blockers() {
    let batch = make_items(&[("A", &["B"]), ("B", &[])]);
    let adj = build_adjacency_from_list(&batch, 0, 1, Direction::Reverse);
    let chain = bfs_with_adjacency("B", &adj, 10);
    assert_eq!(chain.len(), 1);
    assert_eq!(chain[0].id, "A");
}

#[test]
fn max_depth_bounds_traversal() {
    let batch = make_items(&[("A", &["B"]), ("B", &["C"]), ("C", &["D"]), ("D", &[])]);
    let adj = build_adjacency_from_list(&batch, 0, 1, Direction::Forward);
    let chain = bfs_with_adjacency("A", &adj, 1);
    assert_eq!(chain.len(), 1);
    assert_eq!(chain[0].id, "B");
}

#[test]
fn cycle_is_visited_once() {
    let batch = make_items(&[("A", &["B"]), ("B", &["A"])]);
    let adj = build_adjacency_from_list(&batch, 0, 1, Direction::Forward);
    let chain = bfs_with_adjacency("A", &adj, 100);
    assert_eq!(chain.len(), 1);
    assert_eq!(chain[0].id, "B");
}

#[test]
fn empty_batch_yields_empty_adjacency() {
    let batch = make_items(&[]);
    let adj = build_adjacency_from_list(&batch, 0, 1, Direction::Forward);
    assert!(adj.is_empty());
    assert!(bfs_with_adjacency("X", &adj, 10).is_empty());
}

#[test]
fn test_add_and_query_relation() {
    let mut store = RelationsStore::new();
    store
        .add_relation("EXP-1257", "VOY-145", "implements")
        .unwrap();

    let rels = store.query_relations("EXP-1257");
    assert_eq!(rels.len(), 1);

    let rels = store.query_relations("VOY-145");
    assert_eq!(rels.len(), 1);
}

#[test]
fn test_multiple_relations() {
    let mut store = RelationsStore::new();
    store
        .add_relation("EXP-1257", "VOY-145", "implements")
        .unwrap();
    store
        .add_relation("EXP-1257", "EXP-1258", "blocks")
        .unwrap();
    store
        .add_relation("EXP-1260", "VOY-145", "implements")
        .unwrap();

    let rels = store.query_relations("EXP-1257");
    assert_eq!(rels.len(), 2);

    let rels = store.query_relations("VOY-145");
    assert_eq!(rels.len(), 2);
}

#[test]
fn test_remove_relation() {
    let mut store = RelationsStore::new();
    store
        .add_relation("EXP-1257", "VOY-145", "implements")
        .unwrap();
    assert_eq!(store.active_count(), 1);

    store
        .remove_relation("EXP-1257", "VOY-145", "implements")
        .unwrap();
    assert_eq!(store.active_count(), 0);

    let rels = store.query_relations("EXP-1257");
    assert_eq!(rels.len(), 0);
}

#[test]
fn test_remove_nonexistent_relation() {
    let mut store = RelationsStore::new();
    let err = store.remove_relation("EXP-1", "VOY-1", "blocks");
    assert!(err.is_err());
}

#[test]
fn test_bidirectional_query() {
    let mut store = RelationsStore::new();
    store.add_relation("EXPR-131", "EXP-800", "spawns").unwrap();

    assert_eq!(store.query_relations("EXPR-131").len(), 1);
    assert_eq!(store.query_relations("EXP-800").len(), 1);

    assert_eq!(store.query_relations("EXP-999").len(), 0);
}

#[test]
fn incoming_by_predicate_resolves_campaign_members_from_partof_edges() {
    let mut store = RelationsStore::new();
    store.add_relation("VY-100", "CA-1", "partOf").unwrap();
    store.add_relation("VY-101", "CA-1", "partOf").unwrap();
    store.add_relation("VY-200", "CA-2", "partOf").unwrap();
    store.add_relation("VY-102", "CA-1", "related").unwrap();

    assert_eq!(
        store.incoming_by_predicate("CA-1", "partOf"),
        vec!["VY-100".to_string(), "VY-101".to_string()]
    );
    assert_eq!(
        store.incoming_by_predicate("CA-2", "partOf"),
        vec!["VY-200".to_string()]
    );
    assert!(store.incoming_by_predicate("CA-9", "partOf").is_empty());
    store.remove_relation("VY-100", "CA-1", "partOf").unwrap();
    assert_eq!(
        store.incoming_by_predicate("CA-1", "partOf"),
        vec!["VY-101".to_string()]
    );
}

#[test]
fn removing_undoes_adding() {
    let mut store = RelationsStore::new();
    store.add_relation("A", "B", "blocks").unwrap();
    store.add_relation("A", "C", "blocks").unwrap();
    assert!(store.has_relation("A", "B", "blocks"));
    assert_eq!(store.active_count(), 2);
    store.remove_relation("A", "B", "blocks").unwrap();
    assert!(!store.has_relation("A", "B", "blocks"));
    assert!(store.has_relation("A", "C", "blocks"));
    assert_eq!(store.active_count(), 1);
    match store.remove_relation("A", "B", "blocks") {
        Err(e) => {
            assert!(matches!(e, RelationError::NotFound(..)), "{e:?}");
            assert!(e.message().contains("blocks"), "{}", e.message());
        }
        Ok(()) => panic!("removed twice"),
    }
}

#[test]
fn ids_of_relations_differ() {
    let mut store = RelationsStore::new();
    let a = store.add_relation("A", "B", "blocks").unwrap();
    let b = store.add_relation("A", "B", "blocks").unwrap();
    assert_ne!(a, b);
    assert!(!a.is_empty());
}

#[test]
fn a_loaded_store_has_what_was_saved() {
    let mut store = RelationsStore::new();
    store.add_relation("A", "B", "blocks").unwrap();
    store.add_relation("C", "B", "related").unwrap();
    store.remove_relation("C", "B", "related").unwrap();
    let copies: Vec<Table> =
        store.batches().iter().map(|t| Table { batch: t.batch.clone() }).collect();
    let mut again = RelationsStore::new();
    again.load(copies);
    assert_eq!(again.active_count(), 1);
    assert!(again.has_relation("A", "B", "blocks"));
    assert!(!again.has_relation("C", "B", "related"));
    assert_eq!(again.schema().fields().len(), 6);
}

#[test]
fn a_relation_is_there_while_it_was_added_more_often_than_removed() {
    let mut store = RelationsStore::default();
    store.add_relation("A", "B", "blocks").unwrap();
    store.add_relation("A", "B", "blocks").unwrap();
    store.add_relation("B", "A", "blocks").unwrap();
    store.remove_relation("A", "B", "blocks").unwrap();
    assert!(store.has_relation("A", "B", "blocks"));
    store.remove_relation("A", "B", "blocks").unwrap();
    assert!(!store.has_relation("A", "B", "blocks"));
    assert!(store.has_relation("B", "A", "blocks"));
    let error = store.remove_relation("A", "B", "blocks").unwrap_err();
    assert_eq!(error.message(), "Relation not found: A → B (blocks)");
    store.add_relation("A", "B", "blocks").unwrap();
    assert!(store.has_relation("A", "B", "blocks"));
}

#[test]
fn removing_changes_the_mark_alone() {
    let mut store = RelationsStore::new();
    let first = store.add_relation_as("r1", "A", "B", "blocks", 11).unwrap();
    let second = store.add_relation_as("r2", "A", "B", "blocks", 22).unwrap();
    assert_eq!((first.as_str(), second.as_str()), ("r1", "r2"));
    let before: Vec<RecordBatch> = store.batches().iter().map(|t| t.batch.clone()).collect();
    store.remove_relation("A", "B", "blocks").unwrap();
    let after: Vec<RecordBatch> = store.batches().iter().map(|t| t.batch.clone()).collect();
    assert_eq!(after.len(), 2);
    assert_eq!(after[1], before[1]);
    for col in 0..5 {
        assert_eq!(after[0].column(col), before[0].column(col));
    }
    assert_ne!(after[0].column(5), before[0].column(5));
}

#[test]
fn new_relations_have_ids_of_their_own() {
    let mut store = RelationsStore::new();
    let a = store.add_relation("A", "B", "blocks").unwrap();
    let b = store.add_relation("A", "B", "blocks").unwrap();
    assert_eq!(a.len(), 36);
    assert_ne!(a, b);
}

#[test]
fn a_snapshot_does_not_change() {
    let mut store = RelationsStore::new();
    store.add_relation("A", "B", "blocks").unwrap();
    let snapshot = store.clone();
    store.remove_relation("A", "B", "blocks").unwrap();
    assert!(snapshot.has_relation("A", "B", "blocks"));
    assert!(!store.has_relation("A", "B", "blocks"));
    assert_eq!(snapshot.active_count(), 1);
}

#[test]
fn a_new_relation_is_a_row_of_the_schema() {
    let schema = relations_schema();
    assert_eq!(schema.field(1).name(), "source_id");
    assert_eq!(schema.field(4).name(), "created_at");
    assert_eq!(
        schema.field(4).data_type(),
        &DataType::Timestamp(TimeUnit::Millisecond, Some("UTC".into()))
    );
    assert_eq!(schema.field(5).data_type(), &DataType::Boolean);
    assert!(schema.fields().iter().all(|f| !f.is_nullable()));
    let mut store = RelationsStore::new();
    store.add_relation_as("r1", "A", "B", "blocks", 7).unwrap();
    let batch = &store.batches()[0].batch;
    assert_eq!(batch.schema(), schema);
    assert_eq!(batch.num_rows(), 1);
    let target = batch.column(2).as_any().downcast_ref::<StringArray>().unwrap();
    assert_eq!(target.value(0), "B");
    let at = batch.column(4).as_any().downcast_ref::<TimestampMillisecondArray>().unwrap();
    assert_eq!(at.value(0), 7);
}

#[test]
fn a_table_that_does_not_fit_is_left_as_it_was() {
    let mut store = RelationsStore::new();
    store.add_relation_as("r1", "A", "B", "blocks", 7).unwrap();
    let batch = store.batches()[0].batch.clone();
    let mut columns = batch.columns().to_vec();
    columns[4] = Arc::new(TimestampMillisecondArray::from(vec![7]));
    let names: Vec<String> = batch.schema().fields().iter().map(|f| f.name().clone()).collect();
    let old = RecordBatch::try_from_iter(names.into_iter().zip(columns)).unwrap();
    let mut loaded = RelationsStore::new();
    loaded.load(vec![Table { batch: old }]);
    let error = loaded.remove_relation("A", "B", "blocks").unwrap_err();
    assert!(matches!(error, RelationError::Arrow(_)));
    assert!(loaded.has_relation("A", "B", "blocks"));
}
