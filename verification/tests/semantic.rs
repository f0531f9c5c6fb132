//! Search by meaning.
use std::sync::Arc;

use arrow::array::{
    ArrayRef, BooleanArray, FixedSizeListBuilder, Float32Builder, Int32Array, ListArray,
    ListBuilder, RecordBatch, StringArray, StringBuilder, TimestampMillisecondArray,
};
use arrow_kanban::columns::Table;
use arrow_kanban::embedding::EMBED_DIM;
use arrow_kanban::item_type::ItemType;
use arrow_kanban::embedding::{
    backend_by_name, default_backend, fnv1a, hash_counts, Backend, CandleDevice, EmbedError,
};
use arrow_kanban::semantic::{
    score_bits, score_key, semantic_query_with_filters, QueryFilters, RankedResult,
};

/// What a new item is made of.
struct CreateItemInput {
    title: String,
    item_type: ItemType,
    priority: Option<String>,
    assignee: Option<String>,
    tags: Vec<String>,
    related: Vec<String>,
    depends_on: Vec<String>,
    body: Option<String>,
    embedding: Option<Vec<f32>>,
}

/// One item of the board in the tests.
struct Row {
    id: String,
    status: String,
    resolution: Option<String>,
    rank: Option<i32>,
    deleted: bool,
    input: CreateItemInput,
}

/// A board in memory: one table for each item.
struct KanbanStore {
    rows: Vec<Row>,
}

fn texts(list: &[String]) -> ListArray {
    let mut builder = ListBuilder::new(StringBuilder::new());
    for s in list {
        builder.values().append_value(s);
    }
    builder.append(true);
    builder.finish()
}

fn text(value: Option<&str>) -> ArrayRef {
    Arc::new(StringArray::from(vec![value]))
}

fn vector(value: Option<&Vec<f32>>) -> ArrayRef {
    let mut builder = FixedSizeListBuilder::new(Float32Builder::new(), EMBED_DIM as i32);
    match value {
        Some(v) => builder.values().append_slice(v),
        None => builder.values().append_nulls(EMBED_DIM),
    }
    builder.append(value.is_some());
    Arc::new(builder.finish())
}

fn item_table(row: &Row) -> Table {
    let board = if ItemType::RESEARCH.iter().any(|t| t.as_str() == row.input.item_type.as_str()) {
        "research"
    } else {
        "development"
    };
    let columns: Vec<(&str, ArrayRef)> = vec![
        ("id", text(Some(&row.id))),
        ("title", text(Some(&row.input.title))),
        ("item_type", text(Some(row.input.item_type.as_str()))),
        ("status", text(Some(&row.status))),
        ("priority", text(row.input.priority.as_deref())),
        ("created", Arc::new(TimestampMillisecondArray::from(vec![1_000]))),
        ("assignee", text(row.input.assignee.as_deref())),
        ("board", text(Some(board))),
        ("tags", Arc::new(texts(&row.input.tags))),
        ("related", Arc::new(texts(&row.input.related))),
        ("depends_on", Arc::new(texts(&row.input.depends_on))),
        ("body", text(row.input.body.as_deref())),
        ("body_hash", text(None)),
        ("deleted", Arc::new(BooleanArray::from(vec![row.deleted]))),
        ("resolution", text(row.resolution.as_deref())),
        ("closed_by", text(None)),
        ("updated_at", Arc::new(TimestampMillisecondArray::from(vec![None::<i64>]))),
        ("priority_rank", Arc::new(Int32Array::from(vec![row.rank]))),
        ("attempt_count", Arc::new(Int32Array::from(vec![0]))),
        ("embedding", vector(row.input.embedding.as_ref())),
    ];
    let batch = RecordBatch::try_from_iter_with_nullable(
        columns.into_iter().map(|(name, column)| (name, column, true)),
    );
    Table { batch: batch.expect("one row") }
}

impl KanbanStore {
    fn new() -> Self {
        KanbanStore { rows: vec![] }
    }

    fn create_item(&mut self, input: &CreateItemInput) -> Result<String, String> {
        let id = format!("{}-{}", input.item_type.prefix(), 3001 + self.rows.len());
        self.rows.push(Row {
            id: id.clone(),
            status: "backlog".to_string(),
            resolution: None,
            rank: None,
            deleted: false,
            input: CreateItemInput {
                title: input.title.clone(),
                item_type: input.item_type,
                priority: input.priority.clone(),
                assignee: input.assignee.clone(),
                tags: input.tags.clone(),
                related: input.related.clone(),
                depends_on: input.depends_on.clone(),
                body: input.body.clone(),
                embedding: input.embedding.clone(),
            },
        });
        Ok(id)
    }

    fn row(&mut self, id: &str) -> &mut Row {
        self.rows.iter_mut().find(|r| r.id == id).expect("an item")
    }

    fn tables(&self) -> Vec<Table> {
        self.rows.iter().map(item_table).collect()
    }
}

fn cosine(a: &[f32], b: &[f32]) -> f32 {
    let dot: f32 = a.iter().zip(b).map(|(x, y)| x * y).sum();
    let size = |v: &[f32]| v.iter().map(|x| x * x).sum::<f32>().sqrt();
    let (p, q) = (size(a), size(b));
    if p == 0.0 || q == 0.0 {
        0.0
    } else {
        dot / (p * q)
    }
}

fn semantic_query(
    store: &KanbanStore,
    item_type: Option<&str>,
    query: &[f32],
    top_k: usize,
    threshold: f32,
) -> Vec<RankedResult> {
    search(store, &store.tables(), item_type, query, top_k, threshold)
}

fn search(
    store: &KanbanStore,
    tables: &[Table],
    item_type: Option<&str>,
    query: &[f32],
    top_k: usize,
    threshold: f32,
) -> Vec<RankedResult> {
    let scores: Vec<Vec<i64>> = store
        .rows
        .iter()
        .map(|r| match &r.input.embedding {
            Some(v) => vec![score_key(cosine(v, query).to_bits())],
            None => vec![score_key(0.0f32.to_bits())],
        })
        .collect();
    let filters = QueryFilters {
        status: None,
        item_type: item_type.map(str::to_string),
        board: None,
        assignee: None,
    };
    let key = score_key(threshold.to_bits());
    semantic_query_with_filters(tables, &filters, &scores, top_k, key)
}

fn unit(mostly: usize) -> Vec<f32> {
    let len = EMBED_DIM;
    let mut v = vec![0.0f32; len];
    v[mostly % len] = 1.0;
    v
}

fn store_with_embeddings(rows: &[(&str, Vec<f32>)]) -> KanbanStore {
    let mut store = KanbanStore::new();
    for (title, emb) in rows {
        store
            .create_item(&CreateItemInput {
                embedding: Some(emb.clone()),
                title: title.to_string(),
                item_type: ItemType::Chore,
                priority: None,
                assignee: None,
                tags: vec![],
                related: vec![],
                depends_on: vec![],
                body: None,
            })
            .expect("create");
    }
    store
}

#[test]
fn semantic_query_ranks_by_cosine_similarity_descending() {
    let store = store_with_embeddings(&[
        ("exact match", unit(0)),
        ("orthogonal", unit(1)),
        ("also exact", unit(0)),
    ]);
    let results = semantic_query(&store, None, &unit(0), 10, -1.0);
    assert_eq!(results.len(), 3);
    assert!(results[0].score >= results[1].score);
    assert!(results[1].score >= results[2].score);
    assert!(results[0].score > results[2].score);
}

#[test]
fn semantic_query_respects_threshold() {
    let store = store_with_embeddings(&[("close", unit(0)), ("far", unit(1))]);
    let results = semantic_query(&store, None, &unit(0), 10, 0.5);
    assert_eq!(results.len(), 1);
    assert_eq!(results[0].title, "close");
}

#[test]
fn semantic_query_respects_top_k() {
    let store = store_with_embeddings(&[("a", unit(0)), ("b", unit(0)), ("c", unit(0))]);
    let results = semantic_query(&store, None, &unit(0), 2, -1.0);
    assert_eq!(results.len(), 2);
}

#[test]
fn semantic_query_skips_items_with_no_stored_embedding() {
    let mut store = store_with_embeddings(&[("has embedding", unit(0))]);
    store
        .create_item(&CreateItemInput {
            embedding: None,
            title: "no embedding".to_string(),
            item_type: ItemType::Chore,
            priority: None,
            assignee: None,
            tags: vec![],
            related: vec![],
            depends_on: vec![],
            body: None,
        })
        .expect("create");
    let results = semantic_query(&store, None, &unit(0), 10, -1.0);
    assert_eq!(results.len(), 1);
    assert_eq!(results[0].title, "has embedding");
}

#[test]
fn semantic_query_composes_with_structural_filters() {
    let mut store = KanbanStore::new();
    store
        .create_item(&CreateItemInput {
            embedding: Some(unit(0)),
            title: "chore, matches".to_string(),
            item_type: ItemType::Chore,
            priority: None,
            assignee: None,
            tags: vec![],
            related: vec![],
            depends_on: vec![],
            body: None,
        })
        .expect("create");
    store
        .create_item(&CreateItemInput {
            embedding: Some(unit(0)),
            title: "expedition, filtered out by type".to_string(),
            item_type: ItemType::Expedition,
            priority: None,
            assignee: None,
            tags: vec![],
            related: vec![],
            depends_on: vec![],
            body: None,
        })
        .expect("create");
    let results = semantic_query(&store, Some("chore"), &unit(0), 10, -1.0);
    assert_eq!(results.len(), 1);
    assert_eq!(results[0].title, "chore, matches");
}

#[test]
fn cosine_search_over_a_thousand_items_is_sub_millisecond() {
    let n = 1000;
    let rows: Vec<(String, Vec<f32>)> =
        (0..n).map(|i| (format!("item {i}"), unit(i))).collect();
    let mut store = KanbanStore::new();
    for (title, emb) in &rows {
        store
            .create_item(&CreateItemInput {
                embedding: Some(emb.clone()),
                title: title.clone(),
                item_type: ItemType::Chore,
                priority: None,
                assignee: None,
                tags: vec![],
                related: vec![],
                depends_on: vec![],
                body: None,
            })
            .expect("create");
    }
    let query = unit(0);
    let tables = store.tables();
    let start = std::time::Instant::now();
    let results = search(&store, &tables, None, &query, 10, -1.0);
    let elapsed = start.elapsed();
    println!("cosine search over {n} items: {elapsed:?}");
    assert_eq!(results.len(), 10);
    assert!(
        elapsed.as_millis() < 50,
        "expected sub-millisecond-scale search, took {elapsed:?} over {n} items \
         (generous CI bound — see stdout for the actual measured number)"
    );
}
#[test]
fn keys_of_scores_are_ordered_like_the_scores() {
    let scores = [-1.0f32, -0.5, -0.0, 0.0, 0.25, 0.5, 1.0];
    for pair in scores.windows(2) {
        assert!(score_key(pair[0].to_bits()) <= score_key(pair[1].to_bits()));
        assert_eq!(
            score_key(pair[0].to_bits()) < score_key(pair[1].to_bits()),
            pair[0] < pair[1]
        );
    }
    for s in [-1.0f32, -0.5, 0.0, 0.25, 1.0] {
        assert_eq!(f32::from_bits(score_bits(score_key(s.to_bits()))), s);
    }
}

fn normalized(counts: &[i128]) -> Vec<f32> {
    let v: Vec<f32> = counts.iter().map(|x| *x as f32).collect();
    let size = v.iter().map(|x| x * x).sum::<f32>().sqrt();
    if size == 0.0 {
        v
    } else {
        v.iter().map(|x| x / size).collect()
    }
}

fn embed(text: &str) -> Vec<f32> {
    normalized(&hash_counts(text))
}

#[test]
fn hash_backend_dimension_matches_embed_dim() {
    let v = embed("kanban semantic query");
    assert_eq!(v.len(), EMBED_DIM);
}

#[test]
fn hash_backend_is_deterministic() {
    let a = embed("fix the flaky test");
    let b = embed("fix the flaky test");
    assert_eq!(a, b);
}

#[test]
fn hash_backend_similar_text_scores_higher_than_unrelated() {
    let a = embed("fix the flaky login test");
    let b = embed("fix the flaky login integration test");
    let c = embed("upgrade the onnx runtime dependency");
    let sim_ab: f32 = a.iter().zip(&b).map(|(x, y)| x * y).sum();
    let sim_ac: f32 = a.iter().zip(&c).map(|(x, y)| x * y).sum();
    assert!(
        sim_ab > sim_ac,
        "related pair ({sim_ab}) should score above unrelated pair ({sim_ac})"
    );
}

#[test]
fn empty_text_embeds_to_zero_vector_of_correct_dimension() {
    let v = embed("");
    assert_eq!(v.len(), EMBED_DIM);
    assert!(v.iter().all(|x| *x == 0.0));
}

#[test]
fn hashes_are_those_of_the_bytes() {
    assert_eq!(fnv1a(b""), 0xcbf29ce484222325);
    assert_eq!(fnv1a(b"a"), 0xaf63dc4c8601ec8c);
    let once = hash_counts("Word");
    assert_eq!(once, hash_counts("  word "));
    assert_eq!(once.iter().map(|x| x.abs()).sum::<i128>(), 1);
    let twice = hash_counts("word WORD");
    assert_eq!(twice.iter().map(|x| x.abs()).sum::<i128>(), 2);
}

#[test]
fn backend_by_name_hash_returns_hash_backend() {
    let b = backend_by_name(Some("hash"), false).unwrap();
    assert_eq!(b.name(), "hash");
}

#[test]
fn backend_by_name_none_matches_default_backend() {
    for has_fastembed in [false, true] {
        let b = backend_by_name(None, has_fastembed).unwrap();
        assert_eq!(b.name(), default_backend(has_fastembed).name());
    }
}

#[test]
fn backend_by_name_rejects_unknown_provider() {
    assert!(backend_by_name(Some("carrier-pigeon"), false).is_err());
}

#[test]
fn devices_are_there_or_not() {
    assert!(CandleDevice::Cpu.check(false).is_ok());
    assert!(CandleDevice::Cuda(0).check(true).is_ok());
    match CandleDevice::Cuda(0).check(false) {
        Err(e) => assert!(matches!(e, EmbedError::Backend(_)), "{e:?}"),
        Ok(()) => panic!("no such device"),
    }
    assert_eq!(CandleDevice::Cpu.name(), "candle-cpu:all-MiniLM-L6-v2");
    assert_eq!(Backend::Hash.name(), "hash");
}
