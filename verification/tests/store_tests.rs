//! Tests of the embedding store: schema lifecycle, insertion, and
//! similarity search.

use ragstore::errors::{ConfigurationError, StorageError};
use ragstore::score::SCORE_SCALE;
use ragstore::store::{EmbeddingStore, StoreConfig};

fn bits(v: &[f32]) -> Vec<u32> {
    v.iter().map(|x| x.to_bits()).collect()
}

#[test]
fn round_trip_returns_the_record_with_score_one() {
    let mut store = EmbeddingStore::new_in_memory().unwrap();
    store.ensure_schema().unwrap();
    let v = bits(&[0.1, 0.2, 0.3, 0.4]);
    store.insert("the quick brown fox", &v, None).unwrap();
    let out = store.search_similar(&v, 1).unwrap();
    assert_eq!(out.hits.len(), 1);
    assert_eq!(out.hits[0].text, "the quick brown fox");
    assert_eq!(out.hits[0].score, SCORE_SCALE);
    assert_eq!(out.skipped, 0);
}

#[test]
fn ranking_is_by_descending_similarity() {
    let mut store = EmbeddingStore::new_in_memory().unwrap();
    store.ensure_schema().unwrap();
    store.insert("first", &bits(&[1.0, 0.0]), None).unwrap();
    store.insert("second", &bits(&[0.0, 1.0]), None).unwrap();
    store.insert("third", &bits(&[0.9, 0.1]), None).unwrap();
    let out = store.search_similar(&bits(&[1.0, 0.0]), 2).unwrap();
    assert_eq!(out.hits.len(), 2);
    assert_eq!(out.hits[0].text, "first");
    assert_eq!(out.hits[1].text, "third");
    assert!(out.hits[0].score >= out.hits[1].score);
}

#[test]
fn insert_before_ensure_schema_fails_with_schema_missing() {
    let mut store = EmbeddingStore::new_in_memory().unwrap();
    let r = store.insert("too early", &bits(&[1.0]), None);
    assert!(matches!(r, Err(StorageError::SchemaMissing)));
    let s = store.search_similar(&bits(&[1.0]), 1);
    assert!(matches!(s, Err(StorageError::SchemaMissing)));
    let c = store.count();
    assert!(matches!(c, Err(StorageError::SchemaMissing)));
}

#[test]
fn reset_without_a_table_is_a_no_op_success() {
    let mut store = EmbeddingStore::new_in_memory().unwrap();
    assert!(store.reset().is_ok());
    assert!(store.reset().is_ok());
}

#[test]
fn ensure_schema_is_idempotent() {
    let mut store = EmbeddingStore::new_in_memory().unwrap();
    store.ensure_schema().unwrap();
    store.insert("kept", &bits(&[1.0]), None).unwrap();
    store.ensure_schema().unwrap();
    assert_eq!(store.count().unwrap(), 1);
}

#[test]
fn reset_drops_all_records() {
    let mut store = EmbeddingStore::new_in_memory().unwrap();
    store.ensure_schema().unwrap();
    store.insert("gone", &bits(&[1.0]), None).unwrap();
    store.reset().unwrap();
    let r = store.insert("still missing", &bits(&[1.0]), None);
    assert!(matches!(r, Err(StorageError::SchemaMissing)));
    store.ensure_schema().unwrap();
    assert_eq!(store.count().unwrap(), 0);
}

#[test]
fn ids_are_unique_and_increasing() {
    let mut store = EmbeddingStore::new_in_memory().unwrap();
    store.ensure_schema().unwrap();
    let a = store.insert("a", &bits(&[1.0]), None).unwrap();
    let b = store.insert("a", &bits(&[1.0]), None).unwrap();
    let c = store.insert("a", &bits(&[1.0]), None).unwrap();
    assert!(a < b && b < c);
    assert_eq!(store.count().unwrap(), 3);
}

#[test]
fn metadata_is_accepted() {
    let mut store = EmbeddingStore::new_in_memory().unwrap();
    store.ensure_schema().unwrap();
    let meta = "{\"source\":\"doc.pdf\"}".to_string();
    let id = store.insert("with meta", &bits(&[0.5]), Some(&meta)).unwrap();
    assert_eq!(id, 1);
    assert_eq!(store.count().unwrap(), 1);
}

#[test]
fn limit_zero_returns_nothing() {
    let mut store = EmbeddingStore::new_in_memory().unwrap();
    store.ensure_schema().unwrap();
    store.insert("a", &bits(&[1.0, 0.0]), None).unwrap();
    store.insert("b", &bits(&[0.0, 1.0]), None).unwrap();
    let out = store.search_similar(&bits(&[1.0, 0.0]), 0).unwrap();
    assert!(out.hits.is_empty());
    assert_eq!(out.skipped, 0);
}

#[test]
fn limit_beyond_count_returns_all() {
    let mut store = EmbeddingStore::new_in_memory().unwrap();
    store.ensure_schema().unwrap();
    store.insert("a", &bits(&[1.0, 0.0]), None).unwrap();
    store.insert("b", &bits(&[0.0, 1.0]), None).unwrap();
    store.insert("c", &bits(&[0.5, 0.5]), None).unwrap();
    let out = store.search_similar(&bits(&[1.0, 0.0]), 8).unwrap();
    assert_eq!(out.hits.len(), 3);
}

#[test]
fn corrupt_row_is_skipped_and_counted() {
    let mut store = EmbeddingStore::new_in_memory().unwrap();
    store.ensure_schema().unwrap();
    store.insert("well formed", &bits(&[1.0, 0.0]), None).unwrap();
    let corrupt: Vec<u8> = vec![1, 2, 3, 4, 5];
    store.insert_raw("corrupt", &corrupt, None).unwrap();
    let out = store.search_similar(&bits(&[1.0, 0.0]), 10).unwrap();
    assert_eq!(out.hits.len(), 1);
    assert_eq!(out.hits[0].text, "well formed");
    assert_eq!(out.skipped, 1);
}

#[test]
fn equal_scores_keep_scan_order() {
    let mut store = EmbeddingStore::new_in_memory().unwrap();
    store.ensure_schema().unwrap();
    store.insert("early", &bits(&[1.0, 0.0]), None).unwrap();
    store.insert("late", &bits(&[2.0, 0.0]), None).unwrap();
    let out = store.search_similar(&bits(&[1.0, 0.0]), 2).unwrap();
    assert_eq!(out.hits[0].score, out.hits[1].score);
    assert_eq!(out.hits[0].text, "early");
    assert_eq!(out.hits[1].text, "late");
}

#[test]
fn opening_an_impossible_path_reports_a_backend_error() {
    let r = EmbeddingStore::new("/surely/not/a/real/directory/embeddings.db");
    assert!(matches!(r, Err(StorageError::Backend(_))));
}

#[test]
fn error_messages_name_the_failure() {
    assert_eq!(
        StorageError::SchemaMissing.message(),
        "embeddings table does not exist"
    );
}

#[test]
fn configuration_is_validated_field_by_field() {
    let ok = StoreConfig::new(
        "/tmp/embeddings.db".to_string(),
        "my-bucket".to_string(),
        "embeddings/embeddings.db".to_string(),
        true,
    )
    .unwrap();
    assert_eq!(ok.local_path, "/tmp/embeddings.db");
    assert_eq!(ok.remote_bucket, "my-bucket");
    assert_eq!(ok.remote_key, "embeddings/embeddings.db");
    assert!(ok.prefer_local);

    let e1 = StoreConfig::new("".to_string(), "b".to_string(), "k".to_string(), false);
    assert_eq!(e1.err().unwrap(), ConfigurationError::MissingLocalPath);
    let e2 = StoreConfig::new("p".to_string(), "".to_string(), "k".to_string(), false);
    assert_eq!(e2.err().unwrap(), ConfigurationError::MissingRemoteBucket);
    let e3 = StoreConfig::new("p".to_string(), "b".to_string(), "".to_string(), false);
    assert_eq!(e3.err().unwrap(), ConfigurationError::MissingRemoteKey);
}

#[test]
fn reopening_a_database_file_restores_the_store() {
    let path = "/tmp/ragstore_reopen_test.db";
    {
        let mut store = EmbeddingStore::new(path).unwrap();
        store.reset().unwrap();
        store.ensure_schema().unwrap();
        store.insert("persisted", &bits(&[1.0, 0.0]), None).unwrap();
        store.insert("persisted too", &bits(&[0.0, 1.0]), None).unwrap();
    }
    let mut store = EmbeddingStore::new(path).unwrap();
    assert_eq!(store.count().unwrap(), 2);
    let id = store.insert("after reopen", &bits(&[1.0, 1.0]), None).unwrap();
    assert_eq!(id, 3);
    let out = store.search_similar(&bits(&[1.0, 0.0]), 1).unwrap();
    assert_eq!(out.hits[0].text, "persisted");
}

#[test]
fn a_foreign_view_named_embeddings_is_refused() {
    let path = "/tmp/ragstore_foreign_view_test.db";
    let conn = rusqlite::Connection::open(path).unwrap();
    conn.execute("DROP VIEW IF EXISTS embeddings", []).ok();
    conn.execute("DROP TABLE IF EXISTS embeddings", []).ok();
    conn.execute(
        "CREATE VIEW embeddings AS SELECT 1 AS id, 'x' AS text, x'00000000' AS embedding, NULL AS metadata",
        [],
    )
    .unwrap();
    drop(conn);
    let r = EmbeddingStore::new(path);
    assert!(matches!(r, Err(StorageError::Backend(_))));
}

#[test]
fn a_foreign_table_named_embeddings_is_refused() {
    let path = "/tmp/ragstore_foreign_table_test.db";
    let conn = rusqlite::Connection::open(path).unwrap();
    conn.execute("DROP VIEW IF EXISTS embeddings", []).ok();
    conn.execute("DROP TABLE IF EXISTS embeddings", []).ok();
    conn.execute(
        "CREATE TABLE embeddings (id INTEGER, text TEXT NOT NULL, embedding BLOB NOT NULL, metadata TEXT)",
        [],
    )
    .unwrap();
    drop(conn);
    let r = EmbeddingStore::new(path);
    assert!(matches!(r, Err(StorageError::Backend(_))));
}
