use temporal_ai::pattern_extractor::Pattern;
use temporal_ai::vector_store::VectorStore;
use temporal_ai::TemporalAIError;

fn create_test_pattern() -> Pattern {
    Pattern {
        id: "test123".to_string(),
        description: "Test pattern".to_string(),
        file_paths: vec!["src/main.rs".to_string()],
        commit_sha: "abc123".to_string(),
        timestamp: 1234567890,
        tags: vec!["rust".to_string(), "test".to_string()],
    }
}

#[test]
fn test_vector_store_create() {
    let dir = tempfile::tempdir().unwrap();
    let db_path = dir.path().join("test.redb");
    let _store = VectorStore::open(db_path.to_str().unwrap()).unwrap();

    assert!(db_path.exists());
}

#[test]
fn test_insert_and_retrieve() {
    let dir = tempfile::tempdir().unwrap();
    let db_path = dir.path().join("test.redb");
    let mut store = VectorStore::open(db_path.to_str().unwrap()).unwrap();

    let pattern = create_test_pattern();
    let embedding = vec![100_000i64; 768];

    store.insert(&pattern, embedding.clone()).unwrap();

    let retrieved_embedding = store.get_embedding(&pattern.id).unwrap();
    assert!(retrieved_embedding.is_some());
    assert_eq!(retrieved_embedding.unwrap().len(), 768);

    let retrieved_pattern = store.get_pattern(&pattern.id).unwrap();
    assert!(retrieved_pattern.is_some());
    assert_eq!(retrieved_pattern.unwrap().id, pattern.id);
}

#[test]
fn test_round_trip_values() {
    let dir = tempfile::tempdir().unwrap();
    let db_path = dir.path().join("test.redb");
    let mut store = VectorStore::open(db_path.to_str().unwrap()).unwrap();

    let pattern = create_test_pattern();
    let mut embedding = vec![0i64; 768];
    for (i, c) in embedding.iter_mut().enumerate() {
        *c = (i as i64) * 17 - 5000;
    }
    store.insert(&pattern, embedding.clone()).unwrap();

    assert_eq!(store.get_embedding(&pattern.id).unwrap().unwrap(), embedding);
    let p = store.get_pattern(&pattern.id).unwrap().unwrap();
    assert_eq!(p.description, pattern.description);
    assert_eq!(p.file_paths, pattern.file_paths);
    assert_eq!(p.commit_sha, pattern.commit_sha);
    assert_eq!(p.timestamp, pattern.timestamp);
    assert_eq!(p.tags, pattern.tags);
    let m = store.get_metrics(&pattern.id).unwrap().unwrap();
    assert_eq!(m.usage_count, 0);
}

#[test]
fn test_dimension_guard() {
    let dir = tempfile::tempdir().unwrap();
    let db_path = dir.path().join("test.redb");
    let mut store = VectorStore::open(db_path.to_str().unwrap()).unwrap();

    let pattern = create_test_pattern();
    let result = store.insert(&pattern, vec![100_000i64; 10]);
    assert!(matches!(
        result,
        Err(TemporalAIError::DimensionMismatch { expected: 768, actual: 10 })
    ));
    assert!(store.get_pattern(&pattern.id).unwrap().is_none());
}

#[test]
fn test_list_patterns() {
    let dir = tempfile::tempdir().unwrap();
    let db_path = dir.path().join("test.redb");
    let mut store = VectorStore::open(db_path.to_str().unwrap()).unwrap();

    let pattern1 = create_test_pattern();
    let pattern2 = Pattern { id: "test456".to_string(), ..create_test_pattern() };

    store.insert(&pattern1, vec![100_000i64; 768]).unwrap();
    store.insert(&pattern2, vec![200_000i64; 768]).unwrap();

    let patterns = store.list_patterns().unwrap();
    assert_eq!(patterns.len(), 2);
    assert!(patterns.contains(&pattern1.id));
    assert!(patterns.contains(&pattern2.id));
}

#[test]
fn test_find_by_tag() {
    let dir = tempfile::tempdir().unwrap();
    let db_path = dir.path().join("test.redb");
    let mut store = VectorStore::open(db_path.to_str().unwrap()).unwrap();

    let pattern = create_test_pattern();
    store.insert(&pattern, vec![100_000i64; 768]).unwrap();

    let rust_patterns = store.find_by_tag("rust").unwrap();
    assert_eq!(rust_patterns.len(), 1);
    assert_eq!(rust_patterns[0], pattern.id);
}

#[test]
fn test_find_by_file_path_index() {
    let dir = tempfile::tempdir().unwrap();
    let db_path = dir.path().join("test.redb");
    let mut store = VectorStore::open(db_path.to_str().unwrap()).unwrap();

    let mut pattern = create_test_pattern();
    pattern.id = "file-path-pattern".to_string();
    pattern.file_paths = vec!["src/lib.rs".to_string()];
    store.insert(&pattern, vec![100_000i64; 768]).unwrap();

    let matches = store.find_by_file_path("src/lib.rs").unwrap();
    assert_eq!(matches, vec![pattern.id]);
}

#[test]
fn test_index_growth_is_idempotent() {
    let dir = tempfile::tempdir().unwrap();
    let db_path = dir.path().join("test.redb");
    let mut store = VectorStore::open(db_path.to_str().unwrap()).unwrap();

    let pattern = create_test_pattern();
    store.insert(&pattern, vec![100_000i64; 768]).unwrap();
    store.insert(&pattern, vec![100_000i64; 768]).unwrap();

    let by_tag = store.find_by_tag("rust").unwrap();
    assert_eq!(by_tag, vec![pattern.id.clone()]);
    let by_path = store.find_by_file_path("src/main.rs").unwrap();
    assert_eq!(by_path, vec![pattern.id.clone()]);
    assert_eq!(store.list_patterns().unwrap().len(), 1);
}

#[test]
fn test_insert_batch_persists_records() {
    let dir = tempfile::tempdir().unwrap();
    let db_path = dir.path().join("test.redb");
    let mut store = VectorStore::open(db_path.to_str().unwrap()).unwrap();

    let mut pattern1 = create_test_pattern();
    pattern1.id = "batch-1".to_string();
    pattern1.file_paths = vec!["src/one.rs".to_string()];

    let mut pattern2 = create_test_pattern();
    pattern2.id = "batch-2".to_string();
    pattern2.file_paths = vec!["src/two.rs".to_string()];
    pattern2.commit_sha = "def456".to_string();

    let records = vec![
        (pattern1.clone(), vec![100_000i64; 768]),
        (pattern2.clone(), vec![200_000i64; 768]),
    ];

    store.insert_batch(&records).unwrap();

    let patterns = store.list_patterns().unwrap();
    assert_eq!(patterns.len(), 2);
    assert!(patterns.contains(&pattern1.id));
    assert!(patterns.contains(&pattern2.id));

    let file_matches = store.find_by_file_path("src/two.rs").unwrap();
    assert_eq!(file_matches, vec![pattern2.id]);
}

#[test]
fn test_insert_batch_rejects_bad_dimension() {
    let dir = tempfile::tempdir().unwrap();
    let db_path = dir.path().join("test.redb");
    let mut store = VectorStore::open(db_path.to_str().unwrap()).unwrap();

    let records = vec![
        (create_test_pattern(), vec![100_000i64; 768]),
        (Pattern { id: "short".to_string(), ..create_test_pattern() }, vec![100_000i64; 3]),
    ];
    assert!(matches!(
        store.insert_batch(&records),
        Err(TemporalAIError::DimensionMismatch { .. })
    ));
    assert_eq!(store.list_patterns().unwrap().len(), 0);
}

#[test]
fn test_metrics_update() {
    let dir = tempfile::tempdir().unwrap();
    let db_path = dir.path().join("test.redb");
    let mut store = VectorStore::open(db_path.to_str().unwrap()).unwrap();

    let pattern = create_test_pattern();
    store.insert(&pattern, vec![100_000i64; 768]).unwrap();

    let mut metrics = store.get_metrics(&pattern.id).unwrap().unwrap();
    metrics.record_recommendation(900_000, Some(1));

    store.update_metrics(&pattern.id, metrics).unwrap();

    let retrieved = store.get_metrics(&pattern.id).unwrap().unwrap();
    assert_eq!(retrieved.usage_count, 1);
    assert_eq!(retrieved.avg_relevance_score, 900_000);
}

#[test]
fn test_size_estimate() {
    let dir = tempfile::tempdir().unwrap();
    let db_path = dir.path().join("test.redb");
    let mut store = VectorStore::open(db_path.to_str().unwrap()).unwrap();
    assert_eq!(store.size().unwrap(), 0);
    store.insert(&create_test_pattern(), vec![100_000i64; 768]).unwrap();
    assert_eq!(store.size().unwrap(), 3500);
}

#[test]
fn test_reopen_preserves_data() {
    let dir = tempfile::tempdir().unwrap();
    let db_path = dir.path().join("test.redb");
    let path = db_path.to_str().unwrap();

    let pattern = create_test_pattern();
    let mut embedding = vec![0i64; 768];
    for (i, c) in embedding.iter_mut().enumerate() {
        *c = (i as i64) * 13 - 777;
    }
    {
        let mut store = VectorStore::open(path).unwrap();
        store.insert(&pattern, embedding.clone()).unwrap();
        let mut metrics = store.get_metrics(&pattern.id).unwrap().unwrap();
        metrics.record_recommendation(750_000, Some(1));
        store.update_metrics(&pattern.id, metrics).unwrap();
    }

    let reopened = VectorStore::open(path).unwrap();
    assert_eq!(reopened.get_embedding(&pattern.id).unwrap().unwrap(), embedding);
    let p = reopened.get_pattern(&pattern.id).unwrap().unwrap();
    assert_eq!(p.description, pattern.description);
    assert_eq!(p.tags, pattern.tags);
    let m = reopened.get_metrics(&pattern.id).unwrap().unwrap();
    assert_eq!(m.usage_count, 1);
    assert_eq!(m.avg_relevance_score, 750_000);
    assert_eq!(m.feedback_scores, vec![1i8]);
    assert_eq!(reopened.find_by_tag("rust").unwrap(), vec![pattern.id.clone()]);
}

#[test]
fn test_batch_reopen_preserves_data() {
    let dir = tempfile::tempdir().unwrap();
    let db_path = dir.path().join("test.redb");
    let path = db_path.to_str().unwrap();

    let mut pattern1 = create_test_pattern();
    pattern1.id = "batch-a".to_string();
    let mut pattern2 = create_test_pattern();
    pattern2.id = "batch-b".to_string();
    {
        let mut store = VectorStore::open(path).unwrap();
        let records = vec![
            (pattern1.clone(), vec![100_000i64; 768]),
            (pattern2.clone(), vec![200_000i64; 768]),
        ];
        store.insert_batch(&records).unwrap();
    }

    let reopened = VectorStore::open(path).unwrap();
    assert_eq!(reopened.list_patterns().unwrap().len(), 2);
    assert_eq!(reopened.get_embedding(&pattern2.id).unwrap().unwrap(), vec![200_000i64; 768]);
    let mut by_tag = reopened.find_by_tag("rust").unwrap();
    by_tag.sort();
    assert_eq!(by_tag, vec!["batch-a".to_string(), "batch-b".to_string()]);
}

#[test]
fn test_index_lists_are_sorted() {
    let dir = tempfile::tempdir().unwrap();
    let db_path = dir.path().join("test.redb");
    let mut store = VectorStore::open(db_path.to_str().unwrap()).unwrap();

    let mut later = create_test_pattern();
    later.id = "b-pattern".to_string();
    let mut earlier = create_test_pattern();
    earlier.id = "a-pattern".to_string();

    // Inserted out of order; each index entry comes back sorted ascending.
    store.insert(&later, vec![100_000i64; 768]).unwrap();
    store.insert(&earlier, vec![100_000i64; 768]).unwrap();

    let by_tag = store.find_by_tag("rust").unwrap();
    assert_eq!(by_tag, vec!["a-pattern".to_string(), "b-pattern".to_string()]);
    let by_path = store.find_by_file_path("src/main.rs").unwrap();
    assert_eq!(by_path, vec!["a-pattern".to_string(), "b-pattern".to_string()]);
}
