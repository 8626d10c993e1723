use temporal_ai::pattern_extractor::Pattern;
use temporal_ai::similarity::{
    cosine_similarity, dot_product_fallback, dot_product_simd, l2_norm, SearchFilters,
    SimilaritySearch,
};
use temporal_ai::vector_store::VectorStore;
use temporal_ai::SCALE;

fn create_test_pattern(id: &str) -> Pattern {
    Pattern {
        id: id.to_string(),
        description: format!("Test pattern {}", id),
        file_paths: vec![format!("src/{}.rs", id)],
        commit_sha: format!("commit{}", id),
        timestamp: 1234567890,
        tags: vec!["rust".to_string()],
    }
}

#[test]
fn test_cosine_similarity() {
    let a = vec![1_000_000i64, 0, 0];
    let b = vec![1_000_000i64, 0, 0];
    let score = cosine_similarity(&a, &b);
    assert!((score - SCALE).abs() < 1000);

    let a = vec![1_000_000i64, 0];
    let b = vec![0i64, 1_000_000];
    let score = cosine_similarity(&a, &b);
    assert!((score - 0).abs() < 1000);

    let a = vec![1_000_000i64, 1_000_000];
    let b = vec![1_000_000i64, 1_000_000];
    let score = cosine_similarity(&a, &b);
    assert!((score - SCALE).abs() < 1000);
}

#[test]
fn test_cosine_similarity_edge_cases() {
    // Mismatched lengths are defensively scored zero.
    let a = vec![1_000_000i64, 0, 0];
    let b = vec![1_000_000i64, 0];
    assert_eq!(cosine_similarity(&a, &b), 0);

    // A zero vector is maximally dissimilar to everything, itself included.
    let z = vec![0i64, 0, 0];
    assert_eq!(cosine_similarity(&z, &a), 0);
    assert_eq!(cosine_similarity(&z, &z), 0);

    // Opposite vectors score the most negative value.
    let c = vec![-1_000_000i64, 0, 0];
    let score = cosine_similarity(&a, &c);
    assert!((score + SCALE).abs() < 1000);
    assert!(-SCALE <= score && score <= SCALE);
}

#[test]
fn test_similarity_search() {
    let dir = tempfile::tempdir().unwrap();
    let db_path = dir.path().join("test.redb");
    let mut store = VectorStore::open(db_path.to_str().unwrap()).unwrap();

    let pattern1 = create_test_pattern("1");
    let pattern2 = create_test_pattern("2");
    let pattern3 = create_test_pattern("3");

    let query_emb = vec![1_000_000i64; 768];
    let emb1 = vec![900_000i64; 768];
    let emb2 = vec![500_000i64; 768];
    let emb3 = vec![300_000i64; 768];

    store.insert(&pattern1, emb1).unwrap();
    store.insert(&pattern2, emb2).unwrap();
    store.insert(&pattern3, emb3).unwrap();

    let search = SimilaritySearch::new(&store);
    let results = search.search(&query_emb, 2).unwrap();

    assert_eq!(results.len(), 2);
    // Note on the expected strict ordering: the three stored vectors are all
    // scalar multiples of the query, and cosine similarity is independent of
    // magnitude, so all three scores are exactly 1.0 here.  A strictly
    // decreasing order is impossible for these inputs under exact cosine;
    // a floating-point implementation orders them only by rounding noise.
    // The deterministic tie-break applies instead: the earliest-stored
    // pattern takes first place, and the scores are equal.
    assert_eq!(results[0].pattern_id, "1");
    assert_eq!(results[1].pattern_id, "2");
    assert!(results[0].score >= results[1].score);
    assert_eq!(results[0].score, SCALE);
}

#[test]
fn test_search_ranks_by_direction() {
    let dir = tempfile::tempdir().unwrap();
    let db_path = dir.path().join("test.redb");
    let mut store = VectorStore::open(db_path.to_str().unwrap()).unwrap();

    // Two directions: one aligned with the query, one nearly orthogonal.
    let mut aligned = vec![0i64; 768];
    aligned[0] = 1_000_000;
    let mut off_axis = vec![0i64; 768];
    off_axis[1] = 1_000_000;
    off_axis[0] = 10_000;

    store.insert(&create_test_pattern("aligned"), aligned).unwrap();
    store.insert(&create_test_pattern("off"), off_axis).unwrap();

    let mut query = vec![0i64; 768];
    query[0] = 1_000_000;
    let search = SimilaritySearch::new(&store);
    let results = search.search(&query, 2).unwrap();

    assert_eq!(results.len(), 2);
    assert_eq!(results[0].pattern_id, "aligned");
    assert!(results[0].score > results[1].score);

    // Top-k returns exactly min(k, candidates) results, sorted descending.
    let top1 = search.search(&query, 1).unwrap();
    assert_eq!(top1.len(), 1);
    assert_eq!(top1[0].pattern_id, "aligned");
    let top5 = search.search(&query, 5).unwrap();
    assert_eq!(top5.len(), 2);
    assert!(top5[0].score >= top5[1].score);
}

#[test]
fn test_search_with_min_score() {
    let dir = tempfile::tempdir().unwrap();
    let db_path = dir.path().join("test.redb");
    let mut store = VectorStore::open(db_path.to_str().unwrap()).unwrap();

    let pattern1 = create_test_pattern("1");
    let pattern2 = create_test_pattern("2");

    store.insert(&pattern1, vec![900_000i64; 768]).unwrap();
    store.insert(&pattern2, vec![300_000i64; 768]).unwrap();

    let query_emb = vec![1_000_000i64; 768];
    let min_score = 950_000i64;
    let filters = SearchFilters { min_score: Some(min_score), ..Default::default() };

    let search = SimilaritySearch::new(&store);
    let results = search.search_filtered(&query_emb, 10, &filters).unwrap();

    for result in &results {
        assert!(result.score >= min_score);
    }
}

#[test]
fn test_search_with_glob_filter() {
    let dir = tempfile::tempdir().unwrap();
    let db_path = dir.path().join("test.redb");
    let mut store = VectorStore::open(db_path.to_str().unwrap()).unwrap();

    let mut rust_pattern = create_test_pattern("rusty");
    rust_pattern.file_paths = vec!["src/engine.rs".to_string()];
    let mut doc_pattern = create_test_pattern("docs");
    doc_pattern.file_paths = vec!["docs/guide.md".to_string()];
    store.insert(&rust_pattern, vec![500_000i64; 768]).unwrap();
    store.insert(&doc_pattern, vec![500_000i64; 768]).unwrap();

    let query = vec![1_000_000i64; 768];
    let search = SimilaritySearch::new(&store);

    let filters = SearchFilters {
        file_path_glob: Some("src/*.rs".to_string()),
        ..Default::default()
    };
    let results = search.search_filtered(&query, 10, &filters).unwrap();
    assert_eq!(results.len(), 1);
    assert_eq!(results[0].pattern_id, rust_pattern.id);

    // A malformed glob is rejected as an input error, not a panic.
    let bad = SearchFilters { file_path_glob: Some("[bad".to_string()), ..Default::default() };
    assert!(search.search_filtered(&query, 10, &bad).is_err());
}

#[test]
fn test_search_with_tag_filter() {
    let dir = tempfile::tempdir().unwrap();
    let db_path = dir.path().join("test.redb");
    let mut store = VectorStore::open(db_path.to_str().unwrap()).unwrap();

    let mut p1 = create_test_pattern("tagged");
    p1.tags = vec!["rust".to_string(), "feat".to_string()];
    let mut p2 = create_test_pattern("other");
    p2.tags = vec!["python".to_string()];
    store.insert(&p1, vec![500_000i64; 768]).unwrap();
    store.insert(&p2, vec![500_000i64; 768]).unwrap();

    let query = vec![1_000_000i64; 768];
    let search = SimilaritySearch::new(&store);
    let filters = SearchFilters { tags: vec!["rust".to_string()], ..Default::default() };
    let results = search.search_filtered(&query, 10, &filters).unwrap();
    assert_eq!(results.len(), 1);
    assert_eq!(results[0].pattern_id, p1.id);
}

#[test]
fn test_dot_product_fallback() {
    let a = vec![1_000_000i64, 2_000_000, 3_000_000];
    let b = vec![4_000_000i64, 5_000_000, 6_000_000];
    let result = dot_product_fallback(&a, &b);
    assert_eq!(result, 32_000_000_000_000i128);
}

#[test]
fn test_dot_product_paths_agree() {
    // A mixed-sign, non-multiple-of-four length exercises both the lane loop
    // and the scalar tail of the accelerated path.
    let mut a: Vec<i64> = Vec::new();
    let mut b: Vec<i64> = Vec::new();
    let mut x: i64 = -987_654;
    for i in 0..77i64 {
        a.push(x);
        b.push(1_000_000 - 13_337 * i);
        x = -x + 31_415 + i;
    }
    assert_eq!(dot_product_simd(&a, &b), dot_product_fallback(&a, &b));
}

#[test]
fn test_l2_norm() {
    let v = vec![3_000_000i64, 4_000_000];
    let norm = l2_norm(&v);
    assert_eq!(norm, 5_000_000);
}
