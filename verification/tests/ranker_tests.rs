use temporal_ai::pattern_extractor::Pattern;
use temporal_ai::ranker::RecommendationRanker;
use temporal_ai::schema::PerformanceMetrics;
use temporal_ai::similarity::SimilarityResult;
use temporal_ai::vector_store::VectorStore;
use temporal_ai::SCALE;

fn create_test_pattern(id: &str, timestamp: i64) -> Pattern {
    Pattern {
        id: id.to_string(),
        description: format!("Test pattern {}", id),
        file_paths: vec![format!("src/{}.rs", id)],
        commit_sha: format!("abcdef{}", id),
        timestamp,
        tags: vec!["rust".to_string()],
    }
}

fn create_similarity_result(pattern: Pattern, score: i64) -> SimilarityResult {
    SimilarityResult { pattern_id: pattern.id.clone(), score, pattern }
}

fn now_seconds() -> i64 {
    chrono::Utc::now().timestamp()
}

#[test]
fn test_ranker_scoring() {
    let dir = tempfile::tempdir().unwrap();
    let db_path = dir.path().join("test.redb");
    let mut store = VectorStore::open(db_path.to_str().unwrap()).unwrap();

    let now = now_seconds();

    let pattern1 = create_test_pattern("1", now - 86400);
    store.insert(&pattern1, vec![900_000i64; 768]).unwrap();

    let pattern2 = create_test_pattern("2", now - 86400 * 30);
    store.insert(&pattern2, vec![700_000i64; 768]).unwrap();
    let mut metrics2 = PerformanceMetrics::new();
    for _ in 0..50 {
        metrics2.record_recommendation(800_000, None);
    }
    store.update_metrics(&pattern2.id, metrics2).unwrap();

    let results = vec![
        create_similarity_result(pattern1.clone(), 900_000),
        create_similarity_result(pattern2.clone(), 700_000),
    ];

    let ranker = RecommendationRanker::new(&store);
    let recommendations = ranker.rank(results).unwrap();

    assert_eq!(recommendations.len(), 2);

    for rec in &recommendations {
        assert!(rec.similarity_score >= 0 && rec.similarity_score <= SCALE);
        assert!(rec.recency_score >= 0 && rec.recency_score <= SCALE);
        assert!(rec.usage_score >= 0 && rec.usage_score <= SCALE);
        assert!(rec.final_score >= 0 && rec.final_score <= SCALE);
    }
}

#[test]
fn test_custom_weights() {
    let dir = tempfile::tempdir().unwrap();
    let db_path = dir.path().join("test.redb");
    let store = VectorStore::open(db_path.to_str().unwrap()).unwrap();

    let ranker = RecommendationRanker::with_weights(&store, 100_000, 100_000, 700_000, 100_000);

    assert!((ranker.similarity_weight as i64 - 700_000).abs() < 1000);
    assert!((ranker.recency_weight as i64 - 100_000).abs() < 1000);
    assert!((ranker.usage_weight as i64 - 100_000).abs() < 1000);
    assert!((ranker.success_rate_weight as i64 - 100_000).abs() < 1000);
}

#[test]
fn test_explanation_generation() {
    let dir = tempfile::tempdir().unwrap();
    let db_path = dir.path().join("test.redb");
    let store = VectorStore::open(db_path.to_str().unwrap()).unwrap();
    let ranker = RecommendationRanker::new(&store);

    let pattern = create_test_pattern("1", now_seconds() - 86400);
    let explanation = ranker.generate_explanation(&pattern, 850_000, 1, 42, 950_000);

    assert!(explanation.contains("abcdef1"));
    assert!(explanation.contains("rust"));
    assert!(explanation.contains("Test pattern 1"));
    assert!(explanation.contains("85"));
    assert!(explanation.contains("1 day ago"));
    assert!(explanation.contains("42 times"));
    assert!(explanation.contains("95.0%"));
}

#[test]
fn test_weight_normalization() {
    let dir = tempfile::tempdir().unwrap();
    let db_path = dir.path().join("test.redb");
    let store = VectorStore::open(db_path.to_str().unwrap()).unwrap();

    let ranker = RecommendationRanker::with_weights(&store, 2_000_000, 3_000_000, 4_000_000, 1_000_000);

    let total = ranker.recency_weight + ranker.usage_weight + ranker.similarity_weight
        + ranker.success_rate_weight;
    assert!((total as i64 - SCALE).abs() < 1000);
}

#[test]
fn test_zero_weights_fall_back_to_uniform() {
    let dir = tempfile::tempdir().unwrap();
    let db_path = dir.path().join("test.redb");
    let store = VectorStore::open(db_path.to_str().unwrap()).unwrap();

    let ranker = RecommendationRanker::with_weights(&store, 0, 0, 0, 0);
    assert_eq!(ranker.recency_weight, 250_000);
    assert_eq!(ranker.usage_weight, 250_000);
    assert_eq!(ranker.similarity_weight, 250_000);
    assert_eq!(ranker.success_rate_weight, 250_000);
}

#[test]
fn test_rank_sorts_and_degrades_gracefully() {
    let dir = tempfile::tempdir().unwrap();
    let db_path = dir.path().join("test.redb");
    let store = VectorStore::open(db_path.to_str().unwrap()).unwrap();

    // No metrics stored at all: ranking must not fail and the usage signal
    // defaults to zero while success defaults to neutral.
    let now = now_seconds();
    let results = vec![
        create_similarity_result(create_test_pattern("old", now - 86400 * 400), 200_000),
        create_similarity_result(create_test_pattern("new", now - 10), 900_000),
    ];
    let ranker = RecommendationRanker::new(&store);
    let recs = ranker.rank(results).unwrap();
    assert_eq!(recs.len(), 2);
    assert!(recs[0].final_score >= recs[1].final_score);
    assert_eq!(recs[0].pattern.id, "new");
    assert_eq!(recs[0].usage_score, 0);
}
