use temporal_ai::schema::{EmbeddingRecord, PerformanceMetrics};
use temporal_ai::{EMBEDDING_DIM, SCALE};

fn create_test_vector() -> Vec<i64> {
    let mut vec = vec![0i64; EMBEDDING_DIM];
    vec[0] = 3_000_000;
    vec[1] = 4_000_000;
    vec
}

#[test]
fn test_embedding_dimension() {
    assert_eq!(EMBEDDING_DIM, 768);
}

#[test]
fn test_embedding_record_norm() {
    let vector = create_test_vector();
    let record = EmbeddingRecord::new(vector);
    assert!((record.norm - 5_000_000).abs() < 1000);
}

#[test]
fn test_embedding_record_normalized() {
    let vector = create_test_vector();
    let record = EmbeddingRecord::new(vector);
    let normalized = record.normalized();
    assert!((normalized[0] - 600_000).abs() < 1000);
    assert!((normalized[1] - 800_000).abs() < 1000);
}

#[test]
fn test_performance_metrics_update() {
    let mut metrics = PerformanceMetrics::new();

    metrics.record_recommendation(800_000, Some(1));
    assert_eq!(metrics.usage_count, 1);
    assert!((metrics.avg_relevance_score - 800_000).abs() < 1000);

    metrics.record_recommendation(600_000, Some(-1));
    assert_eq!(metrics.usage_count, 2);
    assert!((metrics.avg_relevance_score - 700_000).abs() < 1000);

    assert!((metrics.avg_feedback() - 0).abs() < 1000);
}

#[test]
fn test_avg_feedback_bounds() {
    let mut metrics = PerformanceMetrics::new();
    metrics.record_recommendation(1_000_000, Some(1));
    metrics.record_recommendation(1_000_000, Some(1));
    metrics.record_recommendation(1_000_000, Some(1));
    assert_eq!(metrics.avg_feedback(), SCALE);
    assert_eq!(metrics.usage_count, 3);
}
