use temporal_ai::observability_aggregator::pattern_metrics_from_counts;
use temporal_ai::pattern_extractor::{
    extract_from_commit_info, extract_language_tags, is_automated_commit, parse_commit_message,
    CommitInfo, Pattern,
};

#[test]
fn test_parse_conventional_commit() {
    let (typ, desc) = parse_commit_message("feat(auth): add JWT validation");
    assert_eq!(typ, "feat");
    assert_eq!(desc, "add JWT validation");

    let (typ, desc) = parse_commit_message("fix: resolve memory leak");
    assert_eq!(typ, "fix");
    assert_eq!(desc, "resolve memory leak");
}

#[test]
fn test_parse_falls_back_to_chore() {
    let (typ, desc) = parse_commit_message("update stuff\nmore lines");
    assert_eq!(typ, "chore");
    assert_eq!(desc, "update stuff");

    // An empty subject is not a conventional commit.
    let (typ, desc) = parse_commit_message("feat: ");
    assert_eq!(typ, "chore");
    assert_eq!(desc, "feat: ");
}

#[test]
fn test_automated_commit_detection() {
    assert!(is_automated_commit("Merge pull request #123"));
    assert!(is_automated_commit("Version bump to 1.2.3"));
    assert!(!is_automated_commit("feat: add new feature"));
}

#[test]
fn test_language_tag_extraction() {
    let paths = vec![
        "src/main.rs".to_string(),
        "app/api.py".to_string(),
        "components/Button.tsx".to_string(),
    ];

    let tags = extract_language_tags(&paths);
    assert!(tags.contains(&"rust".to_string()));
    assert!(tags.contains(&"python".to_string()));
    assert!(tags.contains(&"typescript".to_string()));
    assert!(tags.contains(&"react".to_string()));
}

#[test]
fn test_extract_from_commit() {
    let info = CommitInfo {
        sha: "abc123".to_string(),
        message: "feat(auth): add JWT validation".to_string(),
        timestamp: 1_700_000_000,
        parent_count: 1,
        file_paths: vec!["src/auth.rs".to_string(), "src/auth.rs".to_string()],
    };
    let pattern = extract_from_commit_info(&info).unwrap();
    assert_eq!(pattern.description, "add JWT validation");
    assert_eq!(pattern.commit_sha, "abc123");
    assert_eq!(pattern.timestamp, 1_700_000_000);
    assert_eq!(pattern.tags[0], "feat");
    assert!(pattern.tags.contains(&"rust".to_string()));
    assert_eq!(pattern.file_paths, vec!["src/auth.rs".to_string()]);

    // The id is stable: the same commit and description hash the same way.
    let again = extract_from_commit_info(&info).unwrap();
    assert_eq!(pattern.id, again.id);

    // Automated commits are excluded.
    let merge = CommitInfo {
        sha: "def".to_string(),
        message: "Merge pull request #123".to_string(),
        timestamp: 1,
        parent_count: 2,
        file_paths: vec!["a.rs".to_string()],
    };
    assert!(extract_from_commit_info(&merge).is_none());

    // Commits with no changed files are excluded.
    let empty = CommitInfo {
        sha: "eee".to_string(),
        message: "fix: nothing".to_string(),
        timestamp: 1,
        parent_count: 1,
        file_paths: vec![],
    };
    assert!(extract_from_commit_info(&empty).is_none());
}

#[test]
fn test_generate_id_known_digest() {
    // SHA-256 of the empty string, in hex.
    let id = Pattern::generate_id("", "");
    assert_eq!(id, "e3b0c44298fc1c149afbf4c8996fb92427ae41e4649b934ca495991b7852b855");
    // The digest depends on the content, not the argument split alone.
    let id2 = Pattern::generate_id("abc", "");
    let id3 = Pattern::generate_id("", "abc");
    assert_eq!(id2, id3);
    assert_ne!(id, id2);
    assert_eq!(id2, "ba7816bf8f01cfea414140de5dae2223b00361a396177a9cb410ff61f20015ad");
}

#[test]
fn test_pattern_metrics_from_counts() {
    let m = pattern_metrics_from_counts("abc123".to_string(), 45_200_000, 2, 100);
    assert_eq!(m.pattern_id, "abc123");
    assert_eq!(m.recommendation_count, 100);
    assert_eq!(m.error_rate, 20_000);
    assert_eq!(m.success_rate, 980_000);

    let none = pattern_metrics_from_counts("x".to_string(), 0, 0, 0);
    assert_eq!(none.error_rate, 0);
    assert_eq!(none.success_rate, 1_000_000);
}
