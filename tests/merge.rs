use quantum_vcs::{ChangeType, ConflictStrategy, FileChange, QuantumCommit, TemporalMergeError, TemporalMerger};

fn change(path: &str, delta: &[u8], mappings: Vec<(usize, usize)>) -> FileChange {
    FileChange {
        path: path.to_string(),
        operation: ChangeType::Modify,
        content_delta: delta.to_vec(),
        line_mappings: mappings,
    }
}

fn commit(id: u64, changes: Vec<FileChange>) -> QuantumCommit {
    QuantumCommit {
        id,
        content_hash: String::new(),
        superposition_states: vec![("main".to_string(), 1_000_000)],
        entangled_commits: vec![],
        collapsed: true,
        timestamp: 0,
        changes,
    }
}

#[test]
fn time_weighted_takes_last_change() {
    let merger = TemporalMerger::new();
    let x = commit(0, vec![change("f", b"x", vec![(1, 1)])]);
    let y = commit(1, vec![change("f", b"y", vec![(2, 2)])]);
    let out = merger.merge_temporal_branches(&[x, y], "main").unwrap();
    assert_eq!(out.len(), 1);
    assert_eq!(out[0].path, "f");
    assert_eq!(out[0].content_delta, b"y".to_vec());
    assert_eq!(out[0].line_mappings, vec![(2, 2)]);
}

#[test]
fn probability_weighted_takes_first_change() {
    let mut merger = TemporalMerger::new();
    merger.set_strategy("f".to_string(), ConflictStrategy::ProbabilityWeighted);
    let x = commit(0, vec![change("f", b"x", vec![])]);
    let y = commit(1, vec![change("f", b"y", vec![])]);
    let out = merger.merge_temporal_branches(&[x, y], "main").unwrap();
    assert_eq!(out[0].content_delta, b"x".to_vec());
}

#[test]
fn manual_review_stops_merge() {
    let mut merger = TemporalMerger::new();
    merger.set_strategy("f".to_string(), ConflictStrategy::ManualReview);
    let x = commit(0, vec![change("e", b"0", vec![]), change("f", b"x", vec![])]);
    let y = commit(1, vec![change("f", b"y", vec![])]);
    let r = merger.merge_temporal_branches(&[x, y], "main");
    assert!(matches!(r, Err(TemporalMergeError::ManualReviewRequired(ref p)) if p == "f"));
}

#[test]
fn semantic_merge_unites_sorted_mappings() {
    let mut merger = TemporalMerger::new();
    merger.set_strategy("f".to_string(), ConflictStrategy::AIResolution("model".to_string()));
    let x = commit(0, vec![change("f", b"ab", vec![(1, 1), (2, 2)])]);
    let y = commit(1, vec![change("f", b"cd", vec![(2, 2), (3, 3)])]);
    let out = merger.merge_temporal_branches(&[x, y], "main").unwrap();
    assert_eq!(out[0].line_mappings, vec![(1, 1), (2, 2), (3, 3)]);
    assert_eq!(out[0].content_delta, b"abcd".to_vec());
    assert_eq!(out[0].path, "f");
}

#[test]
fn line_mapping_merge_sorts_and_dedups() {
    let merger = TemporalMerger::new();
    let a = change("f", b"", vec![(3, 3), (1, 1), (2, 2), (1, 1)]);
    let b = change("f", b"", vec![(2, 2), (0, 5)]);
    assert_eq!(merger.merge_line_mappings(&vec![&a, &b]), vec![(0, 5), (1, 1), (2, 2), (3, 3)]);
}

#[test]
fn one_change_per_path_in_first_appearance_order() {
    let merger = TemporalMerger::new();
    let x = commit(0, vec![change("b", b"1", vec![]), change("a", b"2", vec![])]);
    let y = commit(1, vec![change("a", b"3", vec![]), change("c", b"4", vec![])]);
    let out = merger.merge_temporal_branches(&[x, y], "main").unwrap();
    let paths: Vec<&str> = out.iter().map(|c| c.path.as_str()).collect();
    assert_eq!(paths, vec!["b", "a", "c"]);
    assert_eq!(out[1].content_delta, b"3".to_vec());
}

#[test]
fn later_override_replaces_earlier() {
    let mut merger = TemporalMerger::new();
    merger.set_strategy("f".to_string(), ConflictStrategy::ManualReview);
    merger.set_strategy("f".to_string(), ConflictStrategy::TimeWeighted);
    assert!(matches!(merger.strategy_for(&"f".to_string()), ConflictStrategy::TimeWeighted));
    assert!(matches!(merger.strategy_for(&"g".to_string()), ConflictStrategy::TimeWeighted));
}

#[test]
fn empty_merge_yields_nothing() {
    let merger = TemporalMerger::new();
    let out = merger.merge_temporal_branches(&[], "main").unwrap();
    assert!(out.is_empty());
}

#[test]
fn resolve_conflict_follows_each_strategy() {
    let merger = TemporalMerger::new();
    let a = change("f", b"a", vec![(1, 1)]);
    let b = change("f", b"b", vec![(0, 0)]);
    let both = vec![&a, &b];
    let last = merger.resolve_conflict(&both, &ConflictStrategy::TimeWeighted, "main").unwrap();
    assert_eq!(last.content_delta, b"b".to_vec());
    let first = merger.resolve_conflict(&both, &ConflictStrategy::ProbabilityWeighted, "main").unwrap();
    assert_eq!(first.content_delta, b"a".to_vec());
    let manual = merger.resolve_conflict(&both, &ConflictStrategy::ManualReview, "main");
    assert!(matches!(manual, Err(TemporalMergeError::ManualReviewRequired(ref p)) if p == "f"));
}

#[test]
fn semantic_merge_keeps_first_operation() {
    let merger = TemporalMerger::new();
    let a = FileChange {
        path: "f".to_string(),
        operation: ChangeType::Move("g".to_string()),
        content_delta: b"1".to_vec(),
        line_mappings: vec![(4, 4)],
    };
    let b = change("f", b"2", vec![(4, 4), (1, 9)]);
    let merged = merger.ai_semantic_merge(&vec![&a, &b]).unwrap();
    assert!(matches!(merged.operation, ChangeType::Move(ref p) if p == "g"));
    assert_eq!(merged.content_delta, b"12".to_vec());
    assert_eq!(merged.line_mappings, vec![(1, 9), (4, 4)]);
}
