use quantum_vcs::quantum_state::{calculate_entanglement_strength, calculate_line_overlap, sum_probabilities};
use quantum_vcs::{ChangeType, FileChange, QuantumError, QuantumRepository};

fn change(path: &str, delta: &[u8], mappings: Vec<(usize, usize)>) -> FileChange {
    FileChange {
        path: path.to_string(),
        operation: ChangeType::Modify,
        content_delta: delta.to_vec(),
        line_mappings: mappings,
    }
}

fn probs(entries: &[(&str, u64)]) -> Vec<(String, u64)> {
    entries.iter().map(|(b, p)| (b.to_string(), *p)).collect()
}

#[test]
fn register_accepts_total_within_tolerance() {
    let mut repo = QuantumRepository::new();
    let a = repo.commit_superposition(vec![change("a.txt", b"x", vec![])], probs(&[("main", 600_000), ("dev", 400_000)]));
    assert!(matches!(a, Ok(0)));
    let b = repo.commit_superposition(vec![change("b.txt", b"y", vec![])], probs(&[("main", 999_000)]));
    assert!(matches!(b, Ok(1)));
    let c = repo.commit_superposition(vec![change("c.txt", b"z", vec![])], probs(&[("main", 1_001_000)]));
    assert!(matches!(c, Ok(2)));
    assert_eq!(repo.commit_count(), 3);
}

#[test]
fn register_rejects_total_outside_tolerance() {
    let mut repo = QuantumRepository::new();
    let r = repo.commit_superposition(vec![change("a.txt", b"x", vec![])], probs(&[("main", 500_000), ("dev", 498_999)]));
    assert!(matches!(r, Err(QuantumError::InvalidProbabilityDistribution(998_999))));
    let r = repo.commit_superposition(vec![change("a.txt", b"x", vec![])], probs(&[("main", 1_001_001)]));
    assert!(matches!(r, Err(QuantumError::InvalidProbabilityDistribution(1_001_001))));
    assert_eq!(repo.commit_count(), 0);
}

#[test]
fn probability_sum_is_exact() {
    assert_eq!(sum_probabilities(&probs(&[("a", 1), ("b", 2), ("c", 3)])), 6);
    assert_eq!(sum_probabilities(&probs(&[])), 0);
}

#[test]
fn same_changes_hash_identically() {
    let mut repo = QuantumRepository::new();
    let changes = || vec![change("f", b"hello", vec![(1, 1)]), change("g", b"world", vec![])];
    repo.commit_superposition(changes(), probs(&[("main", 1_000_000)])).unwrap();
    repo.commit_superposition(changes(), probs(&[("main", 300_000), ("dev", 700_000)])).unwrap();
    let h0 = repo.commit(0).unwrap().content_hash.clone();
    let h1 = repo.commit(1).unwrap().content_hash.clone();
    assert_eq!(h0, h1);
    assert_eq!(h0.len(), 64);
}

#[test]
fn content_hash_is_sha3_of_paths_and_payloads() {
    let repo = QuantumRepository::new();
    assert_eq!(
        repo.calculate_content_hash(&vec![]),
        "a7ffc6f8bf1ed76651c14756a061d662f580ff4de43b49fa82d80a4b80f8434a"
    );
    assert_eq!(
        repo.calculate_content_hash(&vec![change("ab", b"c", vec![])]),
        "3a985da74fe225b2045c172d6bd390bd855f086e3e9d525b46bfe24511431532"
    );
    assert_eq!(
        repo.calculate_content_hash(&vec![change("a", b"", vec![]), change("b", b"c", vec![])]),
        "3a985da74fe225b2045c172d6bd390bd855f086e3e9d525b46bfe24511431532"
    );
}

#[test]
fn shared_path_entangles_commits() {
    let mut repo = QuantumRepository::new();
    repo.commit_superposition(vec![change("a.txt", b"1", vec![(1, 1), (2, 2)])], probs(&[("main", 1_000_000)]))
        .unwrap();
    repo.commit_superposition(vec![change("a.txt", b"2", vec![(2, 2), (3, 3)])], probs(&[("main", 1_000_000)]))
        .unwrap();
    assert_eq!(repo.commit(1).unwrap().entangled_commits, vec![0]);
    assert_eq!(repo.edge_count(), 1);
}

#[test]
fn disjoint_paths_add_no_edges() {
    let mut repo = QuantumRepository::new();
    repo.commit_superposition(vec![change("a.txt", b"1", vec![])], probs(&[("main", 1_000_000)])).unwrap();
    repo.commit_superposition(vec![change("b.txt", b"2", vec![])], probs(&[("main", 1_000_000)])).unwrap();
    assert!(repo.commit(1).unwrap().entangled_commits.is_empty());
    assert_eq!(repo.edge_count(), 0);
}

#[test]
fn line_overlap_is_jaccard_in_millionths() {
    assert_eq!(calculate_line_overlap(&vec![(1, 1), (2, 2)], &vec![(2, 2), (3, 3)]), 333_333);
    assert_eq!(calculate_line_overlap(&vec![(1, 1), (1, 1)], &vec![(1, 1)]), 1_000_000);
    assert_eq!(calculate_line_overlap(&vec![], &vec![]), 0);
    assert_eq!(calculate_line_overlap(&vec![(1, 2)], &vec![(2, 1)]), 0);
}

#[test]
fn entanglement_strength_averages_and_caps() {
    let mine = vec![change("f", b"", vec![(1, 1)]), change("g", b"", vec![(5, 5)])];
    let other = vec![change("f", b"", vec![(1, 1)])];
    assert_eq!(calculate_entanglement_strength(&mine, &other), 500_000);
    let other_twice = vec![change("f", b"", vec![(1, 1)]), change("f", b"", vec![(1, 1)]), change("f", b"", vec![(1, 1)])];
    assert_eq!(calculate_entanglement_strength(&mine, &other_twice), 1_000_000);
}

#[test]
fn observation_collapses_and_dampens_entangled() {
    let mut repo = QuantumRepository::new();
    repo.commit_superposition(vec![change("f", b"a", vec![])], probs(&[("main", 600_000), ("dev", 400_000)]))
        .unwrap();
    repo.commit_superposition(vec![change("f", b"b", vec![])], probs(&[("main", 500_000), ("dev", 500_000)]))
        .unwrap();
    let head = repo.observe_branch_with_draws("main", &vec![0, 999_999]);
    assert!(matches!(head, Ok(0)));
    let a = repo.commit(0).unwrap();
    assert!(a.collapsed);
    assert_eq!(a.superposition_states, probs(&[("main", 600_000)]));
    let b = repo.commit(1).unwrap();
    assert!(!b.collapsed);
    assert_eq!(b.superposition_states, probs(&[("main", 400_000), ("dev", 400_000)]));
    assert_eq!(repo.branch_head("main"), Some(0));
}

#[test]
fn dampening_compounds_per_collapsed_source() {
    let mut repo = QuantumRepository::new();
    repo.commit_superposition(vec![change("f", b"a", vec![])], probs(&[("main", 1_000_000)])).unwrap();
    repo.commit_superposition(vec![change("f", b"b", vec![])], probs(&[("main", 1_000_000)])).unwrap();
    repo.commit_superposition(vec![change("f", b"c", vec![])], probs(&[("dev", 1_000_000)])).unwrap();
    let head = repo.observe_branch_with_draws("main", &vec![0, 0, 0]);
    assert!(matches!(head, Ok(1)));
    let c = repo.commit(2).unwrap();
    assert_eq!(c.superposition_states, probs(&[("dev", 640_000)]));
}

#[test]
fn unknown_branch_is_not_found() {
    let mut repo = QuantumRepository::new();
    repo.commit_superposition(vec![change("f", b"a", vec![])], probs(&[("main", 1_000_000)])).unwrap();
    let r = repo.observe_branch("release");
    assert!(matches!(r, Err(QuantumError::BranchNotFound(ref b)) if b == "release"));
    assert!(!repo.commit(0).unwrap().collapsed);
}

#[test]
fn failed_draws_leave_branch_without_head() {
    let mut repo = QuantumRepository::new();
    repo.commit_superposition(vec![change("f", b"a", vec![])], probs(&[("main", 100_000), ("dev", 900_000)]))
        .unwrap();
    let r = repo.observe_branch_with_draws("main", &vec![100_000]);
    assert!(matches!(r, Err(QuantumError::BranchNotFound(_))));
    assert!(!repo.commit(0).unwrap().collapsed);
}

#[test]
fn certain_branch_always_collapses() {
    let mut repo = QuantumRepository::new();
    repo.commit_superposition(vec![change("f", b"a", vec![])], probs(&[("main", 1_000_000)])).unwrap();
    assert!(matches!(repo.observe_branch("main"), Ok(0)));
    assert!(repo.commit(0).unwrap().collapsed);
    assert!(matches!(repo.observe_branch("main"), Ok(0)));
}

#[test]
fn graph_nodes_stand_for_commit_ids() {
    let mut repo = QuantumRepository::new();
    repo.commit_superposition(vec![change("f", b"a", vec![])], probs(&[("main", 1_000_000)])).unwrap();
    repo.commit_superposition(vec![change("g", b"b", vec![])], probs(&[("main", 1_000_000)])).unwrap();
    assert_eq!(repo.find_node_by_commit(1), Some(1));
    assert_eq!(repo.find_node_by_commit(2), None);
}

#[test]
fn collapsed_commits_do_not_entangle() {
    let mut repo = QuantumRepository::new();
    repo.commit_superposition(vec![change("f", b"a", vec![])], probs(&[("main", 1_000_000)])).unwrap();
    repo.observe_branch_with_draws("main", &vec![0]).unwrap();
    repo.commit_superposition(vec![change("f", b"b", vec![])], probs(&[("main", 1_000_000)])).unwrap();
    assert!(repo.commit(1).unwrap().entangled_commits.is_empty());
    assert_eq!(repo.edge_count(), 0);
    let candidates = repo.calculate_entanglements(&vec![change("f", b"c", vec![])]);
    assert_eq!(candidates, vec![1]);
}
