use rig_memory_policy::scope::{normalize_scope, scope_matches, scope_path, Scope};

#[test]
fn normalizes_scope_segments() {
    let scope = Scope::new(" /tenant-a//project-1/ ");
    assert_eq!(scope.as_str(), "tenant-a/project-1");
    assert_eq!(scope.path(), vec!["tenant-a", "project-1"]);
}

#[test]
fn exact_match_uses_normalized_values() {
    let scope = Scope::new("tenant-a/project-1");
    assert!(scope.matches(Some("/tenant-a/project-1/")));
    assert!(!scope.matches(Some("tenant-a/project-2")));
    assert!(!scope.matches(None));
}

#[test]
fn contains_accepts_descendants_only_on_segment_boundaries() {
    let scope = Scope::new("tenant-a");
    assert!(scope.contains(Some("tenant-a")));
    assert!(scope.contains(Some("tenant-a/project-1")));
    assert!(!scope.contains(Some("tenant-ab/project-1")));
}

#[test]
fn optional_scope_matching_treats_none_as_unscoped() {
    assert!(scope_matches(None, None));
    assert!(scope_matches(None, Some("/")));
    assert!(!scope_matches(None, Some("tenant-a")));
    assert!(scope_matches(Some("tenant-a"), Some("/tenant-a/")));
}

#[test]
fn normalize_scope_trims_each_segment_and_drops_empty_ones() {
    assert_eq!(normalize_scope("  a / b  //c/ "), "a/b/c");
    assert_eq!(normalize_scope(""), "");
    assert_eq!(normalize_scope(" / // "), "");
    assert_eq!(normalize_scope("x"), "x");
}

#[test]
fn normalization_is_idempotent_on_examples() {
    for raw in [" /tenant-a//project-1/ ", "a / b", "", "///", " x\t/ y "] {
        let once = normalize_scope(raw);
        assert_eq!(normalize_scope(&once), once);
    }
}

#[test]
fn scope_path_lists_trimmed_nonempty_segments() {
    assert_eq!(scope_path(" a / b  //c/ "), vec!["a", "b", "c"]);
    assert!(scope_path(" / ").is_empty());
}

#[test]
fn empty_scope_contains_only_empty_candidates() {
    let root = Scope::new(" / ");
    assert!(root.is_empty());
    assert!(!root.contains(None));
    assert!(root.contains(Some("//")));
    assert!(!root.contains(Some("any/thing")));
    assert!(!root.matches(None));
    assert!(root.matches(Some("")));
    assert!(!Scope::new("a").is_empty());
}

#[test]
fn contains_rejects_unscoped_candidates_for_nonempty_scope() {
    let scope = Scope::new("tenant-a");
    assert!(!scope.contains(None));
    assert!(!scope.contains(Some("tenant")));
    assert!(scope.contains(Some(" tenant-a / x ")));
}

#[test]
fn scope_matches_with_required_scope_rejects_unscoped_candidate() {
    assert!(!scope_matches(Some("tenant-a"), None));
    assert!(!scope_matches(Some("/"), None));
    assert!(scope_matches(Some("/"), Some(" ")));
}

#[test]
fn scope_of_a_scope_text_is_the_same_scope() {
    let scope = Scope::new("  a / b ");
    assert_eq!(Scope::new(scope.as_str()), scope);
    assert!(scope.contains(Some(scope.as_str())));
    assert!(scope.matches(Some(scope.as_str())));
    assert_eq!(scope.clone(), scope);
}
