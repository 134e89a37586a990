use react_compiler_rust::hir::reactive_scopes::merge_scopes;
use react_compiler_rust::hir::scope::{ReactiveScope, ScopeId};

#[test]
fn test_merge_overlapping_scopes() {
    let scopes = vec![
        ReactiveScope { id: ScopeId(0), range: (0, 5), dependencies: vec![], declarations: vec![] },
        ReactiveScope { id: ScopeId(1), range: (3, 8), dependencies: vec![], declarations: vec![] },
        ReactiveScope { id: ScopeId(2), range: (10, 15), dependencies: vec![], declarations: vec![] },
    ];

    let merged = merge_scopes(scopes);

    assert_eq!(merged.len(), 2);
    assert_eq!(merged[0].range, (0, 8)); // First two merged
    assert_eq!(merged[1].range, (10, 15)); // Third unchanged
}
