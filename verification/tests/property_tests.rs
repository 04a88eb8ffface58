use treemerge::cli::parse_path;
use treemerge::merge::three_way_merge;
use treemerge::merge::three_way_merge_with_diagnostics;
use treemerge::merge::ConflictKind;
use treemerge::tree::Tree;

fn leaf(s: &str) -> Tree {
    Tree::Leaf(s.to_string())
}

fn obj(entries: Vec<(&str, Tree)>) -> Tree {
    Tree::Object(entries.into_iter().map(|(k, v)| (k.to_string(), v)).collect())
}

#[test]
fn test_scenario_key_added_next_to_unchanged() {
    let base = obj(vec![("f", leaf("1"))]);
    let a = obj(vec![("f", leaf("1")), ("g", leaf("2"))]);
    let b = obj(vec![("f", leaf("1"))]);
    let expected = obj(vec![("f", leaf("1")), ("g", leaf("2"))]);
    let (merged, conflict) = three_way_merge(&base, &a, &b);
    assert!(merged.tree_eq(&expected));
    assert_eq!(conflict, false);
}

#[test]
fn test_scenario_both_modify_same_key() {
    let base = obj(vec![("f", leaf("1"))]);
    let a = obj(vec![("f", leaf("A"))]);
    let b = obj(vec![("f", leaf("B"))]);
    let expected = obj(vec![("f", leaf("A"))]);
    let (merged, conflict) = three_way_merge(&base, &a, &b);
    assert!(merged.tree_eq(&expected));
    assert_eq!(conflict, true);
}

#[test]
fn test_scenario_both_delete_same_key() {
    let base = obj(vec![("f", leaf("1")), ("g", leaf("2"))]);
    let a = obj(vec![("f", leaf("1"))]);
    let b = obj(vec![("f", leaf("1"))]);
    let expected = obj(vec![("f", leaf("1"))]);
    let (merged, conflict) = three_way_merge(&base, &a, &b);
    assert!(merged.tree_eq(&expected));
    assert_eq!(conflict, false);
}

#[test]
fn test_scenario_nested_both_modify() {
    let base = obj(vec![("d", obj(vec![("f", leaf("1"))]))]);
    let a = obj(vec![("d", obj(vec![("f", leaf("A"))]))]);
    let b = obj(vec![("d", obj(vec![("f", leaf("B"))]))]);
    let expected = obj(vec![("d", obj(vec![("f", leaf("A"))]))]);
    let (merged, conflict) = three_way_merge(&base, &a, &b);
    assert!(merged.tree_eq(&expected));
    assert_eq!(conflict, true);
}

#[test]
fn test_scenario_modify_against_delete() {
    let base = obj(vec![("f", leaf("1"))]);
    let a = obj(vec![("f", leaf("A"))]);
    let b = obj(vec![]);
    let expected = obj(vec![("f", leaf("A"))]);
    let (merged, conflict) = three_way_merge(&base, &a, &b);
    assert!(merged.tree_eq(&expected));
    assert_eq!(conflict, true);
}

#[test]
fn test_scenario_both_add_same_value() {
    let base = obj(vec![]);
    let a = obj(vec![("g", leaf("X"))]);
    let b = obj(vec![("g", leaf("X"))]);
    let expected = obj(vec![("g", leaf("X"))]);
    let (merged, conflict) = three_way_merge(&base, &a, &b);
    assert!(merged.tree_eq(&expected));
    assert_eq!(conflict, false);
}

#[test]
fn test_identity_on_leaf() {
    let t = leaf("payload");
    let (merged, conflict) = three_way_merge(&t, &t, &t);
    assert!(merged.tree_eq(&t));
    assert_eq!(conflict, false);
}

#[test]
fn test_unchanged_branch_a_takes_b_entirely() {
    // a == base, so the merge is exactly b, even at the root shape
    let base = obj(vec![("f", leaf("1"))]);
    let a = base.duplicate();
    let b = leaf("now-a-scalar");
    let (merged, conflict) = three_way_merge(&base, &a, &b);
    assert!(merged.tree_eq(&b));
    assert_eq!(conflict, false);
}

#[test]
fn test_unchanged_branch_b_takes_a_entirely() {
    let base = obj(vec![("f", leaf("1"))]);
    let b = base.duplicate();
    let a = leaf("now-a-scalar");
    let (merged, conflict) = three_way_merge(&base, &a, &b);
    assert!(merged.tree_eq(&a));
    assert_eq!(conflict, false);
}

#[test]
fn test_root_shape_conflict_keeps_branch_a() {
    // object vs scalar vs scalar, all three pairwise different
    let base = obj(vec![("f", leaf("1"))]);
    let a = leaf("A");
    let b = leaf("B");
    let (merged, conflict) = three_way_merge(&base, &a, &b);
    assert!(merged.tree_eq(&a));
    assert_eq!(conflict, true);
}

#[test]
fn test_diagnostic_modified_both_with_path() {
    let base = obj(vec![("dir1", obj(vec![("file1.txt", leaf("id1"))]))]);
    let a = obj(vec![("dir1", obj(vec![("file1.txt", leaf("id1-a"))]))]);
    let b = obj(vec![("dir1", obj(vec![("file1.txt", leaf("id1-b"))]))]);
    let (_, conflict, diags) = three_way_merge_with_diagnostics(&base, &a, &b);
    assert_eq!(conflict, true);
    assert_eq!(diags.len(), 1);
    assert_eq!(diags[0].path, "dir1/file1.txt");
    assert!(diags[0].kind == ConflictKind::ModifiedBoth);
}

#[test]
fn test_diagnostic_added_both() {
    let base = obj(vec![]);
    let a = obj(vec![("g", leaf("X"))]);
    let b = obj(vec![("g", leaf("Y"))]);
    let (_, conflict, diags) = three_way_merge_with_diagnostics(&base, &a, &b);
    assert_eq!(conflict, true);
    assert_eq!(diags.len(), 1);
    assert_eq!(diags[0].path, "g");
    assert!(diags[0].kind == ConflictKind::AddedBoth);
}

#[test]
fn test_diagnostic_modified_vs_deleted() {
    let base = obj(vec![("f", leaf("1"))]);
    let a = obj(vec![]);
    let b = obj(vec![("f", leaf("B"))]);
    let (merged, conflict, diags) = three_way_merge_with_diagnostics(&base, &a, &b);
    assert!(merged.tree_eq(&obj(vec![("f", leaf("B"))])));
    assert_eq!(conflict, true);
    assert_eq!(diags.len(), 1);
    assert_eq!(diags[0].path, "f");
    assert!(diags[0].kind == ConflictKind::ModifiedVsDeleted);
}

#[test]
fn test_diagnostic_at_root_has_empty_path() {
    let base = leaf("1");
    let a = leaf("A");
    let b = leaf("B");
    let (merged, conflict, diags) = three_way_merge_with_diagnostics(&base, &a, &b);
    assert!(merged.tree_eq(&a));
    assert_eq!(conflict, true);
    assert_eq!(diags.len(), 1);
    assert_eq!(diags[0].path, "");
    assert!(diags[0].kind == ConflictKind::ModifiedBoth);
}

#[test]
fn test_no_diagnostics_without_conflict() {
    let base = obj(vec![("f", leaf("1"))]);
    let a = obj(vec![("f", leaf("2"))]);
    let b = obj(vec![("f", leaf("1"))]);
    let (_, conflict, diags) = three_way_merge_with_diagnostics(&base, &a, &b);
    assert_eq!(conflict, false);
    assert_eq!(diags.len(), 0);
}

#[test]
fn test_tree_eq_ignores_nothing() {
    let x = obj(vec![("f", leaf("1")), ("g", leaf("2"))]);
    let y = obj(vec![("f", leaf("1")), ("g", leaf("2"))]);
    let z = obj(vec![("f", leaf("1")), ("g", leaf("3"))]);
    assert!(x.tree_eq(&y));
    assert!(!x.tree_eq(&z));
    assert!(!x.tree_eq(&leaf("1")));
}

#[test]
fn test_duplicate_is_deep_and_equal() {
    let x = obj(vec![("d", obj(vec![("f", leaf("1"))])), ("g", leaf("2"))]);
    let y = x.duplicate();
    assert!(x.tree_eq(&y));
}

#[test]
fn test_is_object() {
    assert!(obj(vec![]).is_object());
    assert!(!leaf("1").is_object());
}

#[test]
fn test_parse_path_accepts_existing() {
    let r = parse_path("base.json", true);
    assert_eq!(r, Ok("base.json".to_string()));
}

#[test]
fn test_parse_path_rejects_missing() {
    let r = parse_path("no-such-file.json", false);
    assert_eq!(r, Err("File 'no-such-file.json' does not exist".to_string()));
}

#[test]
fn test_added_keys_interleave_in_key_order() {
    // keys added on different sides come out in sorted key order
    let base = obj(vec![("b", leaf("1")), ("d", leaf("2"))]);
    let a = obj(vec![("a", leaf("A")), ("b", leaf("1")), ("d", leaf("2")), ("e", leaf("E"))]);
    let b = obj(vec![("b", leaf("1")), ("c", leaf("C")), ("d", leaf("2"))]);
    let expected = obj(vec![
        ("a", leaf("A")),
        ("b", leaf("1")),
        ("c", leaf("C")),
        ("d", leaf("2")),
        ("e", leaf("E")),
    ]);
    let (merged, conflict) = three_way_merge(&base, &a, &b);
    assert!(merged.tree_eq(&expected));
    assert_eq!(conflict, false);
}
