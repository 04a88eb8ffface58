use treemerge::merge::three_way_merge;
use treemerge::tree::Tree;

fn leaf(s: &str) -> Tree {
    Tree::Leaf(s.to_string())
}

fn obj(entries: Vec<(&str, Tree)>) -> Tree {
    Tree::Object(entries.into_iter().map(|(k, v)| (k.to_string(), v)).collect())
}

#[test]
fn test_no_changes() {
    let base = obj(vec![("file1.txt", leaf("id1")), ("file2.txt", leaf("id2"))]);
    let a = base.duplicate();
    let b = base.duplicate();

    let (merged, had_conflicts) = three_way_merge(&base, &a, &b);
    assert!(merged.tree_eq(&base));
    assert_eq!(had_conflicts, false);
}

#[test]
fn test_changes_to_different_files() {
    let base = obj(vec![("file1.txt", leaf("id1")), ("file2.txt", leaf("id2"))]);
    let a = obj(vec![("file1.txt", leaf("id1-modified")), ("file2.txt", leaf("id2"))]);
    let b = obj(vec![("file1.txt", leaf("id1")), ("file2.txt", leaf("id2-modified"))]);

    let expected = obj(vec![
        ("file1.txt", leaf("id1-modified")),
        ("file2.txt", leaf("id2-modified")),
    ]);

    let (merged, had_conflicts) = three_way_merge(&base, &a, &b);
    assert!(merged.tree_eq(&expected));
    assert_eq!(had_conflicts, false);
}

#[test]
fn test_same_changes_in_both_branches() {
    let base = obj(vec![("file1.txt", leaf("id1")), ("file2.txt", leaf("id2"))]);
    let a = obj(vec![("file1.txt", leaf("id1-same-change")), ("file2.txt", leaf("id2"))]);
    let b = obj(vec![("file1.txt", leaf("id1-same-change")), ("file2.txt", leaf("id2"))]);

    let expected = obj(vec![("file1.txt", leaf("id1-same-change")), ("file2.txt", leaf("id2"))]);

    let (merged, had_conflicts) = three_way_merge(&base, &a, &b);
    assert!(merged.tree_eq(&expected));
    assert_eq!(had_conflicts, false);
}

#[test]
fn test_conflict_in_same_file() {
    let base = obj(vec![("file1.txt", leaf("id1")), ("file2.txt", leaf("id2"))]);
    let a = obj(vec![("file1.txt", leaf("id1-a-change")), ("file2.txt", leaf("id2"))]);
    let b = obj(vec![("file1.txt", leaf("id1-b-change")), ("file2.txt", leaf("id2"))]);

    // In conflict, branch A's value is used
    let expected = obj(vec![("file1.txt", leaf("id1-a-change")), ("file2.txt", leaf("id2"))]);

    let (merged, had_conflicts) = three_way_merge(&base, &a, &b);
    assert!(merged.tree_eq(&expected));
    assert_eq!(had_conflicts, true);
}

#[test]
fn test_file_added_in_one_branch() {
    let base = obj(vec![("file1.txt", leaf("id1"))]);
    let a = obj(vec![("file1.txt", leaf("id1")), ("file2.txt", leaf("id2-new"))]);
    let b = base.duplicate();

    let expected = obj(vec![("file1.txt", leaf("id1")), ("file2.txt", leaf("id2-new"))]);

    let (merged, had_conflicts) = three_way_merge(&base, &a, &b);
    assert!(merged.tree_eq(&expected));
    assert_eq!(had_conflicts, false);
}

#[test]
fn test_file_added_in_both_branches_same_content() {
    let base = obj(vec![("file1.txt", leaf("id1"))]);
    let a = obj(vec![("file1.txt", leaf("id1")), ("file2.txt", leaf("id2-new"))]);
    let b = obj(vec![("file1.txt", leaf("id1")), ("file2.txt", leaf("id2-new"))]);

    let expected = obj(vec![("file1.txt", leaf("id1")), ("file2.txt", leaf("id2-new"))]);

    let (merged, had_conflicts) = three_way_merge(&base, &a, &b);
    assert!(merged.tree_eq(&expected));
    assert_eq!(had_conflicts, false);
}

#[test]
fn test_file_added_in_both_branches_different_content() {
    let base = obj(vec![("file1.txt", leaf("id1"))]);
    let a = obj(vec![("file1.txt", leaf("id1")), ("file2.txt", leaf("id2-new-a"))]);
    let b = obj(vec![("file1.txt", leaf("id1")), ("file2.txt", leaf("id2-new-b"))]);

    // In conflict, branch A's value is used
    let expected = obj(vec![("file1.txt", leaf("id1")), ("file2.txt", leaf("id2-new-a"))]);

    let (merged, had_conflicts) = three_way_merge(&base, &a, &b);
    assert!(merged.tree_eq(&expected));
    assert_eq!(had_conflicts, true);
}

#[test]
fn test_file_deleted_in_one_branch() {
    let base = obj(vec![("file1.txt", leaf("id1")), ("file2.txt", leaf("id2"))]);
    let a = obj(vec![("file1.txt", leaf("id1"))]);
    let b = base.duplicate();

    let expected = obj(vec![("file1.txt", leaf("id1"))]);

    let (merged, had_conflicts) = three_way_merge(&base, &a, &b);
    assert!(merged.tree_eq(&expected));
    assert_eq!(had_conflicts, false);
}

#[test]
fn test_file_deleted_in_both_branches() {
    let base = obj(vec![("file1.txt", leaf("id1")), ("file2.txt", leaf("id2"))]);
    let a = obj(vec![("file1.txt", leaf("id1"))]);
    let b = obj(vec![("file1.txt", leaf("id1"))]);

    let expected = obj(vec![("file1.txt", leaf("id1"))]);

    let (merged, had_conflicts) = three_way_merge(&base, &a, &b);
    assert!(merged.tree_eq(&expected));
    assert_eq!(had_conflicts, false);
}

#[test]
fn test_modified_in_one_branch_deleted_in_other() {
    let base = obj(vec![("file1.txt", leaf("id1")), ("file2.txt", leaf("id2"))]);
    let a = obj(vec![("file1.txt", leaf("id1")), ("file2.txt", leaf("id2-modified"))]);
    let b = obj(vec![("file1.txt", leaf("id1"))]);

    // In conflict, branch A's change is kept
    let expected = obj(vec![("file1.txt", leaf("id1")), ("file2.txt", leaf("id2-modified"))]);

    let (merged, had_conflicts) = three_way_merge(&base, &a, &b);
    assert!(merged.tree_eq(&expected));
    assert_eq!(had_conflicts, true);
}

#[test]
fn test_nested_directory_structure() {
    let base = obj(vec![
        ("dir1", obj(vec![("file1.txt", leaf("id1")), ("file2.txt", leaf("id2"))])),
        ("dir2", obj(vec![("file3.txt", leaf("id3"))])),
    ]);
    let a = obj(vec![
        ("dir1", obj(vec![("file1.txt", leaf("id1-modified")), ("file2.txt", leaf("id2"))])),
        ("dir2", obj(vec![("file3.txt", leaf("id3"))])),
    ]);
    let b = obj(vec![
        ("dir1", obj(vec![("file1.txt", leaf("id1")), ("file2.txt", leaf("id2"))])),
        ("dir2", obj(vec![("file3.txt", leaf("id3-modified"))])),
    ]);

    let expected = obj(vec![
        ("dir1", obj(vec![("file1.txt", leaf("id1-modified")), ("file2.txt", leaf("id2"))])),
        ("dir2", obj(vec![("file3.txt", leaf("id3-modified"))])),
    ]);

    let (merged, had_conflicts) = three_way_merge(&base, &a, &b);
    assert!(merged.tree_eq(&expected));
    assert_eq!(had_conflicts, false);
}

#[test]
fn test_nested_conflict() {
    let base = obj(vec![
        ("dir1", obj(vec![("file1.txt", leaf("id1")), ("file2.txt", leaf("id2"))])),
    ]);
    let a = obj(vec![
        ("dir1", obj(vec![("file1.txt", leaf("id1-a-change")), ("file2.txt", leaf("id2"))])),
    ]);
    let b = obj(vec![
        ("dir1", obj(vec![("file1.txt", leaf("id1-b-change")), ("file2.txt", leaf("id2"))])),
    ]);

    // In conflict, branch A's value is used
    let expected = obj(vec![
        ("dir1", obj(vec![("file1.txt", leaf("id1-a-change")), ("file2.txt", leaf("id2"))])),
    ]);

    let (merged, had_conflicts) = three_way_merge(&base, &a, &b);
    assert!(merged.tree_eq(&expected));
    assert_eq!(had_conflicts, true);
}
