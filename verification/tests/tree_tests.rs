use git_vibe::tree::{commit_trees, diff_tree_entries, CommitTrees, listing_steps, make_full_path, tree_to_map, EntryKind, TreeEntry, TreeStep};

fn entry(name: &str, kind: EntryKind, oid: &str) -> TreeEntry {
    TreeEntry { name: name.to_string(), kind, oid: oid.to_string() }
}

#[test]
fn test_full_paths() {
    assert_eq!(make_full_path("", "a.rs"), "a.rs");
    assert_eq!(make_full_path("src", "a.rs"), "src/a.rs");
    assert_eq!(make_full_path("src/git", "mod.rs"), "src/git/mod.rs");
}

#[test]
fn test_entry_kinds() {
    assert!(EntryKind::Blob.is_blob_mode());
    assert!(EntryKind::BlobExecutable.is_blob_mode());
    assert!(!EntryKind::Link.is_blob_mode());
    assert!(EntryKind::Tree.is_tree_mode());
    assert!(!EntryKind::Commit.is_tree_mode());
}

#[test]
fn test_listing_steps() {
    let entries = vec![
        entry("a.rs", EntryKind::Blob, "01"),
        entry("lib", EntryKind::Tree, "02"),
        entry("link", EntryKind::Link, "03"),
        entry("run.sh", EntryKind::BlobExecutable, "04"),
        entry("vendor", EntryKind::Commit, "05"),
    ];
    let steps = listing_steps("src", &entries);
    assert_eq!(steps.len(), 5);
    assert!(matches!(&steps[0], TreeStep::File(p) if p == "src/a.rs"));
    assert!(matches!(&steps[1], TreeStep::Dir(p, o) if p == "src/lib" && o == "02"));
    assert!(matches!(&steps[2], TreeStep::Skip));
    assert!(matches!(&steps[3], TreeStep::File(p) if p == "src/run.sh"));
    assert!(matches!(&steps[4], TreeStep::Skip));
}

#[test]
fn test_tree_to_map_last_entry_wins() {
    let entries = vec![
        entry("a", EntryKind::Blob, "01"),
        entry("b", EntryKind::Blob, "02"),
        entry("a", EntryKind::Tree, "03"),
    ];
    let table = tree_to_map(&entries);
    assert_eq!(table.len(), 2);
    let a = table.iter().find(|e| e.name == "a").unwrap();
    assert_eq!(a.oid, "03");
    assert_eq!(a.kind, EntryKind::Tree);
    assert!(table.iter().any(|e| e.name == "b" && e.oid == "02"));
}

#[test]
fn test_diff_tree_entries() {
    let old = vec![
        entry("a.rs", EntryKind::Blob, "01"),
        entry("b.rs", EntryKind::Blob, "02"),
        entry("d", EntryKind::Tree, "03"),
        entry("gone.rs", EntryKind::Blob, "04"),
        entry("link", EntryKind::Link, "05"),
        entry("flip", EntryKind::Blob, "06"),
    ];
    let new = vec![
        entry("a.rs", EntryKind::Blob, "01"),
        entry("b.rs", EntryKind::Blob, "09"),
        entry("d", EntryKind::Tree, "08"),
        entry("n.rs", EntryKind::Blob, "0a"),
        entry("nd", EntryKind::Tree, "0b"),
        entry("flip", EntryKind::Tree, "0c"),
    ];
    let diff = diff_tree_entries("src", &old, &new);
    let changes: Vec<(&str, u32, u32)> =
        diff.changes.iter().map(|c| (c.path.as_str(), c.additions, c.deletions)).collect();
    assert_eq!(changes, vec![("src/b.rs", 1, 1), ("src/n.rs", 1, 0), ("src/gone.rs", 0, 1)]);
    assert_eq!(diff.dirs.len(), 2);
    assert_eq!(diff.dirs[0].path, "src/d");
    assert_eq!(diff.dirs[0].old_oid.as_deref(), Some("03"));
    assert_eq!(diff.dirs[0].new_oid, "08");
    assert_eq!(diff.dirs[1].path, "src/nd");
    assert_eq!(diff.dirs[1].old_oid, None);
    assert_eq!(diff.dirs[1].new_oid, "0b");
}

#[test]
fn test_diff_of_root_against_nothing_adds_everything() {
    let new = vec![entry("x", EntryKind::Blob, "01"), entry("y", EntryKind::Tree, "02")];
    let diff = diff_tree_entries("", &[], &new);
    let changes: Vec<(&str, u32, u32)> =
        diff.changes.iter().map(|c| (c.path.as_str(), c.additions, c.deletions)).collect();
    assert_eq!(changes, vec![("x", 1, 0)]);
    assert_eq!(diff.dirs.len(), 1);
    assert_eq!(diff.dirs[0].path, "y");
    assert_eq!(diff.dirs[0].old_oid, None);
}

#[test]
fn test_commit_trees() {
    let tree = "ab12".to_string();
    assert_eq!(commit_trees(&None, &tree), CommitTrees::AllAdded);
    assert_eq!(commit_trees(&Some("ab12".to_string()), &tree), CommitTrees::Unchanged);
    assert_eq!(commit_trees(&Some("cd34".to_string()), &tree), CommitTrees::Compare);
}
