use git_vibe::hotspots::{detect_hotspots, heat_emoji};
use git_vibe::model::{CommitData, FileChange};

fn commit(ts: i64, paths: &[&str]) -> CommitData {
    CommitData {
        id: format!("c{}", ts),
        author: "dev".to_string(),
        email: "dev@test.com".to_string(),
        message: "change".to_string(),
        timestamp: ts,
        files_changed: paths
            .iter()
            .map(|p| FileChange { path: p.to_string(), additions: 1, deletions: 0 })
            .collect(),
    }
}

#[test]
fn test_hotspots_most_changed_first() {
    let commits = vec![
        commit(1, &["a.rs", "b.rs"]),
        commit(2, &["a.rs"]),
        commit(3, &["c.rs", "a.rs", "b.rs"]),
    ];
    let hs = detect_hotspots(&commits, 2);
    assert_eq!(hs.len(), 2);
    assert_eq!(hs[0].path, "a.rs");
    assert_eq!(hs[0].commit_count, 3);
    assert_eq!(hs[0].heat_emoji, "🔆");
    assert_eq!(hs[1].path, "b.rs");
    assert_eq!(hs[1].commit_count, 2);

    let all = detect_hotspots(&commits, 10);
    assert_eq!(all.len(), 3);
    assert_eq!(all[2].path, "c.rs");
    assert_eq!(all[2].commit_count, 1);
}

#[test]
fn test_hotspots_ties_keep_first_appearance() {
    let commits = vec![commit(1, &["x", "y"]), commit(2, &["z"])];
    let hs = detect_hotspots(&commits, 10);
    let paths: Vec<&str> = hs.iter().map(|h| h.path.as_str()).collect();
    assert_eq!(paths, vec!["x", "y", "z"]);
}

#[test]
fn test_hotspots_empty_and_zero_limit() {
    assert!(detect_hotspots(&[], 10).is_empty());
    assert!(detect_hotspots(&[commit(1, &["a"])], 0).is_empty());
}

#[test]
fn test_heat_emoji_thresholds() {
    assert_eq!(heat_emoji(50), "🌋");
    assert_eq!(heat_emoji(49), "🔥");
    assert_eq!(heat_emoji(30), "🔥");
    assert_eq!(heat_emoji(29), "♨️");
    assert_eq!(heat_emoji(15), "♨️");
    assert_eq!(heat_emoji(14), "🔆");
    assert_eq!(heat_emoji(0), "🔆");
}

#[test]
fn test_path_counts_ok() {
    assert!(git_vibe::hotspots::path_counts_ok(&[commit(1, &["a", "a", "b"])]));
    assert!(git_vibe::hotspots::path_counts_ok(&[]));
}

#[test]
fn test_hotspots_cut_keeps_earliest_of_a_tie() {
    let commits = vec![commit(1, &["y"]), commit(2, &["x"]), commit(3, &["x", "y", "z"])];
    let hs = detect_hotspots(&commits, 1);
    assert_eq!(hs.len(), 1);
    assert_eq!(hs[0].path, "y");
    assert_eq!(hs[0].commit_count, 2);
}
