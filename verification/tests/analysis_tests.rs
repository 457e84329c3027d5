use git_vibe::analysis::{analysis_inputs_ok, analyze};
use git_vibe::clock::Moment;
use git_vibe::model::{CommitData, FileChange, VibeError};

const DAY: i64 = 86_400;

fn commit(author: &str, message: &str, ts: i64, changes: &[(&str, u32, u32)]) -> CommitData {
    CommitData {
        id: format!("{}-{}", author, ts),
        author: author.to_string(),
        email: format!("{}@test.com", author),
        message: message.to_string(),
        timestamp: ts,
        files_changed: changes
            .iter()
            .map(|&(p, a, d)| FileChange { path: p.to_string(), additions: a, deletions: d })
            .collect(),
    }
}

#[test]
fn test_analyze_without_commits() {
    let r = analyze("repo".to_string(), "12m".to_string(), vec![], vec!["a.rs".to_string()], Moment { secs: 0, nanos: 0 });
    assert!(matches!(r, Err(VibeError::NoCommits)));
}

#[test]
fn test_analyze_whole_history() {
    let base = 1_700_000_000;
    let commits = vec![
        commit("alice", "feat: login", base, &[("src/a.rs", 80, 0), ("README.md", 5, 0)]),
        commit("bob", "fix: crash", base - 40 * DAY, &[("src/a.rs", 3, 2)]),
        commit("alice", "refactor: tidy", base - 80 * DAY, &[("src/b.rs", 10, 10)]),
    ];
    let files = vec!["src/a.rs".to_string(), "src/b.rs".to_string(), "README.md".to_string(), "old.txt".to_string()];
    let now = Moment { secs: base + DAY, nanos: 0 };
    let a = analyze("repo".to_string(), "3m".to_string(), commits.clone(), files, now).unwrap();
    assert_eq!(a.repo_name, "repo");
    assert_eq!(a.period_label, "3m");
    assert_eq!(a.total_commits, 3);
    assert_eq!(a.total_files, 4);
    assert_eq!(a.hotspots[0].path, "src/a.rs");
    assert_eq!(a.hotspots[0].commit_count, 2);
    assert_eq!(a.hotspots.len(), 3);
    assert_eq!(a.ghosts.len(), 1);
    assert_eq!(a.ghosts[0].path, "old.txt");
    assert_eq!(a.mood.happy, 1);
    assert_eq!(a.mood.stressed, 1);
    assert_eq!(a.mood.cleanup, 1);
    assert_eq!(a.mood.total_commits, 3);
    assert_eq!(a.authors.len(), 2);
    assert_eq!(a.authors[0].name, "alice");
    assert_eq!(a.authors[0].lines_added, 95);
    assert_eq!(a.authors[0].lines_removed, 10);
    // alice holds 105 of 110 lines: one author covers 80%.
    assert_eq!(a.bus_factor, 1);
    let months: Vec<(&str, u32)> = a.monthly_activity.iter().map(|m| (m.label.as_str(), m.commit_count)).collect();
    assert_eq!(months, vec![("2023-08", 1), ("2023-10", 1), ("2023-11", 1)]);
    assert_eq!(a.commits.len(), 3);
    assert_eq!(a.commits[1].author, "bob");
}

#[test]
fn test_author_and_month_totals_add_up() {
    let commits = vec![
        commit("a", "x", 0, &[("f", 1, 2)]),
        commit("b", "y", 40 * DAY, &[("f", 3, 4), ("g", 5, 6)]),
        commit("a", "z", 80 * DAY, &[]),
        commit("c", "w", 90 * DAY, &[("h", 7, 0)]),
    ];
    let a = analyze("r".to_string(), "1y".to_string(), commits, vec![], Moment { secs: 100 * DAY, nanos: 0 }).unwrap();
    let commits_sum: u32 = a.authors.iter().map(|s| s.commits).sum();
    let added: u32 = a.authors.iter().map(|s| s.lines_added).sum();
    let removed: u32 = a.authors.iter().map(|s| s.lines_removed).sum();
    assert_eq!((commits_sum, added, removed), (4, 16, 12));
    let months_sum: u32 = a.monthly_activity.iter().map(|m| m.commit_count).sum();
    assert_eq!(months_sum, 4);
    let m = a.mood;
    assert_eq!(m.happy + m.stressed + m.cleanup + m.scary + m.other, 4);
}

#[test]
fn test_analyze_now_reads_the_clock() {
    // The only file was touched at the epoch: more than a year ago today.
    let commits = vec![commit("a", "feat: x", 0, &[("f", 1, 0)])];
    let a = git_vibe::analysis::analyze_now("r".to_string(), "1y".to_string(), commits, vec!["f".to_string()]).unwrap();
    assert_eq!(a.ghosts.len(), 1);
    assert!(a.ghosts[0].days_ago > 19_000);
    assert!(matches!(
        git_vibe::analysis::analyze_now("r".to_string(), "1y".to_string(), vec![], vec![]),
        Err(VibeError::NoCommits)
    ));
}

#[test]
fn test_analysis_inputs_ok() {
    let fine = vec![commit("a", "x", 0, &[("f", 10, 5)])];
    assert!(analysis_inputs_ok(&fine, &[]));
    let too_many_lines = vec![commit("a", "x", 0, &[("f", u32::MAX, 0)]), commit("b", "y", 1, &[("g", 1, 0)])];
    assert!(!analysis_inputs_ok(&too_many_lines, &[]));
    let exactly_max = vec![commit("a", "x", 0, &[("f", u32::MAX - 1, 1)])];
    assert!(analysis_inputs_ok(&exactly_max, &[]));
    let no_date = vec![commit("a", "x", i64::MAX, &[])];
    assert!(!analysis_inputs_ok(&no_date, &[]));
}
