use git_vibe::clock::Moment;
use git_vibe::ghosts::{detect_ghosts, detect_ghosts_at};
use git_vibe::model::{CommitData, FileChange};

const DAY: i64 = 86_400;

fn commit(ts: i64, paths: &[&str]) -> CommitData {
    CommitData {
        id: format!("c{}", ts),
        author: "dev".to_string(),
        email: "dev@test.com".to_string(),
        message: "change".to_string(),
        timestamp: ts,
        files_changed: paths
            .iter()
            .map(|p| FileChange { path: p.to_string(), additions: 1, deletions: 1 })
            .collect(),
    }
}

fn files(names: &[&str]) -> Vec<String> {
    names.iter().map(|n| n.to_string()).collect()
}

#[test]
fn test_ghosts_oldest_first_ties_in_file_order() {
    let commits = vec![commit(10 * DAY, &["a.rs"]), commit(100 * DAY, &["b.rs"]), commit(5 * DAY, &["a.rs"])];
    let all = files(&["a.rs", "b.rs", "c.rs", "d.rs"]);
    let now = Moment { secs: 400 * DAY, nanos: 0 };
    let ghosts = detect_ghosts_at(&commits, &all, 365, now);
    let seen: Vec<(&str, i64, u64)> = ghosts.iter().map(|g| (g.path.as_str(), g.last_touched, g.days_ago)).collect();
    assert_eq!(seen, vec![("c.rs", 0, 400), ("d.rs", 0, 400), ("a.rs", 10 * DAY, 390)]);
}

#[test]
fn test_ghost_threshold_is_strict() {
    let commits = vec![commit(0, &["a.rs"])];
    let all = files(&["a.rs"]);
    let exactly = Moment { secs: 365 * DAY, nanos: 0 };
    assert!(detect_ghosts_at(&commits, &all, 365, exactly).is_empty());
    let just_after = Moment { secs: 365 * DAY, nanos: 1 };
    let ghosts = detect_ghosts_at(&commits, &all, 365, just_after);
    assert_eq!(ghosts.len(), 1);
    assert_eq!(ghosts[0].days_ago, 365);
}

#[test]
fn test_ghosts_measured_from_now() {
    // Nothing touched the file: it counts as last touched at the epoch.
    let ghosts = detect_ghosts(&[], &files(&["old.txt"]), 365);
    assert_eq!(ghosts.len(), 1);
    assert_eq!(ghosts[0].last_touched, 0);
    assert!(ghosts[0].days_ago > 19_000);
    // A file touched a moment ago is no ghost.
    let fresh = vec![commit(ghosts[0].days_ago as i64 * DAY, &["new.txt"])];
    assert!(detect_ghosts(&fresh, &files(&["new.txt"]), 365).is_empty());
}

#[test]
fn test_ghost_threshold_wraps_like_a_cast() {
    // u64::MAX - 2 read as an i64 is -3 days: a file touched two days
    // after `now` is older than that, with an age of -2 days as a u64.
    let now = Moment { secs: 400 * DAY, nanos: 0 };
    let commits = vec![commit(402 * DAY, &["future.rs"]), commit(399 * DAY, &["recent.rs"])];
    let ghosts = detect_ghosts_at(&commits, &files(&["recent.rs", "future.rs"]), u64::MAX - 2, now);
    let seen: Vec<(&str, u64)> = ghosts.iter().map(|g| (g.path.as_str(), g.days_ago)).collect();
    assert_eq!(seen, vec![("future.rs", u64::MAX - 1), ("recent.rs", 1)]);
}
