use git_vibe::authors::{calculate_bus_factor, collect_author_stats, AuthorStats};
use git_vibe::model::{CommitData, FileChange};

fn make_author(name: &str, commits: u32, lines_added: u32, lines_removed: u32) -> AuthorStats {
    AuthorStats {
        name: name.to_string(),
        email: format!("{}@test.com", name),
        commits,
        lines_added,
        lines_removed,
    }
}

#[test]
fn test_bus_factor_single_author() {
    let authors = vec![make_author("alice", 10, 100, 0)];
    assert_eq!(calculate_bus_factor(&authors), 1);
}

#[test]
fn test_bus_factor_two_authors_equal() {
    let authors = vec![
        make_author("alice", 5, 50, 0),
        make_author("bob", 5, 50, 0),
    ];
    assert_eq!(calculate_bus_factor(&authors), 2);
}

#[test]
fn test_bus_factor_dominant_author() {
    let authors = vec![
        make_author("alice", 9, 90, 0),
        make_author("bob", 1, 10, 0),
    ];
    assert_eq!(calculate_bus_factor(&authors), 1);
}

#[test]
fn test_bus_factor_three_authors() {
    let authors = vec![
        make_author("alice", 40, 40, 0),
        make_author("bob", 35, 35, 0),
        make_author("carol", 25, 25, 0),
    ];
    assert_eq!(calculate_bus_factor(&authors), 3);
}

#[test]
fn test_bus_factor_empty() {
    assert_eq!(calculate_bus_factor(&[]), 0);
}

#[test]
fn test_bus_factor_falls_back_to_commits() {
    // No lines at all: commits decide (9 of 10 commits reach 80%).
    let authors = vec![
        make_author("alice", 1, 0, 0),
        make_author("bob", 9, 0, 0),
    ];
    assert_eq!(calculate_bus_factor(&authors), 1);
}

#[test]
fn test_bus_factor_no_data() {
    let authors = vec![make_author("alice", 0, 0, 0)];
    assert_eq!(calculate_bus_factor(&authors), 0);
}

#[test]
fn test_bus_factor_order_does_not_matter() {
    // The heaviest author is listed last; 80% of 100 is reached by 60 + 25.
    let authors = vec![
        make_author("carol", 0, 10, 5),
        make_author("bob", 0, 20, 5),
        make_author("alice", 0, 50, 10),
    ];
    assert_eq!(calculate_bus_factor(&authors), 2);
}

#[test]
fn test_collect_author_stats_aggregates_commits() {
    let commits = vec![
        CommitData {
            id: "1".to_string(),
            author: "alice".to_string(),
            email: "alice@test.com".to_string(),
            message: "feat: first".to_string(),
            timestamp: 1_700_000_000,
            files_changed: vec![FileChange { path: "a.rs".to_string(), additions: 10, deletions: 2 }],
        },
        CommitData {
            id: "2".to_string(),
            author: "alice".to_string(),
            email: "alice@test.com".to_string(),
            message: "fix: second".to_string(),
            timestamp: 1_700_000_100,
            files_changed: vec![FileChange { path: "b.rs".to_string(), additions: 5, deletions: 1 }],
        },
        CommitData {
            id: "3".to_string(),
            author: "bob".to_string(),
            email: "bob@test.com".to_string(),
            message: "feat: bob commit".to_string(),
            timestamp: 1_700_000_200,
            files_changed: vec![],
        },
    ];

    let stats = collect_author_stats(&commits);
    assert_eq!(stats.len(), 2);
    let alice = stats.iter().find(|a| a.name == "alice").unwrap();
    assert_eq!(alice.commits, 2);
    assert_eq!(alice.lines_added, 15);
    assert_eq!(alice.lines_removed, 3);
}

#[test]
fn test_author_stats_most_commits_first_and_first_email() {
    let mk = |author: &str, email: &str| CommitData {
        id: "x".to_string(),
        author: author.to_string(),
        email: email.to_string(),
        message: "chore".to_string(),
        timestamp: 0,
        files_changed: vec![],
    };
    let commits = vec![
        mk("bob", "bob@one"),
        mk("alice", "alice@a"),
        mk("alice", "alice@b"),
        mk("bob", "bob@two"),
        mk("alice", "alice@c"),
    ];
    let stats = collect_author_stats(&commits);
    assert_eq!(stats.len(), 2);
    assert_eq!(stats[0].name, "alice");
    assert_eq!(stats[0].commits, 3);
    assert_eq!(stats[0].email, "alice@a");
    assert_eq!(stats[1].name, "bob");
    assert_eq!(stats[1].email, "bob@one");
}
