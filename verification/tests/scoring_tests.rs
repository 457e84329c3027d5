use git_vibe::model::CommitData;
use git_vibe::scoring::{calc_bus_factor_score, calc_trend_score};

fn commits_at(times: &[i64]) -> Vec<CommitData> {
    times
        .iter()
        .map(|&ts| CommitData {
            id: format!("c{}", ts),
            author: "dev".to_string(),
            email: "dev@test.com".to_string(),
            message: "change".to_string(),
            timestamp: ts,
            files_changed: vec![],
        })
        .collect()
}

#[test]
fn test_bus_factor_score_table() {
    assert_eq!(calc_bus_factor_score(0), 0);
    assert_eq!(calc_bus_factor_score(1), 20);
    assert_eq!(calc_bus_factor_score(2), 50);
    assert_eq!(calc_bus_factor_score(3), 75);
    assert_eq!(calc_bus_factor_score(4), 100);
    assert_eq!(calc_bus_factor_score(u32::MAX), 100);
}

#[test]
fn test_bus_factor_score_never_drops() {
    let mut last = 0;
    for b in 0..10u32 {
        let s = calc_bus_factor_score(b);
        assert!(s >= last);
        last = s;
    }
}

#[test]
fn test_trend_too_few_commits_or_too_short() {
    assert_eq!(calc_trend_score(&commits_at(&[])), 60);
    assert_eq!(calc_trend_score(&commits_at(&[0, 1000])), 60);
    assert_eq!(calc_trend_score(&commits_at(&[0, 1, 2])), 60);
}

#[test]
fn test_trend_rising_stable_falling() {
    // Span 100: the last third starts at 66.67, the first ends at 33.33.
    assert_eq!(calc_trend_score(&commits_at(&[0, 90, 95, 100])), 85);
    assert_eq!(calc_trend_score(&commits_at(&[0, 100, 50])), 60);
    assert_eq!(calc_trend_score(&commits_at(&[0, 5, 10, 100])), 30);
}

#[test]
fn test_trend_ratio_boundaries() {
    // 6 recent against 5 early is exactly 1.2: steady, not rising.
    let mut t = vec![0, 0, 0, 0, 0];
    t.extend_from_slice(&[300, 300, 300, 300, 300, 300]);
    assert_eq!(calc_trend_score(&commits_at(&t)), 60);
    // 4 recent against 5 early is exactly 0.8: still steady.
    let mut t = vec![0, 0, 0, 0, 0];
    t.extend_from_slice(&[300, 300, 300, 300]);
    assert_eq!(calc_trend_score(&commits_at(&t)), 60);
    // 3 against 5 is falling.
    let mut t = vec![0, 0, 0, 0, 0];
    t.extend_from_slice(&[300, 300, 300]);
    assert_eq!(calc_trend_score(&commits_at(&t)), 30);
    // 7 against 5 is rising.
    let mut t = vec![0, 0, 0, 0, 0];
    t.extend_from_slice(&[300, 300, 300, 300, 300, 300, 300]);
    assert_eq!(calc_trend_score(&commits_at(&t)), 85);
}
