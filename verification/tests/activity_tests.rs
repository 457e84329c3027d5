use git_vibe::activity::{calc_monthly_activity, label_before, tally_months};
use git_vibe::model::CommitData;

fn commit(ts: i64) -> CommitData {
    CommitData {
        id: format!("c{}", ts),
        author: "dev".to_string(),
        email: "dev@test.com".to_string(),
        message: "change".to_string(),
        timestamp: ts,
        files_changed: vec![],
    }
}

#[test]
fn test_monthly_activity_grouped_and_sorted() {
    let commits = vec![commit(1_704_067_200), commit(1_700_000_000), commit(1_698_796_799), commit(1_698_796_800)];
    let months = calc_monthly_activity(&commits);
    let seen: Vec<(&str, u32)> = months.iter().map(|m| (m.label.as_str(), m.commit_count)).collect();
    assert_eq!(seen, vec![("2023-10", 1), ("2023-11", 2), ("2024-01", 1)]);
    let total: u32 = months.iter().map(|m| m.commit_count).sum();
    assert_eq!(total as usize, commits.len());
}

#[test]
fn test_monthly_activity_before_epoch_and_empty() {
    let months = calc_monthly_activity(&[commit(-1), commit(0)]);
    let seen: Vec<(&str, u32)> = months.iter().map(|m| (m.label.as_str(), m.commit_count)).collect();
    assert_eq!(seen, vec![("1969-12", 1), ("1970-01", 1)]);
    assert!(calc_monthly_activity(&[]).is_empty());
}

#[test]
fn test_label_order() {
    assert!(label_before("2023-10", "2023-11"));
    assert!(!label_before("2023-11", "2023-10"));
    assert!(!label_before("2023-11", "2023-11"));
    assert!(label_before("2023", "2023-01"));
    assert!(label_before("", "a"));
}

#[test]
fn test_tally_months_counts_labels() {
    let labels: Vec<String> = ["2023-11", "2023-10", "2023-11", "1999-01"].iter().map(|s| s.to_string()).collect();
    let months = tally_months(&labels);
    let seen: Vec<(&str, u32)> = months.iter().map(|m| (m.label.as_str(), m.commit_count)).collect();
    assert_eq!(seen, vec![("1999-01", 1), ("2023-10", 1), ("2023-11", 2)]);
}
