use git_vibe::model::CommitData;
use git_vibe::mood::{analyze_mood, classify_message, commit_mood, Mood};

fn make_commit(message: &str) -> CommitData {
    CommitData {
        id: "abc123".to_string(),
        author: "Test".to_string(),
        email: "test@test.com".to_string(),
        message: message.to_string(),
        timestamp: 1_700_000_000,
        files_changed: vec![],
    }
}

// The share of all commits that a count stands for (0 with no commits).
fn ratio(count: u32, total: u32) -> f64 {
    if total == 0 {
        0.0
    } else {
        count as f64 / total as f64
    }
}

#[test]
fn test_feat_is_happy() {
    let commits = vec![make_commit("feat: add login")];
    let mood = analyze_mood(&commits);
    let t = mood.total_commits;
    assert_eq!(ratio(mood.happy, t), 1.0);
    assert_eq!(ratio(mood.stressed, t), 0.0);
    assert_eq!(ratio(mood.cleanup, t), 0.0);
    assert_eq!(ratio(mood.scary, t), 0.0);
    assert_eq!(ratio(mood.other, t), 0.0);
}

#[test]
fn test_fix_is_stressed() {
    let commits = vec![make_commit("fix: crash on startup")];
    let mood = analyze_mood(&commits);
    assert_eq!(ratio(mood.stressed, mood.total_commits), 1.0);
    assert_eq!(ratio(mood.happy, mood.total_commits), 0.0);
}

#[test]
fn test_refactor_is_cleanup() {
    let commits = vec![make_commit("refactor: simplify auth")];
    let mood = analyze_mood(&commits);
    assert_eq!(ratio(mood.cleanup, mood.total_commits), 1.0);
    assert_eq!(ratio(mood.happy, mood.total_commits), 0.0);
}

#[test]
fn test_revert_is_scary() {
    let commits = vec![make_commit("revert: bad deploy")];
    let mood = analyze_mood(&commits);
    assert_eq!(ratio(mood.scary, mood.total_commits), 1.0);
    assert_eq!(ratio(mood.happy, mood.total_commits), 0.0);
}

#[test]
fn test_empty_commits_all_zeros() {
    let mood = analyze_mood(&[]);
    let t = mood.total_commits;
    assert_eq!(ratio(mood.happy, t), 0.0);
    assert_eq!(ratio(mood.stressed, t), 0.0);
    assert_eq!(ratio(mood.cleanup, t), 0.0);
    assert_eq!(ratio(mood.scary, t), 0.0);
    assert_eq!(ratio(mood.other, t), 0.0);
    assert_eq!(mood.total_commits, 0);
}

#[test]
fn test_mixed_commits_ratios() {
    let commits = vec![
        make_commit("feat: new feature"),
        make_commit("fix: some bug"),
        make_commit("fix: another bug"),
        make_commit("chore: update deps"),
    ];
    let mood = analyze_mood(&commits);
    assert_eq!(mood.total_commits, 4);
    assert!((ratio(mood.happy, 4) - 0.25).abs() < f64::EPSILON);
    assert!((ratio(mood.stressed, 4) - 0.5).abs() < f64::EPSILON);
    assert!((ratio(mood.other, 4) - 0.25).abs() < f64::EPSILON);
}

#[test]
fn test_mood_counts_add_up() {
    let commits = vec![
        make_commit("Feat: shout"),
        make_commit("cleanup of things"),
        make_commit("  HOTFIX now"),
        make_commit("drop: old api"),
        make_commit("wip"),
        make_commit(""),
    ];
    let mood = analyze_mood(&commits);
    assert_eq!(mood.happy, 1);
    assert_eq!(mood.cleanup, 1);
    assert_eq!(mood.stressed, 1);
    assert_eq!(mood.scary, 1);
    assert_eq!(mood.other, 2);
    assert_eq!(
        mood.happy + mood.stressed + mood.cleanup + mood.scary + mood.other,
        mood.total_commits
    );
}

#[test]
fn test_classify_message_first_word_only() {
    assert_eq!(classify_message("feat: add login"), Some("happy"));
    assert_eq!(classify_message("Added tests"), Some("happy"));
    assert_eq!(classify_message("update: fix later"), None);
    assert_eq!(classify_message("\tbugfix"), Some("stressed"));
    assert_eq!(classify_message("styles"), Some("cleanup"));
    assert_eq!(classify_message("Rollback"), Some("scary"));
    assert_eq!(classify_message(""), None);
    assert_eq!(classify_message("   "), None);
}

#[test]
fn test_commit_mood_prefers_earlier_lists() {
    // A word matches a keyword that it starts with; the happy list is tried first.
    assert_eq!(commit_mood("supported"), Some(Mood::Happy));
    assert_eq!(commit_mood("renamed files"), Some(Mood::Cleanup));
    assert_eq!(commit_mood("deprecated"), Some(Mood::Scary));
    assert_eq!(commit_mood("résumé"), None);
}

#[test]
fn test_classify_follows_unicode_lower_case() {
    // The Kelvin sign lower-cases to `k`; a dotted capital I does not match `i`.
    assert_eq!(classify_message("ROLLBAC\u{212A} release"), Some("scary"));
    assert_eq!(classify_message("İmplement it"), None);
    assert_eq!(classify_message("\u{3000}FIX ideographic space"), Some("stressed"));
}
