use git_vibe::grades::{grade_from_score, VibeGrade};

// Scores are whole points; a fractional score is truncated first.
fn grade(score: f64) -> VibeGrade {
    grade_from_score(score as u32)
}

#[test]
fn test_grade_abandoned_low() {
    assert_eq!(grade(0.0), VibeGrade::Abandoned);
}

#[test]
fn test_grade_abandoned_boundary() {
    assert_eq!(grade(39.0), VibeGrade::Abandoned);
}

#[test]
fn test_grade_chaotic_low() {
    assert_eq!(grade(40.0), VibeGrade::Chaotic);
}

#[test]
fn test_grade_chaotic_high() {
    assert_eq!(grade(49.0), VibeGrade::Chaotic);
}

#[test]
fn test_grade_stressed_low() {
    assert_eq!(grade(50.0), VibeGrade::Stressed);
}

#[test]
fn test_grade_stressed_high() {
    assert_eq!(grade(59.0), VibeGrade::Stressed);
}

#[test]
fn test_grade_tense_low() {
    assert_eq!(grade(60.0), VibeGrade::Tense);
}

#[test]
fn test_grade_tense_high() {
    assert_eq!(grade(69.0), VibeGrade::Tense);
}

#[test]
fn test_grade_active_low() {
    assert_eq!(grade(70.0), VibeGrade::Active);
}

#[test]
fn test_grade_active_high() {
    assert_eq!(grade(79.0), VibeGrade::Active);
}

#[test]
fn test_grade_chill_low() {
    assert_eq!(grade(80.0), VibeGrade::Chill);
}

#[test]
fn test_grade_chill_high() {
    assert_eq!(grade(89.0), VibeGrade::Chill);
}

#[test]
fn test_grade_zen_low() {
    assert_eq!(grade(90.0), VibeGrade::Zen);
}

#[test]
fn test_grade_zen_high() {
    assert_eq!(grade(100.0), VibeGrade::Zen);
}

#[test]
fn test_grade_truncates_fraction_and_rejects_above_hundred() {
    assert_eq!(grade(89.99), VibeGrade::Chill);
    assert_eq!(grade_from_score(101), VibeGrade::Abandoned);
    assert_eq!(grade_from_score(u32::MAX), VibeGrade::Abandoned);
}

#[test]
fn test_grade_labels_and_emoji() {
    assert_eq!(VibeGrade::Zen.label(), "🧘 Zen");
    assert_eq!(VibeGrade::Chill.label(), "😎 Chill");
    assert_eq!(VibeGrade::Abandoned.label(), "💀 Abandoned");
    assert_eq!(VibeGrade::Tense.emoji(), "😬");
    assert_eq!(VibeGrade::Chaotic.emoji(), "🔥");
}
