use vstd::prelude::*;

verus! {

/// The seven vibe grades, from the healthiest to the most worrying.
#[derive(Debug, Clone, Copy, PartialEq, Eq, Structural)]
pub enum VibeGrade {
    Zen,
    Chill,
    Active,
    Tense,
    Stressed,
    Chaotic,
    Abandoned,
}

/// The grade that a score of `points` whole points earns.
pub open spec fn grade_of(points: int) -> VibeGrade {
    if 90 <= points <= 100 {
        VibeGrade::Zen
    } else if 80 <= points <= 89 {
        VibeGrade::Chill
    } else if 70 <= points <= 79 {
        VibeGrade::Active
    } else if 60 <= points <= 69 {
        VibeGrade::Tense
    } else if 50 <= points <= 59 {
        VibeGrade::Stressed
    } else if 40 <= points <= 49 {
        VibeGrade::Chaotic
    } else {
        VibeGrade::Abandoned
    }
}

/// Maps a score, truncated to whole points, to its grade.
///
/// 90–100 is Zen, 80–89 Chill, 70–79 Active, 60–69 Tense, 50–59 Stressed,
/// 40–49 Chaotic; every other value (below 40, or above 100) is Abandoned.
pub fn grade_from_score(points: u32) -> (grade: VibeGrade)
    ensures
        grade == grade_of(points as int),
{
    if 90 <= points && points <= 100 {
        VibeGrade::Zen
    } else if 80 <= points && points <= 89 {
        VibeGrade::Chill
    } else if 70 <= points && points <= 79 {
        VibeGrade::Active
    } else if 60 <= points && points <= 69 {
        VibeGrade::Tense
    } else if 50 <= points && points <= 59 {
        VibeGrade::Stressed
    } else if 40 <= points && points <= 49 {
        VibeGrade::Chaotic
    } else {
        VibeGrade::Abandoned
    }
}

/// The place of a grade from the healthiest (Zen, 0) to the most worrying
/// (Abandoned, 6).
pub open spec fn grade_rank(grade: VibeGrade) -> int {
    match grade {
        VibeGrade::Zen => 0,
        VibeGrade::Chill => 1,
        VibeGrade::Active => 2,
        VibeGrade::Tense => 3,
        VibeGrade::Stressed => 4,
        VibeGrade::Chaotic => 5,
        VibeGrade::Abandoned => 6,
    }
}

/// Within 0 to 100 points, a higher score never earns a more worrying
/// grade.
pub proof fn lemma_grade_monotone(a: int, b: int)
    requires
        0 <= a <= b <= 100,
    ensures
        grade_rank(grade_of(b)) <= grade_rank(grade_of(a)),
{
}

impl VibeGrade {
    /// The emoji of the grade.
    pub open spec fn emoji_text(self) -> Seq<char> {
        match self {
            VibeGrade::Zen => "🧘"@,
            VibeGrade::Chill => "😎"@,
            VibeGrade::Active => "💪"@,
            VibeGrade::Tense => "😬"@,
            VibeGrade::Stressed => "😰"@,
            VibeGrade::Chaotic => "🔥"@,
            VibeGrade::Abandoned => "💀"@,
        }
    }

    /// The display text of the grade: its emoji, a space and its name.
    pub open spec fn label_text(self) -> Seq<char> {
        match self {
            VibeGrade::Zen => "🧘 Zen"@,
            VibeGrade::Chill => "😎 Chill"@,
            VibeGrade::Active => "💪 Active"@,
            VibeGrade::Tense => "😬 Tense"@,
            VibeGrade::Stressed => "😰 Stressed"@,
            VibeGrade::Chaotic => "🔥 Chaotic"@,
            VibeGrade::Abandoned => "💀 Abandoned"@,
        }
    }

    /// The emoji that stands for the grade.
    pub fn emoji(&self) -> (s: &'static str)
        ensures
            s@ == self.emoji_text(),
    {
        match self {
            VibeGrade::Zen => "🧘",
            VibeGrade::Chill => "😎",
            VibeGrade::Active => "💪",
            VibeGrade::Tense => "😬",
            VibeGrade::Stressed => "😰",
            VibeGrade::Chaotic => "🔥",
            VibeGrade::Abandoned => "💀",
        }
    }

    /// The text by which the grade is shown, such as "😎 Chill".
    pub fn label(&self) -> (s: &'static str)
        ensures
            s@ == self.label_text(),
    {
        match self {
            VibeGrade::Zen => "🧘 Zen",
            VibeGrade::Chill => "😎 Chill",
            VibeGrade::Active => "💪 Active",
            VibeGrade::Tense => "😬 Tense",
            VibeGrade::Stressed => "😰 Stressed",
            VibeGrade::Chaotic => "🔥 Chaotic",
            VibeGrade::Abandoned => "💀 Abandoned",
        }
    }
}

} // verus!
