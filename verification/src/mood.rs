use vstd::prelude::*;
use crate::model::CommitData;

verus! {

/// The four moods a commit message can show.
#[derive(Debug, Clone, Copy, PartialEq, Eq, Structural)]
pub enum Mood {
    Happy,
    Stressed,
    Cleanup,
    Scary,
}

/// `c` is white space in the Unicode sense (`char::is_whitespace`).
pub open spec fn is_space(c: char) -> bool {
    let u = c as u32;
    (9 <= u <= 13) || u == 32 || u == 0x85 || u == 0xA0 || u == 0x1680 || (0x2000 <= u <= 0x200A)
        || u == 0x2028 || u == 0x2029 || u == 0x202F || u == 0x205F || u == 0x3000
}

/// The number of white-space characters that `s` starts with.
pub open spec fn leading_spaces(s: Seq<char>) -> nat
    decreases s.len(),
{
    if s.len() > 0 && is_space(s[0]) {
        1 + leading_spaces(s.drop_first())
    } else {
        0
    }
}

/// The number of characters before the first white space of `s`.
pub open spec fn word_length(s: Seq<char>) -> nat
    decreases s.len(),
{
    if s.len() > 0 && !is_space(s[0]) {
        1 + word_length(s.drop_first())
    } else {
        0
    }
}

/// The first white-space-separated word of `s` (empty if there is none).
pub open spec fn first_word(s: Seq<char>) -> Seq<char> {
    let rest = s.skip(leading_spaces(s) as int);
    rest.take(word_length(rest) as int)
}

/// `c` in lower case where that is an ASCII letter: the capitals `A`–`Z`,
/// and the Kelvin sign `K`, which lower-cases to `k`. Every other character
/// is kept: no other one lower-cases to a letter that a keyword could match
/// at its place (`İ` lower-cases to `i` and a combining dot, and no keyword
/// ends in `i`).
pub open spec fn keyword_lower(c: char) -> char {
    if 'A' <= c <= 'Z' {
        ((c as u32) + 32) as char
    } else if c == '\u{212A}' {
        'k'
    } else {
        c
    }
}

/// `word` starts with the lower-case keyword `kw`, ignoring case.
pub open spec fn starts_ci(word: Seq<char>, kw: Seq<char>) -> bool {
    word.len() >= kw.len() && forall|i: int| 0 <= i < kw.len() ==> keyword_lower(#[trigger] word[i]) == kw[i]
}

/// Words that open a happy commit: new things.
pub open spec fn is_happy_word(w: Seq<char>) -> bool {
    starts_ci(w, "feat"@) || starts_ci(w, "add"@) || starts_ci(w, "improve"@) || starts_ci(w, "enhance"@)
        || starts_ci(w, "new"@) || starts_ci(w, "create"@) || starts_ci(w, "implement"@) || starts_ci(w, "support"@)
}

/// Words that open a stressed commit: fixes.
pub open spec fn is_stressed_word(w: Seq<char>) -> bool {
    starts_ci(w, "fix"@) || starts_ci(w, "hotfix"@) || starts_ci(w, "urgent"@) || starts_ci(w, "bug"@)
        || starts_ci(w, "patch"@) || starts_ci(w, "resolve"@)
}

/// Words that open a cleanup commit.
pub open spec fn is_cleanup_word(w: Seq<char>) -> bool {
    starts_ci(w, "refactor"@) || starts_ci(w, "clean"@) || starts_ci(w, "reorganize"@) || starts_ci(w, "simplify"@)
        || starts_ci(w, "rename"@) || starts_ci(w, "tidy"@) || starts_ci(w, "format"@) || starts_ci(w, "style"@)
}

/// Words that open a scary commit: things taken back or away.
pub open spec fn is_scary_word(w: Seq<char>) -> bool {
    starts_ci(w, "revert"@) || starts_ci(w, "rollback"@) || starts_ci(w, "remove"@) || starts_ci(w, "delete"@)
        || starts_ci(w, "drop"@) || starts_ci(w, "deprecate"@)
}

/// The mood of a commit message, read from its first word; the lists are
/// tried in the order happy, stressed, cleanup, scary.
pub open spec fn mood_of(message: Seq<char>) -> Option<Mood> {
    let w = first_word(message);
    if is_happy_word(w) {
        Some(Mood::Happy)
    } else if is_stressed_word(w) {
        Some(Mood::Stressed)
    } else if is_cleanup_word(w) {
        Some(Mood::Cleanup)
    } else if is_scary_word(w) {
        Some(Mood::Scary)
    } else {
        None
    }
}

/// The keyword lists, as data: the words that open a commit of each mood.
pub open spec fn mood_keywords(m: Mood) -> Seq<Seq<char>> {
    match m {
        Mood::Happy => seq!["feat"@, "add"@, "improve"@, "enhance"@, "new"@, "create"@, "implement"@, "support"@],
        Mood::Stressed => seq!["fix"@, "hotfix"@, "urgent"@, "bug"@, "patch"@, "resolve"@],
        Mood::Cleanup => seq!["refactor"@, "clean"@, "reorganize"@, "simplify"@, "rename"@, "tidy"@, "format"@, "style"@],
        Mood::Scary => seq!["revert"@, "rollback"@, "remove"@, "delete"@, "drop"@, "deprecate"@],
    }
}

/// The word `w` starts, ignoring case, with some keyword of the mood `m`.
pub open spec fn opens_with_keyword_of(w: Seq<char>, m: Mood) -> bool {
    exists|i: int| 0 <= i < mood_keywords(m).len() && starts_ci(w, #[trigger] mood_keywords(m)[i])
}

proof fn lemma_happy_words(w: Seq<char>)
    ensures
        is_happy_word(w) <==> opens_with_keyword_of(w, Mood::Happy),
{
    let ks = mood_keywords(Mood::Happy);
    assert(ks[0] == "feat"@ && ks[1] == "add"@ && ks[2] == "improve"@ && ks[3] == "enhance"@);
    assert(ks[4] == "new"@ && ks[5] == "create"@ && ks[6] == "implement"@ && ks[7] == "support"@);
    if opens_with_keyword_of(w, Mood::Happy) {
        let i = choose|i: int| 0 <= i < ks.len() && starts_ci(w, #[trigger] ks[i]);
        assert(0 <= i < 8);
    }
}

proof fn lemma_stressed_words(w: Seq<char>)
    ensures
        is_stressed_word(w) <==> opens_with_keyword_of(w, Mood::Stressed),
{
    let ks = mood_keywords(Mood::Stressed);
    assert(ks[0] == "fix"@ && ks[1] == "hotfix"@ && ks[2] == "urgent"@);
    assert(ks[3] == "bug"@ && ks[4] == "patch"@ && ks[5] == "resolve"@);
    if opens_with_keyword_of(w, Mood::Stressed) {
        let i = choose|i: int| 0 <= i < ks.len() && starts_ci(w, #[trigger] ks[i]);
        assert(0 <= i < 6);
    }
}

proof fn lemma_cleanup_words(w: Seq<char>)
    ensures
        is_cleanup_word(w) <==> opens_with_keyword_of(w, Mood::Cleanup),
{
    let ks = mood_keywords(Mood::Cleanup);
    assert(ks[0] == "refactor"@ && ks[1] == "clean"@ && ks[2] == "reorganize"@ && ks[3] == "simplify"@);
    assert(ks[4] == "rename"@ && ks[5] == "tidy"@ && ks[6] == "format"@ && ks[7] == "style"@);
    if opens_with_keyword_of(w, Mood::Cleanup) {
        let i = choose|i: int| 0 <= i < ks.len() && starts_ci(w, #[trigger] ks[i]);
        assert(0 <= i < 8);
    }
}

proof fn lemma_scary_words(w: Seq<char>)
    ensures
        is_scary_word(w) <==> opens_with_keyword_of(w, Mood::Scary),
{
    let ks = mood_keywords(Mood::Scary);
    assert(ks[0] == "revert"@ && ks[1] == "rollback"@ && ks[2] == "remove"@);
    assert(ks[3] == "delete"@ && ks[4] == "drop"@ && ks[5] == "deprecate"@);
    if opens_with_keyword_of(w, Mood::Scary) {
        let i = choose|i: int| 0 <= i < ks.len() && starts_ci(w, #[trigger] ks[i]);
        assert(0 <= i < 6);
    }
}

/// A message's mood is that of the first keyword list, in the order happy,
/// stressed, cleanup, scary, with a keyword that its first word starts
/// with (ignoring case); a message whose first word starts with no keyword
/// has no mood.
pub proof fn lemma_mood_follows_keyword_lists(message: Seq<char>)
    ensures
        mood_of(message) == (if opens_with_keyword_of(first_word(message), Mood::Happy) {
            Some(Mood::Happy)
        } else if opens_with_keyword_of(first_word(message), Mood::Stressed) {
            Some(Mood::Stressed)
        } else if opens_with_keyword_of(first_word(message), Mood::Cleanup) {
            Some(Mood::Cleanup)
        } else if opens_with_keyword_of(first_word(message), Mood::Scary) {
            Some(Mood::Scary)
        } else {
            None
        }),
{
    let w = first_word(message);
    lemma_happy_words(w);
    lemma_stressed_words(w);
    lemma_cleanup_words(w);
    lemma_scary_words(w);
}

/// The name of a mood, as `classify_message` gives it.
pub open spec fn mood_name(m: Mood) -> Seq<char> {
    match m {
        Mood::Happy => "happy"@,
        Mood::Stressed => "stressed"@,
        Mood::Cleanup => "cleanup"@,
        Mood::Scary => "scary"@,
    }
}

fn is_space_char(c: char) -> (b: bool)
    ensures
        b == is_space(c),
{
    let u = c as u32;
    (9 <= u && u <= 13) || u == 32 || u == 0x85 || u == 0xA0 || u == 0x1680 || (0x2000 <= u && u <= 0x200A)
        || u == 0x2028 || u == 0x2029 || u == 0x202F || u == 0x205F || u == 0x3000
}

proof fn lemma_leading_spaces(s: Seq<char>, i: int)
    requires
        0 <= i <= s.len(),
        forall|k: int| 0 <= k < i ==> is_space(#[trigger] s[k]),
        i == s.len() || !is_space(s[i]),
    ensures
        leading_spaces(s) == i,
    decreases i,
{
    if i > 0 {
        lemma_leading_spaces(s.drop_first(), i - 1);
    }
}

proof fn lemma_word_length(s: Seq<char>, i: int)
    requires
        0 <= i <= s.len(),
        forall|k: int| 0 <= k < i ==> !is_space(#[trigger] s[k]),
        i == s.len() || is_space(s[i]),
    ensures
        word_length(s) == i,
    decreases i,
{
    if i > 0 {
        lemma_word_length(s.drop_first(), i - 1);
    }
}

/// Where the first word of `message` starts and ends.
fn first_word_bounds(message: &str) -> (bounds: (usize, usize))
    ensures
        bounds.0 <= bounds.1 <= message@.len(),
        message@.subrange(bounds.0 as int, bounds.1 as int) == first_word(message@),
{
    let n = message.unicode_len();
    let mut start: usize = 0;
    while start < n && is_space_char(message.get_char(start))
        invariant
            n == message@.len(),
            start <= n,
            forall|k: int| 0 <= k < start ==> is_space(#[trigger] message@[k]),
        decreases n - start,
    {
        start = start + 1;
    }
    proof {
        lemma_leading_spaces(message@, start as int);
    }
    let mut end: usize = start;
    while end < n && !is_space_char(message.get_char(end))
        invariant
            n == message@.len(),
            start <= end <= n,
            forall|k: int| start <= k < end ==> !is_space(#[trigger] message@[k]),
        decreases n - end,
    {
        end = end + 1;
    }
    proof {
        let rest = message@.skip(start as int);
        assert forall|k: int| 0 <= k < end - start implies !is_space(#[trigger] rest[k]) by {
            assert(rest[k] == message@[start + k]);
        }
        if end < n {
            assert(rest[end - start] == message@[end as int]);
        }
        lemma_word_length(rest, end - start);
        assert(rest.take(end - start) =~= message@.subrange(start as int, end as int));
    }
    (start, end)
}

fn lower_char(c: char) -> (l: char)
    ensures
        l == keyword_lower(c),
{
    if 'A' <= c && c <= 'Z' {
        ((c as u8) + 32) as char
    } else if c == '\u{212A}' {
        'k'
    } else {
        c
    }
}

/// Whether the word `message[start..end]` starts with `kw`, ignoring case.
fn word_starts_with(message: &str, start: usize, end: usize, kw: &str) -> (b: bool)
    requires
        start <= end <= message@.len(),
    ensures
        b == starts_ci(message@.subrange(start as int, end as int), kw@),
{
    let ghost w = message@.subrange(start as int, end as int);
    let m = kw.unicode_len();
    if end - start < m {
        return false;
    }
    let mut i: usize = 0;
    while i < m
        invariant
            m == kw@.len(),
            start <= end <= message@.len(),
            end - start >= m,
            i <= m,
            w == message@.subrange(start as int, end as int),
            forall|k: int| 0 <= k < i ==> keyword_lower(#[trigger] w[k]) == kw@[k],
        decreases m - i,
    {
        let c = lower_char(message.get_char(start + i));
        if c != kw.get_char(i) {
            assert(w[i as int] == message@[start + i]);
            return false;
        }
        assert(w[i as int] == message@[start + i]);
        i = i + 1;
    }
    true
}

/// The mood of a commit message.
pub fn commit_mood(message: &str) -> (mood: Option<Mood>)
    ensures
        mood == mood_of(message@),
{
    let (s, e) = first_word_bounds(message);
    if word_starts_with(message, s, e, "feat") || word_starts_with(message, s, e, "add")
        || word_starts_with(message, s, e, "improve") || word_starts_with(message, s, e, "enhance")
        || word_starts_with(message, s, e, "new") || word_starts_with(message, s, e, "create")
        || word_starts_with(message, s, e, "implement") || word_starts_with(message, s, e, "support") {
        return Some(Mood::Happy);
    }
    if word_starts_with(message, s, e, "fix") || word_starts_with(message, s, e, "hotfix")
        || word_starts_with(message, s, e, "urgent") || word_starts_with(message, s, e, "bug")
        || word_starts_with(message, s, e, "patch") || word_starts_with(message, s, e, "resolve") {
        return Some(Mood::Stressed);
    }
    if word_starts_with(message, s, e, "refactor") || word_starts_with(message, s, e, "clean")
        || word_starts_with(message, s, e, "reorganize") || word_starts_with(message, s, e, "simplify")
        || word_starts_with(message, s, e, "rename") || word_starts_with(message, s, e, "tidy")
        || word_starts_with(message, s, e, "format") || word_starts_with(message, s, e, "style") {
        return Some(Mood::Cleanup);
    }
    if word_starts_with(message, s, e, "revert") || word_starts_with(message, s, e, "rollback")
        || word_starts_with(message, s, e, "remove") || word_starts_with(message, s, e, "delete")
        || word_starts_with(message, s, e, "drop") || word_starts_with(message, s, e, "deprecate") {
        return Some(Mood::Scary);
    }
    None
}

/// Classifies a commit message by its first word: `"happy"`, `"stressed"`,
/// `"cleanup"`, `"scary"`, or `None` when no keyword list matches.
///
/// A word matches a keyword when it starts with it, ignoring case.
pub fn classify_message(message: &str) -> (class: Option<&'static str>)
    ensures
        match mood_of(message@) {
            Some(m) => class is Some && class->0@ == mood_name(m),
            None => class is None,
        },
{
    match commit_mood(message) {
        Some(Mood::Happy) => Some("happy"),
        Some(Mood::Stressed) => Some("stressed"),
        Some(Mood::Cleanup) => Some("cleanup"),
        Some(Mood::Scary) => Some("scary"),
        None => None,
    }
}

/// How many commits show each mood, out of `total_commits`; a mood's share
/// of the commits is its count over `total_commits`.
#[derive(Debug, Clone, Copy, PartialEq, Eq, Structural)]
pub struct MoodStats {
    pub happy: u32,
    pub stressed: u32,
    pub cleanup: u32,
    pub scary: u32,
    pub other: u32,
    pub total_commits: u32,
}

/// The number of commits of `cs` whose message has the mood `m` (`None`
/// for messages that match no list).
pub open spec fn mood_count(cs: Seq<CommitData>, m: Option<Mood>) -> nat
    decreases cs.len(),
{
    if cs.len() == 0 {
        0
    } else {
        mood_count(cs.drop_last(), m) + (if mood_of(cs.last().message@) == m { 1nat } else { 0nat })
    }
}

proof fn lemma_mood_counts_add_up(cs: Seq<CommitData>)
    ensures
        mood_count(cs, Some(Mood::Happy)) + mood_count(cs, Some(Mood::Stressed)) + mood_count(cs, Some(Mood::Cleanup))
            + mood_count(cs, Some(Mood::Scary)) + mood_count(cs, None) == cs.len(),
    decreases cs.len(),
{
    if cs.len() > 0 {
        lemma_mood_counts_add_up(cs.drop_last());
    }
}

/// `counts` holds, for each mood, the number of commits of `cs` that show it.
pub open spec fn is_mood_count(counts: MoodStats, cs: Seq<CommitData>) -> bool {
    &&& counts.total_commits == cs.len()
    &&& counts.happy == mood_count(cs, Some(Mood::Happy))
    &&& counts.stressed == mood_count(cs, Some(Mood::Stressed))
    &&& counts.cleanup == mood_count(cs, Some(Mood::Cleanup))
    &&& counts.scary == mood_count(cs, Some(Mood::Scary))
    &&& counts.other == mood_count(cs, None)
}

/// Counts the moods of the commit messages.
///
/// Every commit falls in exactly one class, so the five counts add up to
/// `total_commits`, the number of commits.
pub fn analyze_mood(commits: &[CommitData]) -> (counts: MoodStats)
    requires
        commits@.len() <= u32::MAX,
    ensures
        is_mood_count(counts, commits@),
        counts.happy + counts.stressed + counts.cleanup + counts.scary + counts.other == counts.total_commits,
{
    let ghost cs = commits@;
    let mut happy: u32 = 0;
    let mut stressed: u32 = 0;
    let mut cleanup: u32 = 0;
    let mut scary: u32 = 0;
    let mut i: usize = 0;
    while i < commits.len()
        invariant
            cs == commits@,
            cs.len() <= u32::MAX,
            i <= cs.len(),
            happy == mood_count(cs.take(i as int), Some(Mood::Happy)),
            stressed == mood_count(cs.take(i as int), Some(Mood::Stressed)),
            cleanup == mood_count(cs.take(i as int), Some(Mood::Cleanup)),
            scary == mood_count(cs.take(i as int), Some(Mood::Scary)),
            happy + stressed + cleanup + scary <= i,
        decreases cs.len() - i,
    {
        proof {
            assert(cs.take(i + 1).drop_last() =~= cs.take(i as int));
            assert(cs.take(i + 1).last() == cs[i as int]);
        }
        match commit_mood(commits[i].message.as_str()) {
            Some(Mood::Happy) => happy = happy + 1,
            Some(Mood::Stressed) => stressed = stressed + 1,
            Some(Mood::Cleanup) => cleanup = cleanup + 1,
            Some(Mood::Scary) => scary = scary + 1,
            None => {},
        }
        i = i + 1;
    }
    proof {
        assert(cs.take(i as int) =~= cs);
        lemma_mood_counts_add_up(cs);
    }
    let total = commits.len() as u32;
    let other = total - (happy + stressed + cleanup + scary);
    MoodStats { happy, stressed, cleanup, scary, other, total_commits: total }
}

} // verus!
