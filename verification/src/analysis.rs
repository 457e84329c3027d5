use vstd::prelude::*;
use crate::activity::{calc_monthly_activity, is_monthly_report, timestamps_representable, MonthlyActivity};
use crate::authors::{
    calculate_bus_factor, collect_author_stats, is_author_report, is_bus_factor, lemma_author_stats_add_up,
    lemma_weights_of_summaries, total_added, total_removed, added_by, removed_by, commits_by, author_totals_fit,
    has_authored, listed_commits, files_added, files_removed, lemma_files_prefix, lines_added_in, lines_removed_in,
    bus_factor_inputs_fit, AuthorStats,
};
use crate::ghosts::{detect_ghosts_at, is_ghost_report, GhostFile};
use crate::hotspots::{detect_hotspots, is_hotspot_report, path_counts_fit, path_counts_ok, Hotspot};
use crate::clock::{clock_reading, current_moment, Moment, MAX_TIMESTAMP, MIN_TIMESTAMP};
use crate::partition::sum_all;
use crate::model::{CommitData, FileChange, VibeError};
use crate::mood::{analyze_mood, is_mood_count, MoodStats};

verus! {

/// Everything the vibe check learns from a history.
#[derive(Debug, Clone)]
pub struct AnalysisResult {
    pub repo_name: String,
    pub period_label: String,
    pub total_commits: u32,
    pub total_files: u32,
    pub hotspots: Vec<Hotspot>,
    pub ghosts: Vec<GhostFile>,
    pub mood: MoodStats,
    pub authors: Vec<AuthorStats>,
    pub bus_factor: u32,
    pub monthly_activity: Vec<MonthlyActivity>,
    pub commits: Vec<CommitData>,
}

/// How many hotspots the analysis keeps.
pub const HOTSPOT_LIMIT: usize = 10;

/// How many days untouched make a ghost file.
pub const GHOST_DAYS: u64 = 365;

/// The counts that an analysis keeps in `u32` fields fit them, and every
/// commit time is a date that `chrono` can show.
pub open spec fn analysis_inputs_fit(cs: Seq<CommitData>, files: Seq<String>) -> bool {
    &&& cs.len() <= u32::MAX
    &&& files.len() <= u32::MAX
    &&& total_added(cs) + total_removed(cs) <= u32::MAX
    &&& path_counts_fit(cs)
    &&& timestamps_representable(cs)
}

/// `a` is the analysis of the commits `cs` of a repository with the files
/// `files`, made at `now`.
pub open spec fn is_analysis_of(
    a: AnalysisResult,
    repo_name: Seq<char>,
    period_label: Seq<char>,
    cs: Seq<CommitData>,
    files: Seq<String>,
    now: Moment,
) -> bool {
    &&& a.repo_name@ == repo_name
    &&& a.period_label@ == period_label
    &&& a.total_commits == cs.len()
    &&& a.total_files == files.len()
    &&& is_hotspot_report(a.hotspots@, cs, HOTSPOT_LIMIT)
    &&& is_ghost_report(a.ghosts@, files, cs, GHOST_DAYS, now)
    &&& is_mood_count(a.mood, cs)
    &&& is_author_report(a.authors@, cs)
    &&& is_bus_factor(a.authors@, a.bus_factor)
    &&& is_monthly_report(a.monthly_activity@, cs)
    &&& a.commits@ == cs
}

proof fn lemma_sum_all_prefix(cs: Seq<CommitData>, m: spec_fn(CommitData) -> nat, i: int)
    requires
        0 <= i <= cs.len(),
    ensures
        sum_all(cs.take(i), m) <= sum_all(cs, m),
    decreases cs.len() - i,
{
    if i < cs.len() {
        lemma_sum_all_prefix(cs, m, i + 1);
        assert(cs.take(i + 1).drop_last() =~= cs.take(i));
    } else {
        assert(cs.take(i) =~= cs);
    }
}

/// Whether all lines added and removed, over all commits, add up to at
/// most `u32::MAX`.
fn changed_lines_fit(commits: &[CommitData]) -> (ok: bool)
    ensures
        ok == (total_added(commits@) + total_removed(commits@) <= u32::MAX),
{
    let ghost cs = commits@;
    let mut run: u64 = 0;
    let mut i: usize = 0;
    while i < commits.len()
        invariant
            cs == commits@,
            i <= cs.len(),
            run == total_added(cs.take(i as int)) + total_removed(cs.take(i as int)),
            run <= u32::MAX,
        decreases cs.len() - i,
    {
        let fs = &commits[i].files_changed;
        let ghost base = total_added(cs.take(i as int)) + total_removed(cs.take(i as int));
        proof {
            assert(cs.take(i + 1).drop_last() =~= cs.take(i as int));
            assert(cs.take(i + 1).last() == cs[i as int]);
            assert(total_added(cs.take(i + 1)) == total_added(cs.take(i as int)) + files_added(fs@));
            assert(total_removed(cs.take(i + 1)) == total_removed(cs.take(i as int)) + files_removed(fs@));
            assert(fs@.take(0) =~= Seq::<FileChange>::empty());
        }
        let mut j: usize = 0;
        while j < fs.len()
            invariant
                cs == commits@,
                i < cs.len(),
                fs@ == cs[i as int].files_changed@,
                base == total_added(cs.take(i as int)) + total_removed(cs.take(i as int)),
                total_added(cs.take(i + 1)) + total_removed(cs.take(i + 1)) == base + files_added(fs@) + files_removed(fs@),
                j <= fs@.len(),
                run == base + files_added(fs@.take(j as int)) + files_removed(fs@.take(j as int)),
                run <= u32::MAX,
            decreases fs@.len() - j,
        {
            proof {
                assert(fs@.take(j + 1).drop_last() =~= fs@.take(j as int));
                assert(fs@.take(j + 1).last() == fs@[j as int]);
            }
            run = run + fs[j].additions as u64 + fs[j].deletions as u64;
            if run > 4_294_967_295 {
                proof {
                    lemma_files_prefix(fs@, j + 1);
                    lemma_sum_all_prefix(cs, lines_added_in(), i + 1);
                    lemma_sum_all_prefix(cs, lines_removed_in(), i + 1);
                }
                return false;
            }
            j = j + 1;
        }
        assert(fs@.take(j as int) =~= fs@);
        i = i + 1;
    }
    assert(cs.take(i as int) =~= cs);
    true
}

/// Whether every commit time is a date that `chrono` can show.
fn timestamps_ok(commits: &[CommitData]) -> (ok: bool)
    ensures
        ok == timestamps_representable(commits@),
{
    let mut i: usize = 0;
    while i < commits.len()
        invariant
            i <= commits@.len(),
            forall|k: int| 0 <= k < i ==> MIN_TIMESTAMP <= (#[trigger] commits@[k]).timestamp <= MAX_TIMESTAMP,
        decreases commits@.len() - i,
    {
        let ts = commits[i].timestamp;
        if ts < MIN_TIMESTAMP || ts > MAX_TIMESTAMP {
            return false;
        }
        i = i + 1;
    }
    true
}

/// Whether `analyze` can take these commits and files: every count it
/// keeps in a `u32` fits, and every commit time is a date.
pub fn analysis_inputs_ok(commits: &[CommitData], all_files: &[String]) -> (ok: bool)
    ensures
        ok == analysis_inputs_fit(commits@, all_files@),
{
    commits.len() <= 4_294_967_295 && all_files.len() <= 4_294_967_295 && changed_lines_fit(commits)
        && path_counts_ok(commits) && timestamps_ok(commits)
}

proof fn lemma_author_totals_bounded(cs: Seq<CommitData>, name: Seq<char>)
    ensures
        commits_by(cs, name) <= cs.len(),
        added_by(cs, name) <= total_added(cs),
        removed_by(cs, name) <= total_removed(cs),
    decreases cs.len(),
{
    if cs.len() > 0 {
        lemma_author_totals_bounded(cs.drop_last(), name);
    }
}

proof fn lemma_authored_counts(cs: Seq<CommitData>, name: Seq<char>)
    requires
        has_authored(cs, name),
    ensures
        commits_by(cs, name) >= 1,
    decreases cs.len(),
{
    let k = choose|k: int| 0 <= k < cs.len() && (#[trigger] cs[k]).author@ == name;
    if cs.last().author@ != name {
        let rest = cs.drop_last();
        assert(rest[k] == cs[k]);
        lemma_authored_counts(rest, name);
    }
}

proof fn lemma_summaries_count_commits(stats: Seq<AuthorStats>)
    requires
        forall|i: int| 0 <= i < stats.len() ==> (#[trigger] stats[i]).commits >= 1,
    ensures
        listed_commits(stats) >= stats.len(),
    decreases stats.len(),
{
    if stats.len() > 0 {
        let rest = stats.drop_last();
        assert forall|i: int| 0 <= i < rest.len() implies (#[trigger] rest[i]).commits >= 1 by {
            assert(rest[i] == stats[i]);
        }
        lemma_summaries_count_commits(rest);
        assert(stats.last() == stats[stats.len() - 1]);
    }
}

/// Analyses the commits of a period: hotspots (the ten most changed
/// files), ghost files (untouched for more than 365 days at `now`), commit
/// mood, author statistics, bus factor and monthly activity.
///
/// A period without commits is `NoCommits`.
pub fn analyze(
    repo_name: String,
    period_label: String,
    commits: Vec<CommitData>,
    all_files: Vec<String>,
    now: Moment,
) -> (result: Result<AnalysisResult, VibeError>)
    requires
        analysis_inputs_fit(commits@, all_files@),
    ensures
        commits@.len() == 0 ==> result matches Err(VibeError::NoCommits),
        commits@.len() > 0 ==> (result matches Ok(a) && is_analysis_of(a, repo_name@, period_label@, commits@, all_files@, now)),
{
    if commits.len() == 0 {
        return Err(VibeError::NoCommits);
    }
    let ghost cs = commits@;
    proof {
        assert(author_totals_fit(cs)) by {
            assert forall|k: int| 0 <= k < cs.len() implies {
                &&& commits_by(cs, (#[trigger] cs[k]).author@) <= u32::MAX
                &&& added_by(cs, cs[k].author@) <= u32::MAX
                &&& removed_by(cs, cs[k].author@) <= u32::MAX
            } by {
                lemma_author_totals_bounded(cs, cs[k].author@);
            }
        }
    }
    let total_commits = commits.len() as u32;
    let total_files = all_files.len() as u32;
    let hotspots = detect_hotspots(&commits, HOTSPOT_LIMIT);
    let ghosts = detect_ghosts_at(&commits, &all_files, GHOST_DAYS, now);
    let mood = analyze_mood(&commits);
    let authors = collect_author_stats(&commits);
    proof {
        lemma_author_stats_add_up(cs, authors@);
        lemma_weights_of_summaries(authors@);
        assert(bus_factor_inputs_fit(authors@)) by {
            assert(authors@.len() <= cs.len()) by {
                assert forall|i: int| 0 <= i < authors@.len() implies (#[trigger] authors@[i]).commits >= 1 by {
                    lemma_authored_counts(cs, authors@[i].name@);
                }
                lemma_summaries_count_commits(authors@);
            }
        }
    }
    let bus_factor = calculate_bus_factor(&authors);
    let monthly_activity = calc_monthly_activity(&commits);
    Ok(AnalysisResult {
        repo_name,
        period_label,
        total_commits,
        total_files,
        hotspots,
        ghosts,
        mood,
        authors,
        bus_factor,
        monthly_activity,
        commits,
    })
}

/// Analyses the commits of a period as of the current time, read from the
/// system clock (which decides the ghost files).
///
/// For the moment read, the result is what `analyze` gives.
pub fn analyze_now(
    repo_name: String,
    period_label: String,
    commits: Vec<CommitData>,
    all_files: Vec<String>,
) -> (result: Result<AnalysisResult, VibeError>)
    requires
        analysis_inputs_fit(commits@, all_files@),
    ensures
        commits@.len() == 0 ==> result matches Err(VibeError::NoCommits),
        commits@.len() > 0 ==> (result matches Ok(a) && exists|now: Moment|
            #[trigger] clock_reading(now) && is_analysis_of(a, repo_name@, period_label@, commits@, all_files@, now)),
{
    let now = current_moment();
    analyze(repo_name, period_label, commits, all_files, now)
}

} // verus!
