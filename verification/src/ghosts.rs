use vstd::prelude::*;
use vstd::hash_map::StringHashMap;
use crate::changes::changes_path;
use crate::clock::{clock_reading, current_moment, Moment};
use crate::cover::{heaviest_first, is_heaviest_first};
use crate::model::{CommitData, FileChange};

verus! {

/// A file that no commit of the period has touched for a long time.
///
/// `last_touched` is the author time, in seconds since the Unix epoch, of
/// the last commit that touched the file (0, the epoch itself, when none
/// did); `days_ago` is how many whole days lie between then and now.
#[derive(Debug, Clone)]
pub struct GhostFile {
    pub path: String,
    pub last_touched: i64,
    pub days_ago: u64,
}

/// The latest of an earlier latest time and, if `touched`, the time `ts`.
pub open spec fn merge_touch(prev: Option<i64>, touched: bool, ts: i64) -> Option<i64> {
    if touched {
        match prev {
            Some(t) => Some(if ts > t { ts } else { t }),
            None => Some(ts),
        }
    } else {
        prev
    }
}

/// The author time of the latest commit of `cs` that changes `path`.
pub open spec fn last_touch(cs: Seq<CommitData>, path: Seq<char>) -> Option<i64>
    decreases cs.len(),
{
    if cs.len() == 0 {
        None
    } else {
        merge_touch(last_touch(cs.drop_last(), path), changes_path(cs.last().files_changed@, path), cs.last().timestamp)
    }
}

/// When `path` was last touched: its latest commit, or the Unix epoch.
pub open spec fn touched_at(cs: Seq<CommitData>, path: Seq<char>) -> i64 {
    match last_touch(cs, path) {
        Some(t) => t,
        None => 0,
    }
}

/// The threshold as the signed day count that `threshold_days as i64`
/// gives: counts past `i64::MAX` wrap round to negative ones.
pub open spec fn threshold_span(threshold_days: u64) -> int {
    if threshold_days <= i64::MAX {
        threshold_days as int
    } else {
        threshold_days as int - 0x1_0000_0000_0000_0000
    }
}

/// More than the threshold's days lie between `touched` and `now`.
pub open spec fn is_stale(now: Moment, touched: i64, threshold_days: u64) -> bool {
    let age = now.secs - touched;
    let limit = threshold_span(threshold_days) * 86400;
    age > limit || (age == limit && now.nanos > 0)
}

/// The whole days between `touched` and `now`, counted toward zero: a
/// negative count when `touched` lies after `now`.
pub open spec fn days_between(now: Moment, touched: i64) -> int {
    let secs = now.secs - touched;
    let whole = if secs < 0 && now.nanos > 0 { secs + 1 } else { secs };
    if whole >= 0 {
        whole / 86400
    } else {
        -((-whole) / 86400)
    }
}

/// A day count as the `u64` that Rust's `as` makes of it (a negative count
/// wraps round).
pub open spec fn days_as_u64(days: int) -> u64 {
    if days >= 0 {
        days as u64
    } else {
        (days + 0x1_0000_0000_0000_0000) as u64
    }
}

/// The positions in `files` of the files that are ghosts, in order.
pub open spec fn ghost_positions(files: Seq<String>, cs: Seq<CommitData>, threshold_days: u64, now: Moment) -> Seq<int>
    decreases files.len(),
{
    if files.len() == 0 {
        Seq::empty()
    } else {
        let before = ghost_positions(files.drop_last(), cs, threshold_days, now);
        if is_stale(now, touched_at(cs, files.last()@), threshold_days) {
            before.push(files.len() - 1)
        } else {
            before
        }
    }
}

/// The ages in days of the ghosts, in the order of `ghost_positions`.
pub open spec fn ghost_ages(files: Seq<String>, cs: Seq<CommitData>, threshold_days: u64, now: Moment) -> Seq<u64> {
    ghost_positions(files, cs, threshold_days, now).map_values(
        |i: int| days_as_u64(days_between(now, touched_at(cs, files[i]@))),
    )
}

/// `g` reports the file at position `i` of `files`.
pub open spec fn reports_file(g: GhostFile, files: Seq<String>, cs: Seq<CommitData>, now: Moment, i: int) -> bool {
    &&& g.path@ == files[i]@
    &&& g.last_touched == touched_at(cs, files[i]@)
    &&& g.days_ago == days_as_u64(days_between(now, touched_at(cs, files[i]@)))
}

/// `ghosts` lists every ghost of `files` once, the longest untouched first,
/// and ghosts of the same age in the order of `files`.
pub open spec fn is_ghost_report(
    ghosts: Seq<GhostFile>,
    files: Seq<String>,
    cs: Seq<CommitData>,
    threshold_days: u64,
    now: Moment,
) -> bool {
    exists|ord: Seq<usize>|
        #[trigger] is_heaviest_first(ghost_ages(files, cs, threshold_days, now), ord) && ghosts.len() == ord.len()
            && forall|k: int|
            0 <= k < ghosts.len() ==> reports_file(
                #[trigger] ghosts[k],
                files,
                cs,
                now,
                ghost_positions(files, cs, threshold_days, now)[ord[k] as int],
            )
}

/// The threshold, as a signed day count, is a span that a
/// `chrono::TimeDelta` can hold.
pub open spec fn threshold_fits(threshold_days: u64) -> bool {
    -106_751_991_167 <= threshold_span(threshold_days) <= 106_751_991_167
}

/// Each path's latest touch agrees with the table `m`.
pub open spec fn agrees(m: Map<Seq<char>, i64>, path: Seq<char>, o: Option<i64>) -> bool {
    &&& m.contains_key(path) <==> o is Some
    &&& o is Some ==> m[path] == o->0
}

proof fn lemma_ghost_positions_bounded(files: Seq<String>, cs: Seq<CommitData>, threshold_days: u64, now: Moment)
    ensures
        forall|k: int|
            0 <= k < ghost_positions(files, cs, threshold_days, now).len() ==> 0 <= #[trigger] ghost_positions(files, cs, threshold_days, now)[k]
                < files.len(),
        ghost_positions(files, cs, threshold_days, now).len() <= files.len(),
    decreases files.len(),
{
    if files.len() > 0 {
        lemma_ghost_positions_bounded(files.drop_last(), cs, threshold_days, now);
    }
}

proof fn lemma_ghost_positions_prefix(files: Seq<String>, cs: Seq<CommitData>, threshold_days: u64, now: Moment, i: int)
    requires
        0 <= i < files.len(),
    ensures
        ghost_positions(files.take(i + 1), cs, threshold_days, now) == (if is_stale(now, touched_at(cs, files[i]@), threshold_days) {
            ghost_positions(files.take(i), cs, threshold_days, now).push(i)
        } else {
            ghost_positions(files.take(i), cs, threshold_days, now)
        }),
{
    assert(files.take(i + 1).drop_last() =~= files.take(i));
}

proof fn lemma_ghost_positions_same(files: Seq<String>, other: Seq<String>, cs: Seq<CommitData>, threshold_days: u64, now: Moment)
    requires
        files.len() == other.len(),
        forall|k: int| 0 <= k < files.len() ==> (#[trigger] files[k])@ == other[k]@,
    ensures
        ghost_positions(files, cs, threshold_days, now) == ghost_positions(other, cs, threshold_days, now),
    decreases files.len(),
{
    if files.len() > 0 {
        lemma_ghost_positions_same(files.drop_last(), other.drop_last(), cs, threshold_days, now);
        assert(files.last()@ == other.last()@);
    }
}

/// A file's last touch is its latest change: every commit that changes
/// the file was made no later than its last touch, and the last touch is
/// the time of some commit that changes it (none when no commit does).
pub proof fn lemma_last_touch_is_latest_change(cs: Seq<CommitData>, path: Seq<char>)
    ensures
        forall|k: int, j: int|
            0 <= k < cs.len() && 0 <= j < cs[k].files_changed@.len() && (#[trigger] cs[k].files_changed@[j]).path@ == path
                ==> last_touch(cs, path) is Some && cs[k].timestamp <= last_touch(cs, path)->0,
        last_touch(cs, path) is Some ==> exists|k: int, j: int|
            0 <= k < cs.len() && 0 <= j < cs[k].files_changed@.len() && (#[trigger] cs[k].files_changed@[j]).path@ == path
                && cs[k].timestamp == last_touch(cs, path)->0,
    decreases cs.len(),
{
    if cs.len() > 0 {
        let rest = cs.drop_last();
        let n = cs.len() - 1;
        lemma_last_touch_is_latest_change(rest, path);
        assert(cs[n] == cs.last());
        assert forall|k: int, j: int|
            0 <= k < cs.len() && 0 <= j < cs[k].files_changed@.len() && (#[trigger] cs[k].files_changed@[j]).path@ == path
            implies last_touch(cs, path) is Some && cs[k].timestamp <= last_touch(cs, path)->0 by {
            if k < n {
                assert(rest[k] == cs[k]);
                assert(rest[k].files_changed@[j] == cs[k].files_changed@[j]);
            } else {
                assert(changes_path(cs.last().files_changed@, path)) by {
                    assert(cs.last().files_changed@[j].path@ == path);
                }
            }
        }
        if last_touch(cs, path) is Some {
            if changes_path(cs.last().files_changed@, path) && (last_touch(rest, path) is None || cs.last().timestamp > last_touch(rest, path)->0) {
                let j = choose|j: int| 0 <= j < cs.last().files_changed@.len() && (#[trigger] cs.last().files_changed@[j]).path@ == path;
                assert(cs[n].files_changed@[j].path@ == path);
            } else {
                assert(last_touch(rest, path) is Some);
                let (k, j) = choose|k: int, j: int|
                    0 <= k < rest.len() && 0 <= j < rest[k].files_changed@.len() && (#[trigger] rest[k].files_changed@[j]).path@ == path
                        && rest[k].timestamp == last_touch(rest, path)->0;
                assert(rest[k] == cs[k]);
                assert(cs[k].files_changed@[j].path@ == path);
            }
        }
    }
}

proof fn lemma_ghost_positions_stale(files: Seq<String>, cs: Seq<CommitData>, threshold_days: u64, now: Moment)
    ensures
        forall|m: int|
            0 <= m < ghost_positions(files, cs, threshold_days, now).len() ==> {
                &&& 0 <= #[trigger] ghost_positions(files, cs, threshold_days, now)[m] < files.len()
                &&& is_stale(now, touched_at(cs, files[ghost_positions(files, cs, threshold_days, now)[m]]@), threshold_days)
            },
    decreases files.len(),
{
    if files.len() > 0 {
        let rest = files.drop_last();
        lemma_ghost_positions_stale(rest, cs, threshold_days, now);
        let before = ghost_positions(rest, cs, threshold_days, now);
        let gp = ghost_positions(files, cs, threshold_days, now);
        assert forall|m: int| 0 <= m < gp.len() implies {
            &&& 0 <= #[trigger] gp[m] < files.len()
            &&& is_stale(now, touched_at(cs, files[gp[m]]@), threshold_days)
        } by {
            if m < before.len() {
                assert(gp[m] == before[m]);
                assert(files[before[m]] == rest[before[m]]);
            } else {
                assert(gp[m] == files.len() - 1);
            }
        }
    }
}

/// No reported ghost was touched within the threshold: every commit that
/// changes a reported file lies more than the threshold's days before
/// `now`, and no later than the file's reported last touch.
pub proof fn lemma_ghosts_untouched_within_threshold(
    ghosts: Seq<GhostFile>,
    files: Seq<String>,
    cs: Seq<CommitData>,
    threshold_days: u64,
    now: Moment,
)
    requires
        is_ghost_report(ghosts, files, cs, threshold_days, now),
    ensures
        forall|i: int, k: int, j: int|
            0 <= i < ghosts.len() && 0 <= k < cs.len() && 0 <= j < cs[k].files_changed@.len()
                && (#[trigger] cs[k].files_changed@[j]).path@ == (#[trigger] ghosts[i]).path@ ==> {
                &&& is_stale(now, cs[k].timestamp, threshold_days)
                &&& cs[k].timestamp <= ghosts[i].last_touched
            },
{
    let ord = choose|ord: Seq<usize>|
        #[trigger] is_heaviest_first(ghost_ages(files, cs, threshold_days, now), ord) && ghosts.len() == ord.len()
            && forall|k: int|
            0 <= k < ghosts.len() ==> reports_file(
                #[trigger] ghosts[k],
                files,
                cs,
                now,
                ghost_positions(files, cs, threshold_days, now)[ord[k] as int],
            );
    let gp = ghost_positions(files, cs, threshold_days, now);
    lemma_ghost_positions_stale(files, cs, threshold_days, now);
    assert forall|i: int, k: int, j: int|
        0 <= i < ghosts.len() && 0 <= k < cs.len() && 0 <= j < cs[k].files_changed@.len()
            && (#[trigger] cs[k].files_changed@[j]).path@ == (#[trigger] ghosts[i]).path@ implies {
            &&& is_stale(now, cs[k].timestamp, threshold_days)
            &&& cs[k].timestamp <= ghosts[i].last_touched
        } by {
        let pos = gp[ord[i] as int];
        assert(ord[i] < ghost_ages(files, cs, threshold_days, now).len());
        assert(reports_file(ghosts[i], files, cs, now, pos));
        let path = files[pos]@;
        lemma_last_touch_is_latest_change(cs, path);
        assert(last_touch(cs, path) is Some);
        assert(is_stale(now, touched_at(cs, path), threshold_days));
    }
}

/// For every path, the latest author time of a commit that changes it.
fn latest_touches(commits: &[CommitData]) -> (table: StringHashMap<i64>)
    ensures
        forall|p: Seq<char>| #[trigger] agrees(table@, p, last_touch(commits@, p)),
{
    let ghost cs = commits@;
    let mut table: StringHashMap<i64> = StringHashMap::new();
    let mut i: usize = 0;
    while i < commits.len()
        invariant
            cs == commits@,
            i <= cs.len(),
            forall|p: Seq<char>| #[trigger] agrees(table@, p, last_touch(cs.take(i as int), p)),
        decreases cs.len() - i,
    {
        let c = &commits[i];
        let ts = c.timestamp;
        let files = &c.files_changed;
        let ghost before = cs.take(i as int);
        proof {
            assert(cs.take(i + 1).drop_last() =~= before);
            assert(cs.take(i + 1).last() == cs[i as int]);
        }
        let mut j: usize = 0;
        while j < files.len()
            invariant
                cs == commits@,
                i < cs.len(),
                files@ == cs[i as int].files_changed@,
                ts == cs[i as int].timestamp,
                before == cs.take(i as int),
                j <= files@.len(),
                forall|p: Seq<char>|
                    #[trigger] agrees(table@, p, merge_touch(last_touch(before, p), changes_path(files@.take(j as int), p), ts)),
            decreases files@.len() - j,
        {
            let f: &FileChange = &files[j];
            let ghost fp = f.path@;
            let ghost old_table = table@;
            let next: i64 = match table.get(f.path.as_str()) {
                Some(t) => if ts > *t { ts } else { *t },
                None => ts,
            };
            table.insert(f.path.clone(), next);
            proof {
                assert forall|p: Seq<char>|
                    #[trigger] agrees(table@, p, merge_touch(last_touch(before, p), changes_path(files@.take(j + 1), p), ts)) by {
                    assert(agrees(old_table, p, merge_touch(last_touch(before, p), changes_path(files@.take(j as int), p), ts)));
                    assert(files@.take(j + 1)[j as int] == files@[j as int]);
                    if p == fp {
                        assert(changes_path(files@.take(j + 1), p));
                    } else {
                        assert(changes_path(files@.take(j + 1), p) == changes_path(files@.take(j as int), p)) by {
                            if changes_path(files@.take(j + 1), p) {
                                let k = choose|k: int| 0 <= k < files@.take(j + 1).len() && (#[trigger] files@.take(j + 1)[k]).path@ == p;
                                assert(files@.take(j as int)[k] == files@.take(j + 1)[k]);
                            }
                            if changes_path(files@.take(j as int), p) {
                                let k = choose|k: int| 0 <= k < files@.take(j as int).len() && (#[trigger] files@.take(j as int)[k]).path@ == p;
                                assert(files@.take(j as int)[k] == files@.take(j + 1)[k]);
                            }
                        }
                    }
                }
            }
            j = j + 1;
        }
        proof {
            assert(files@.take(j as int) =~= files@);
            assert forall|p: Seq<char>| #[trigger] agrees(table@, p, last_touch(cs.take(i + 1), p)) by {
                assert(agrees(table@, p, merge_touch(last_touch(before, p), changes_path(files@.take(j as int), p), ts)));
            }
        }
        i = i + 1;
    }
    proof {
        assert(cs.take(i as int) =~= cs);
    }
    table
}

/// The files untouched for more than `threshold_days` days at `now`, the
/// longest untouched first.
///
/// A file's last touch is the latest author time among the commits that
/// change it; a file that no commit changes counts as last touched at the
/// Unix epoch. Ghosts of the same age keep the order of `all_files`.
///
/// The threshold is read as an `i64`, as `threshold_days as i64` reads it:
/// a count past `i64::MAX` stands for a negative number of days. Ages are
/// whole days counted toward zero, kept as `u64` the same way.
pub fn detect_ghosts_at(
    commits: &[CommitData],
    all_files: &[String],
    threshold_days: u64,
    now: Moment,
) -> (ghosts: Vec<GhostFile>)
    requires
        threshold_fits(threshold_days),
    ensures
        is_ghost_report(ghosts@, all_files@, commits@, threshold_days, now),
{
    let ghost cs = commits@;
    let ghost files = all_files@;
    let table = latest_touches(commits);
    let span: i128 = if threshold_days <= 9_223_372_036_854_775_807 {
        threshold_days as i128
    } else {
        threshold_days as i128 - 18_446_744_073_709_551_616
    };
    let limit: i128 = span * 86400;
    let mut found: Vec<GhostFile> = Vec::new();
    let mut ages: Vec<u64> = Vec::new();
    let mut i: usize = 0;
    while i < all_files.len()
        invariant
            cs == commits@,
            files == all_files@,
            i <= files.len(),
            limit == threshold_span(threshold_days) * 86400,
            threshold_fits(threshold_days),
            forall|p: Seq<char>| #[trigger] agrees(table@, p, last_touch(cs, p)),
            found@.len() == ghost_positions(files.take(i as int), cs, threshold_days, now).len(),
            ages@ == ghost_ages(files.take(i as int), cs, threshold_days, now),
            forall|k: int|
                0 <= k < found@.len() ==> reports_file(
                    #[trigger] found@[k],
                    files,
                    cs,
                    now,
                    ghost_positions(files.take(i as int), cs, threshold_days, now)[k],
                ),
        decreases files.len() - i,
    {
        let path = &all_files[i];
        let touched: i64 = match table.get(path.as_str()) {
            Some(t) => *t,
            None => 0,
        };
        proof {
            assert(agrees(table@, path@, last_touch(cs, path@)));
            assert(touched == touched_at(cs, files[i as int]@));
            lemma_ghost_positions_prefix(files, cs, threshold_days, now, i as int);
            lemma_ghost_positions_bounded(files.take(i as int), cs, threshold_days, now);
            lemma_ghost_positions_same(files.take(i as int), files.take(i + 1).take(i as int), cs, threshold_days, now);
        }
        let age: i128 = now.secs as i128 - touched as i128;
        let ghost gp = ghost_positions(files.take(i as int), cs, threshold_days, now);
        if age > limit || (age == limit && now.nanos > 0) {
            let whole: i128 = if age < 0 && now.nanos > 0 { age + 1 } else { age };
            let signed_days: i128 = if whole >= 0 { whole / 86400 } else { -((-whole) / 86400) };
            let days: u64 = if signed_days >= 0 {
                signed_days as u64
            } else {
                (signed_days + 18_446_744_073_709_551_616) as u64
            };
            found.push(GhostFile { path: path.clone(), last_touched: touched, days_ago: days });
            ages.push(days);
            proof {
                let gp2 = gp.push(i as int);
                assert(ghost_positions(files.take(i + 1), cs, threshold_days, now) == gp2);
                assert forall|k: int| 0 <= k < found@.len() implies reports_file(#[trigger] found@[k], files, cs, now, gp2[k]) by {
                    if k < gp.len() {
                        assert(gp2[k] == gp[k]);
                    } else {
                        assert(gp2[k] == i);
                    }
                }
                assert(ages@ =~= ghost_ages(files.take(i + 1), cs, threshold_days, now)) by {
                    assert forall|k: int| 0 <= k < gp.len() implies 0 <= #[trigger] gp[k] < i by {}
                    assert forall|k: int| 0 <= k < ages@.len() implies ages@[k] == ghost_ages(files.take(i + 1), cs, threshold_days, now)[k] by {
                        if k < gp.len() {
                            assert(files.take(i + 1)[gp[k]] == files.take(i as int)[gp[k]]);
                        }
                    }
                }
            }
        } else {
            proof {
                assert(ghost_positions(files.take(i + 1), cs, threshold_days, now) == gp);
                assert(ages@ =~= ghost_ages(files.take(i + 1), cs, threshold_days, now)) by {
                    assert forall|k: int| 0 <= k < ages@.len() implies ages@[k] == ghost_ages(files.take(i + 1), cs, threshold_days, now)[k] by {
                        assert(files.take(i + 1)[gp[k]] == files.take(i as int)[gp[k]]);
                    }
                }
            }
        }
        i = i + 1;
    }
    proof {
        assert(files.take(i as int) =~= files);
    }
    let ord = heaviest_first(&ages);
    let mut ghosts: Vec<GhostFile> = Vec::new();
    let mut k: usize = 0;
    while k < ord.len()
        invariant
            k <= ord@.len(),
            is_heaviest_first(ages@, ord@),
            ages@.len() == found@.len(),
            ghosts@.len() == k,
            forall|a: int| 0 <= a < k ==> #[trigger] ghosts@[a] == found@[ord@[a] as int],
        decreases ord@.len() - k,
    {
        let g = &found[ord[k]];
        ghosts.push(GhostFile { path: g.path.clone(), last_touched: g.last_touched, days_ago: g.days_ago });
        k = k + 1;
    }
    proof {
        let gp = ghost_positions(files, cs, threshold_days, now);
        assert forall|a: int| 0 <= a < ghosts@.len() implies reports_file(#[trigger] ghosts@[a], files, cs, now, gp[ord@[a] as int]) by {
            assert(ghosts@[a] == found@[ord@[a] as int]);
        }
        assert(is_heaviest_first(ghost_ages(files, cs, threshold_days, now), ord@));
    }
    ghosts
}

/// The files untouched for more than `threshold_days` days, measured from
/// the current time, the longest untouched first.
///
/// Only the time is read from the system clock; for the moment read, the
/// result is what `detect_ghosts_at` gives.
pub fn detect_ghosts(commits: &[CommitData], all_files: &[String], threshold_days: u64) -> (ghosts: Vec<GhostFile>)
    requires
        threshold_fits(threshold_days),
    ensures
        exists|now: Moment| #[trigger] clock_reading(now) && is_ghost_report(ghosts@, all_files@, commits@, threshold_days, now),
{
    let now = current_moment();
    detect_ghosts_at(commits, all_files, threshold_days, now)
}

} // verus!
