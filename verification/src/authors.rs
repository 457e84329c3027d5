use vstd::prelude::*;
use crate::cover::{
    heaviest_first, is_heaviest_first, is_min_cover, cover_threshold, smallest_cover, weight_sum,
    lemma_weight_sum_prefix, is_reordering, reordered, lemma_weight_sum_ignores_order, lemma_min_cover_ignores_order,
};
use crate::model::{CommitData, FileChange};
use crate::partition::{lemma_parts_add_up, sum_all, sum_for_key, sum_over_keys};

verus! {

/// What one author contributed over the analysed commits.
#[derive(Debug, Clone)]
pub struct AuthorStats {
    pub name: String,
    pub email: String,
    pub commits: u32,
    pub lines_added: u32,
    pub lines_removed: u32,
}

/// Lines added over a list of file changes.
pub open spec fn files_added(fs: Seq<FileChange>) -> nat
    decreases fs.len(),
{
    if fs.len() == 0 {
        0
    } else {
        files_added(fs.drop_last()) + (fs.last().additions as nat)
    }
}

/// Lines removed over a list of file changes.
pub open spec fn files_removed(fs: Seq<FileChange>) -> nat
    decreases fs.len(),
{
    if fs.len() == 0 {
        0
    } else {
        files_removed(fs.drop_last()) + (fs.last().deletions as nat)
    }
}

/// Some commit of `cs` is by the author called `name`.
pub open spec fn has_authored(cs: Seq<CommitData>, name: Seq<char>) -> bool {
    exists|k: int| 0 <= k < cs.len() && (#[trigger] cs[k]).author@ == name
}

/// The number of commits of `cs` by `name`.
pub open spec fn commits_by(cs: Seq<CommitData>, name: Seq<char>) -> nat
    decreases cs.len(),
{
    if cs.len() == 0 {
        0
    } else {
        commits_by(cs.drop_last(), name) + (if cs.last().author@ == name { 1nat } else { 0nat })
    }
}

/// The lines added by `name` over the commits of `cs`.
pub open spec fn added_by(cs: Seq<CommitData>, name: Seq<char>) -> nat
    decreases cs.len(),
{
    if cs.len() == 0 {
        0
    } else {
        added_by(cs.drop_last(), name) + (if cs.last().author@ == name {
            files_added(cs.last().files_changed@)
        } else {
            0nat
        })
    }
}

/// The lines removed by `name` over the commits of `cs`.
pub open spec fn removed_by(cs: Seq<CommitData>, name: Seq<char>) -> nat
    decreases cs.len(),
{
    if cs.len() == 0 {
        0
    } else {
        removed_by(cs.drop_last(), name) + (if cs.last().author@ == name {
            files_removed(cs.last().files_changed@)
        } else {
            0nat
        })
    }
}

/// The e-mail address on the earliest listed commit of `name`.
pub open spec fn first_email(cs: Seq<CommitData>, name: Seq<char>) -> Seq<char>
    decreases cs.len(),
{
    if cs.len() == 0 {
        Seq::empty()
    } else if has_authored(cs.drop_last(), name) {
        first_email(cs.drop_last(), name)
    } else {
        cs.last().email@
    }
}

/// `s` sums up, correctly, the commits of one author of `cs`.
pub open spec fn is_author_summary(s: AuthorStats, cs: Seq<CommitData>) -> bool {
    &&& has_authored(cs, s.name@)
    &&& s.email@ == first_email(cs, s.name@)
    &&& s.commits as nat == commits_by(cs, s.name@)
    &&& s.lines_added as nat == added_by(cs, s.name@)
    &&& s.lines_removed as nat == removed_by(cs, s.name@)
}

/// Some entry of `stats` is for the author called `name`.
pub open spec fn lists_author(stats: Seq<AuthorStats>, name: Seq<char>) -> bool {
    exists|i: int| 0 <= i < stats.len() && (#[trigger] stats[i]).name@ == name
}

/// Every author's commit count and line totals fit the `u32` fields that
/// hold them.
pub open spec fn author_totals_fit(cs: Seq<CommitData>) -> bool {
    forall|k: int|
        0 <= k < cs.len() ==> {
            &&& commits_by(cs, (#[trigger] cs[k]).author@) <= u32::MAX
            &&& added_by(cs, cs[k].author@) <= u32::MAX
            &&& removed_by(cs, cs[k].author@) <= u32::MAX
        }
}

proof fn lemma_absent_author(cs: Seq<CommitData>, name: Seq<char>)
    requires
        !has_authored(cs, name),
    ensures
        commits_by(cs, name) == 0,
        added_by(cs, name) == 0,
        removed_by(cs, name) == 0,
    decreases cs.len(),
{
    if cs.len() > 0 {
        assert(!has_authored(cs.drop_last(), name)) by {
            if has_authored(cs.drop_last(), name) {
                let k = choose|k: int| 0 <= k < cs.drop_last().len() && (#[trigger] cs.drop_last()[k]).author@ == name;
                assert(cs[k] == cs.drop_last()[k]);
            }
        }
        assert(cs.last() == cs[cs.len() - 1]);
        lemma_absent_author(cs.drop_last(), name);
    }
}

proof fn lemma_totals_prefix(cs: Seq<CommitData>, name: Seq<char>, i: int)
    requires
        0 <= i <= cs.len(),
    ensures
        commits_by(cs.take(i), name) <= commits_by(cs, name),
        added_by(cs.take(i), name) <= added_by(cs, name),
        removed_by(cs.take(i), name) <= removed_by(cs, name),
    decreases cs.len() - i,
{
    if i < cs.len() {
        lemma_totals_prefix(cs, name, i + 1);
        assert(cs.take(i + 1).drop_last() =~= cs.take(i));
    } else {
        assert(cs.take(i) =~= cs);
    }
}

/// Sums the added and removed lines of a list of file changes.
fn sum_file_lines(fs: &Vec<FileChange>) -> (sums: (u64, u64))
    requires
        files_added(fs@) <= u32::MAX,
        files_removed(fs@) <= u32::MAX,
    ensures
        sums.0 as nat == files_added(fs@),
        sums.1 as nat == files_removed(fs@),
{
    let mut added: u64 = 0;
    let mut removed: u64 = 0;
    let mut i: usize = 0;
    while i < fs.len()
        invariant
            i <= fs@.len(),
            added as nat == files_added(fs@.take(i as int)),
            removed as nat == files_removed(fs@.take(i as int)),
            files_added(fs@) <= u32::MAX,
            files_removed(fs@) <= u32::MAX,
        decreases fs@.len() - i,
    {
        proof {
            assert(fs@.take(i + 1).drop_last() =~= fs@.take(i as int));
            lemma_files_prefix(fs@, i + 1);
        }
        added = added + fs[i].additions as u64;
        removed = removed + fs[i].deletions as u64;
        i = i + 1;
    }
    assert(fs@.take(i as int) =~= fs@);
    (added, removed)
}

pub(crate) proof fn lemma_files_prefix(fs: Seq<FileChange>, i: int)
    requires
        0 <= i <= fs.len(),
    ensures
        files_added(fs.take(i)) <= files_added(fs),
        files_removed(fs.take(i)) <= files_removed(fs),
    decreases fs.len() - i,
{
    if i < fs.len() {
        lemma_files_prefix(fs, i + 1);
        assert(fs.take(i + 1).drop_last() =~= fs.take(i));
    } else {
        assert(fs.take(i) =~= fs);
    }
}

fn copy_stats(a: &AuthorStats) -> (b: AuthorStats)
    ensures
        b == *a,
{
    AuthorStats {
        name: a.name.clone(),
        email: a.email.clone(),
        commits: a.commits,
        lines_added: a.lines_added,
        lines_removed: a.lines_removed,
    }
}

/// The position in `cs` of the first commit by `name` (meaningful when
/// `name` authored some commit).
pub open spec fn first_commit_of(cs: Seq<CommitData>, name: Seq<char>) -> int
    decreases cs.len(),
{
    if cs.len() == 0 {
        0
    } else if has_authored(cs.drop_last(), name) {
        first_commit_of(cs.drop_last(), name)
    } else {
        cs.len() - 1
    }
}

proof fn lemma_first_commit_in_range(cs: Seq<CommitData>, name: Seq<char>)
    requires
        has_authored(cs, name),
    ensures
        0 <= first_commit_of(cs, name) < cs.len(),
    decreases cs.len(),
{
    if has_authored(cs.drop_last(), name) {
        lemma_first_commit_in_range(cs.drop_last(), name);
    }
}

/// `stats` sums up the commits of `cs` author by author: one correct
/// summary per author, the most commits first, and authors with equally
/// many commits in the order of their first commits.
pub open spec fn is_author_report(stats: Seq<AuthorStats>, cs: Seq<CommitData>) -> bool {
    &&& forall|i: int| 0 <= i < stats.len() ==> is_author_summary(#[trigger] stats[i], cs)
    &&& forall|i: int, j: int| 0 <= i < j < stats.len() ==> (#[trigger] stats[i]).name@ != (#[trigger] stats[j]).name@
    &&& forall|k: int| 0 <= k < cs.len() ==> lists_author(stats, (#[trigger] cs[k]).author@)
    &&& forall|i: int, j: int| 0 <= i < j < stats.len() ==> (#[trigger] stats[i]).commits >= (#[trigger] stats[j]).commits
    &&& forall|i: int, j: int|
        0 <= i < j < stats.len() && (#[trigger] stats[i]).commits == (#[trigger] stats[j]).commits
            ==> first_commit_of(cs, stats[i].name@) < first_commit_of(cs, stats[j].name@)
}

/// Sums up the commits author by author, the most active author first.
///
/// Each author (by name) gets one entry: the e-mail address of the author's
/// earliest listed commit, the number of commits, and the lines added and
/// removed over all files of those commits. Authors with equally many
/// commits keep the order in which they first appear.
pub fn collect_author_stats(commits: &[CommitData]) -> (stats: Vec<AuthorStats>)
    requires
        author_totals_fit(commits@),
    ensures
        is_author_report(stats@, commits@),
{
    let ghost cs = commits@;
    let n = commits.len();
    let mut found: Vec<AuthorStats> = Vec::new();
    let mut i: usize = 0;
    while i < n
        invariant
            n == cs.len(),
            cs == commits@,
            i <= n,
            author_totals_fit(cs),
            forall|j: int| 0 <= j < found@.len() ==> is_author_summary(#[trigger] found@[j], cs.take(i as int)),
            forall|a: int, b: int| 0 <= a < b < found@.len() ==> (#[trigger] found@[a]).name@ != (#[trigger] found@[b]).name@,
            forall|k: int| 0 <= k < i ==> exists|j: int| 0 <= j < found@.len() && (#[trigger] found@[j]).name@ == (#[trigger] cs[k]).author@,
            forall|a: int, b: int|
                0 <= a < b < found@.len() ==> first_commit_of(cs.take(i as int), (#[trigger] found@[a]).name@)
                    < first_commit_of(cs.take(i as int), (#[trigger] found@[b]).name@),
        decreases n - i,
    {
        let c = &commits[i];
        let ghost p = cs.take(i as int);
        let ghost p2 = cs.take(i + 1);
        let ghost nm = c.author@;
        proof {
            assert(p2.drop_last() =~= p);
            assert(p2.last() == cs[i as int]);
            lemma_totals_prefix(cs, nm, i + 1);
            assert(commits_by(cs, cs[i as int].author@) <= u32::MAX);
            assert(files_added(c.files_changed@) <= added_by(p2, nm));
            assert(files_removed(c.files_changed@) <= removed_by(p2, nm));
        }
        let (added, removed) = sum_file_lines(&c.files_changed);
        let mut pos: usize = 0;
        while pos < found.len() && found[pos].name != c.author
            invariant
                pos <= found@.len(),
                nm == c.author@,
                forall|j: int| 0 <= j < pos ==> (#[trigger] found@[j]).name@ != nm,
            decreases found@.len() - pos,
        {
            pos = pos + 1;
        }
        let ghost old_found = found@;
        proof {
            // Every other author keeps the totals it had.
            assert forall|j: int| 0 <= j < old_found.len() && (#[trigger] old_found[j]).name@ != nm implies is_author_summary(old_found[j], p2) by {
                let s = old_found[j];
                let k = choose|k: int| 0 <= k < p.len() && (#[trigger] p[k]).author@ == s.name@;
                assert(p2[k] == p[k]);
            }
        }
        if pos < found.len() {
            proof {
                let s = old_found[pos as int];
                let k = choose|k: int| 0 <= k < p.len() && (#[trigger] p[k]).author@ == s.name@;
                assert(p2[k] == p[k]);
                assert(has_authored(p, nm));
            }
            let updated = AuthorStats {
                name: found[pos].name.clone(),
                email: found[pos].email.clone(),
                commits: found[pos].commits + 1,
                lines_added: (found[pos].lines_added as u64 + added) as u32,
                lines_removed: (found[pos].lines_removed as u64 + removed) as u32,
            };
            found.set(pos, updated);
            proof {
                assert forall|j: int| 0 <= j < found@.len() implies is_author_summary(#[trigger] found@[j], p2) by {
                    if j != pos {
                        assert(found@[j] == old_found[j]);
                    }
                }
                assert forall|a: int, b: int| 0 <= a < b < found@.len() implies first_commit_of(p2, (#[trigger] found@[a]).name@)
                    < first_commit_of(p2, (#[trigger] found@[b]).name@) by {
                    assert(found@[a].name@ == old_found[a].name@);
                    assert(found@[b].name@ == old_found[b].name@);
                    assert(is_author_summary(old_found[a], p));
                    assert(is_author_summary(old_found[b], p));
                }
                assert forall|k: int| 0 <= k < i + 1 implies exists|j: int| 0 <= j < found@.len() && (#[trigger] found@[j]).name@ == (#[trigger] cs[k]).author@ by {
                    if k == i {
                        assert(found@[pos as int].name@ == cs[k].author@);
                    } else {
                        let j = choose|j: int| 0 <= j < old_found.len() && (#[trigger] old_found[j]).name@ == cs[k].author@;
                        assert(found@[j].name@ == old_found[j].name@);
                    }
                }
            }
        } else {
            proof {
                assert(!has_authored(p, nm)) by {
                    if has_authored(p, nm) {
                        let k = choose|k: int| 0 <= k < p.len() && (#[trigger] p[k]).author@ == nm;
                        assert(cs[k] == p[k]);
                        let j = choose|j: int| 0 <= j < old_found.len() && (#[trigger] old_found[j]).name@ == (#[trigger] cs[k]).author@;
                    }
                }
                lemma_absent_author(p, nm);
                assert(p2[i as int] == cs[i as int]);
            }
            let fresh = AuthorStats {
                name: c.author.clone(),
                email: c.email.clone(),
                commits: 1,
                lines_added: added as u32,
                lines_removed: removed as u32,
            };
            found.push(fresh);
            proof {
                assert forall|j: int| 0 <= j < found@.len() implies is_author_summary(#[trigger] found@[j], p2) by {
                    if j < old_found.len() {
                        assert(found@[j] == old_found[j]);
                    }
                }
                assert forall|a: int, b: int| 0 <= a < b < found@.len() implies first_commit_of(p2, (#[trigger] found@[a]).name@)
                    < first_commit_of(p2, (#[trigger] found@[b]).name@) by {
                    assert(found@[a] == old_found[a]);
                    assert(is_author_summary(old_found[a], p));
                    lemma_first_commit_in_range(p, old_found[a].name@);
                    if b < old_found.len() {
                        assert(found@[b] == old_found[b]);
                        assert(is_author_summary(old_found[b], p));
                    } else {
                        assert(found@[b].name@ == nm);
                    }
                }
                assert forall|k: int| 0 <= k < i + 1 implies exists|j: int| 0 <= j < found@.len() && (#[trigger] found@[j]).name@ == (#[trigger] cs[k]).author@ by {
                    if k == i {
                        assert(found@[old_found.len() as int].name@ == cs[k].author@);
                    } else {
                        let j = choose|j: int| 0 <= j < old_found.len() && (#[trigger] old_found[j]).name@ == cs[k].author@;
                        assert(found@[j] == old_found[j]);
                    }
                }
            }
        }
        i = i + 1;
    }
    assert(cs.take(n as int) =~= cs);
    // Most commits first, ties in order of first appearance.
    let mut weights: Vec<u64> = Vec::new();
    let mut j: usize = 0;
    while j < found.len()
        invariant
            j <= found@.len(),
            weights@.len() == j,
            forall|k: int| 0 <= k < j ==> weights@[k] == (#[trigger] found@[k]).commits as u64,
        decreases found@.len() - j,
    {
        weights.push(found[j].commits as u64);
        j = j + 1;
    }
    let ord = heaviest_first(&weights);
    let mut stats: Vec<AuthorStats> = Vec::new();
    let mut k: usize = 0;
    while k < ord.len()
        invariant
            k <= ord@.len(),
            is_heaviest_first(weights@, ord@),
            weights@.len() == found@.len(),
            stats@.len() == k,
            forall|a: int| 0 <= a < k ==> stats@[a] == found@[#[trigger] ord@[a] as int],
        decreases ord@.len() - k,
    {
        stats.push(copy_stats(&found[ord[k]]));
        k = k + 1;
    }
    proof {
        assert forall|a: int| 0 <= a < stats@.len() implies is_author_summary(#[trigger] stats@[a], commits@) by {
            assert(stats@[a] == found@[ord@[a] as int]);
        }
        assert forall|a: int, b: int| 0 <= a < b < stats@.len() implies (#[trigger] stats@[a]).name@ != (#[trigger] stats@[b]).name@ by {
            assert(stats@[a] == found@[ord@[a] as int]);
            assert(stats@[b] == found@[ord@[b] as int]);
            if ord@[a] > ord@[b] {
                assert(found@[ord@[b] as int].name@ != found@[ord@[a] as int].name@);
            }
        }
        assert forall|q: int| 0 <= q < commits@.len() implies lists_author(stats@, (#[trigger] commits@[q]).author@) by {
            let j = choose|j: int| 0 <= j < found@.len() && (#[trigger] found@[j]).name@ == (#[trigger] cs[q]).author@;
            assert(ord@.contains(j as usize));
            let a = choose|a: int| 0 <= a < ord@.len() && ord@[a] == j as usize;
            assert(stats@[a] == found@[j]);
            assert(stats@[a].name@ == commits@[q].author@);
            assert(0 <= a < stats@.len());
        }
        assert forall|a: int, b: int| 0 <= a < b < stats@.len() implies (#[trigger] stats@[a]).commits >= (#[trigger] stats@[b]).commits by {
            assert(stats@[a] == found@[ord@[a] as int]);
            assert(stats@[b] == found@[ord@[b] as int]);
            assert(weights@[ord@[a] as int] >= weights@[ord@[b] as int]);
        }
        assert forall|a: int, b: int|
            0 <= a < b < stats@.len() && (#[trigger] stats@[a]).commits == (#[trigger] stats@[b]).commits implies
            first_commit_of(cs, stats@[a].name@) < first_commit_of(cs, stats@[b].name@) by {
            assert(stats@[a] == found@[ord@[a] as int]);
            assert(stats@[b] == found@[ord@[b] as int]);
            assert(weights@[ord@[a] as int] == weights@[ord@[b] as int]);
            assert(ord@[a] < ord@[b]);
        }
    }
    stats
}

/// Each author's share of the changed lines: lines added plus removed.
pub open spec fn line_weights(authors: Seq<AuthorStats>) -> Seq<u64> {
    Seq::new(authors.len(), |i: int| (authors[i].lines_added + authors[i].lines_removed) as u64)
}

/// Each author's number of commits.
pub open spec fn commit_weights(authors: Seq<AuthorStats>) -> Seq<u64> {
    Seq::new(authors.len(), |i: int| authors[i].commits as u64)
}

/// What the bus factor is measured on: changed lines, or commits when no
/// author changed any line.
pub open spec fn coverage_weights(authors: Seq<AuthorStats>) -> Seq<u64> {
    if weight_sum(line_weights(authors)) > 0 {
        line_weights(authors)
    } else {
        commit_weights(authors)
    }
}

/// The totals that the bus factor adds up fit in a `u32`.
pub open spec fn bus_factor_inputs_fit(authors: Seq<AuthorStats>) -> bool {
    &&& weight_sum(line_weights(authors)) <= u32::MAX
    &&& weight_sum(line_weights(authors)) == 0 ==> weight_sum(commit_weights(authors)) <= u32::MAX
    &&& authors.len() <= u32::MAX
}

/// The weights of a list of authors, and their total.
fn weights_of(authors: &[AuthorStats], by_lines: bool) -> (res: (Vec<u64>, u64))
    requires
        by_lines ==> weight_sum(line_weights(authors@)) <= u32::MAX,
        !by_lines ==> weight_sum(commit_weights(authors@)) <= u32::MAX,
    ensures
        res.0@ == (if by_lines { line_weights(authors@) } else { commit_weights(authors@) }),
        res.1 as nat == weight_sum(res.0@),
{
    let ghost target = if by_lines { line_weights(authors@) } else { commit_weights(authors@) };
    let mut w: Vec<u64> = Vec::new();
    let mut total: u64 = 0;
    let mut i: usize = 0;
    while i < authors.len()
        invariant
            i <= authors@.len(),
            target == (if by_lines { line_weights(authors@) } else { commit_weights(authors@) }),
            target.len() == authors@.len(),
            weight_sum(target) <= u32::MAX,
            w@ == target.take(i as int),
            total as nat == weight_sum(w@),
        decreases authors@.len() - i,
    {
        let a = &authors[i];
        let x: u64 = if by_lines { a.lines_added as u64 + a.lines_removed as u64 } else { a.commits as u64 };
        proof {
            assert(target.take(i + 1).drop_last() =~= target.take(i as int));
            lemma_weight_sum_prefix(target, i + 1);
        }
        w.push(x);
        assert(w@ =~= target.take(i + 1));
        total = total + x;
        i = i + 1;
    }
    assert(target.take(i as int) =~= target);
    (w, total)
}

/// `factor` is the bus factor of `authors`: with nothing to count, 0;
/// otherwise the smallest number of authors whose weights reach 80% of the
/// total.
pub open spec fn is_bus_factor(authors: Seq<AuthorStats>, factor: u32) -> bool {
    &&& factor <= authors.len()
    &&& weight_sum(coverage_weights(authors)) == 0 ==> factor == 0
    &&& weight_sum(coverage_weights(authors)) > 0 ==> is_min_cover(
        coverage_weights(authors),
        cover_threshold(weight_sum(coverage_weights(authors))),
        factor as nat,
    )
}

/// The bus factor: the smallest number of authors whose changed lines
/// together make up at least 80% (rounded up) of all changed lines.
///
/// When no author changed any line, commits are counted in place of lines;
/// with no authors, or nothing to count, the bus factor is 0.
pub fn calculate_bus_factor(authors: &[AuthorStats]) -> (factor: u32)
    requires
        bus_factor_inputs_fit(authors@),
    ensures
        is_bus_factor(authors@, factor),
{
    if authors.len() == 0 {
        assert(line_weights(authors@) =~= Seq::<u64>::empty());
        assert(commit_weights(authors@) =~= Seq::<u64>::empty());
        return 0;
    }
    let (lines, total) = weights_of(authors, true);
    if total == 0 {
        let (commits, total_commits) = weights_of(authors, false);
        if total_commits == 0 {
            return 0;
        }
        return smallest_cover(&commits, total_commits);
    }
    smallest_cover(&lines, total)
}

/// The bus factor does not depend on the order in which the authors are
/// listed.
pub proof fn lemma_bus_factor_ignores_order(
    authors: Seq<AuthorStats>,
    p: Seq<usize>,
    listed: Seq<AuthorStats>,
    factor: u32,
    factor_listed: u32,
)
    requires
        is_reordering(p, authors.len()),
        listed.len() == authors.len(),
        forall|i: int| 0 <= i < listed.len() ==> #[trigger] listed[i] == authors[p[i] as int],
        is_bus_factor(authors, factor),
        is_bus_factor(listed, factor_listed),
    ensures
        factor == factor_listed,
{
    assert(line_weights(listed) =~= reordered(line_weights(authors), p));
    assert(commit_weights(listed) =~= reordered(commit_weights(authors), p));
    lemma_weight_sum_ignores_order(line_weights(authors), p);
    lemma_weight_sum_ignores_order(commit_weights(authors), p);
    let w = coverage_weights(authors);
    assert(coverage_weights(listed) == reordered(w, p));
    lemma_weight_sum_ignores_order(w, p);
    if weight_sum(w) > 0 {
        lemma_min_cover_ignores_order(w, p, cover_threshold(weight_sum(w)), factor as nat, factor_listed as nat);
    }
}

/// The author of a commit, as the key that commits are grouped by.
pub open spec fn author_key() -> spec_fn(CommitData) -> Seq<char> {
    |c: CommitData| c.author@
}

/// Each commit counts once.
pub open spec fn one_per_commit() -> spec_fn(CommitData) -> nat {
    |c: CommitData| 1nat
}

/// The lines a commit adds.
pub open spec fn lines_added_in() -> spec_fn(CommitData) -> nat {
    |c: CommitData| files_added(c.files_changed@)
}

/// The lines a commit removes.
pub open spec fn lines_removed_in() -> spec_fn(CommitData) -> nat {
    |c: CommitData| files_removed(c.files_changed@)
}

/// All lines added over the commits.
pub open spec fn total_added(cs: Seq<CommitData>) -> nat {
    sum_all(cs, lines_added_in())
}

/// All lines removed over the commits.
pub open spec fn total_removed(cs: Seq<CommitData>) -> nat {
    sum_all(cs, lines_removed_in())
}

/// The commits counted over the summaries.
pub open spec fn listed_commits(stats: Seq<AuthorStats>) -> nat
    decreases stats.len(),
{
    if stats.len() == 0 { 0 } else { listed_commits(stats.drop_last()) + (stats.last().commits as nat) }
}

/// The added lines counted over the summaries.
pub open spec fn listed_added(stats: Seq<AuthorStats>) -> nat
    decreases stats.len(),
{
    if stats.len() == 0 { 0 } else { listed_added(stats.drop_last()) + (stats.last().lines_added as nat) }
}

/// The removed lines counted over the summaries.
pub open spec fn listed_removed(stats: Seq<AuthorStats>) -> nat
    decreases stats.len(),
{
    if stats.len() == 0 { 0 } else { listed_removed(stats.drop_last()) + (stats.last().lines_removed as nat) }
}

/// The names of the summaries.
pub open spec fn names_of(stats: Seq<AuthorStats>) -> Seq<Seq<char>> {
    stats.map_values(|a: AuthorStats| a.name@)
}

proof fn lemma_by_author_as_sums(cs: Seq<CommitData>, name: Seq<char>)
    ensures
        commits_by(cs, name) == sum_for_key(cs, author_key(), name, one_per_commit()),
        added_by(cs, name) == sum_for_key(cs, author_key(), name, lines_added_in()),
        removed_by(cs, name) == sum_for_key(cs, author_key(), name, lines_removed_in()),
    decreases cs.len(),
{
    if cs.len() > 0 {
        lemma_by_author_as_sums(cs.drop_last(), name);
    }
}

/// Counting one per commit counts the commits.
pub proof fn lemma_commits_are_counted(cs: Seq<CommitData>)
    ensures
        sum_all(cs, one_per_commit()) == cs.len(),
    decreases cs.len(),
{
    if cs.len() > 0 {
        lemma_commits_are_counted(cs.drop_last());
    }
}

proof fn lemma_listed_as_sums(cs: Seq<CommitData>, stats: Seq<AuthorStats>)
    requires
        forall|i: int| 0 <= i < stats.len() ==> is_author_summary(#[trigger] stats[i], cs),
    ensures
        listed_commits(stats) == sum_over_keys(cs, author_key(), names_of(stats), one_per_commit()),
        listed_added(stats) == sum_over_keys(cs, author_key(), names_of(stats), lines_added_in()),
        listed_removed(stats) == sum_over_keys(cs, author_key(), names_of(stats), lines_removed_in()),
    decreases stats.len(),
{
    if stats.len() > 0 {
        let rest = stats.drop_last();
        assert forall|i: int| 0 <= i < rest.len() implies is_author_summary(#[trigger] rest[i], cs) by {
            assert(rest[i] == stats[i]);
        }
        lemma_listed_as_sums(cs, rest);
        assert(names_of(stats).drop_last() =~= names_of(rest));
        assert(stats.last() == stats[stats.len() - 1]);
        lemma_by_author_as_sums(cs, stats.last().name@);
    }
}

/// The author summaries account for every commit, and every added and
/// removed line, exactly once: summed over the authors they give the
/// number of commits and the line totals of all commits.
pub proof fn lemma_author_stats_add_up(cs: Seq<CommitData>, stats: Seq<AuthorStats>)
    requires
        is_author_report(stats, cs),
    ensures
        listed_commits(stats) == cs.len(),
        listed_added(stats) == total_added(cs),
        listed_removed(stats) == total_removed(cs),
{
    let names = names_of(stats);
    assert(names.no_duplicates()) by {
        assert forall|i: int, j: int| 0 <= i < names.len() && 0 <= j < names.len() && i != j implies names[i] != names[j] by {
            if i < j {
                assert(stats[i].name@ != stats[j].name@);
            } else {
                assert(stats[j].name@ != stats[i].name@);
            }
        }
    }
    assert forall|k: int| 0 <= k < cs.len() implies names.contains((author_key())(#[trigger] cs[k])) by {
        assert(lists_author(stats, cs[k].author@));
        let i = choose|i: int| 0 <= i < stats.len() && (#[trigger] stats[i]).name@ == cs[k].author@;
        assert(names[i] == cs[k].author@);
    }
    lemma_listed_as_sums(cs, stats);
    lemma_parts_add_up(cs, author_key(), names, one_per_commit());
    lemma_parts_add_up(cs, author_key(), names, lines_added_in());
    lemma_parts_add_up(cs, author_key(), names, lines_removed_in());
    lemma_commits_are_counted(cs);
}

/// The line weights of the summaries add up to their added and removed
/// lines; their commit weights to their commits.
pub proof fn lemma_weights_of_summaries(stats: Seq<AuthorStats>)
    ensures
        weight_sum(line_weights(stats)) == listed_added(stats) + listed_removed(stats),
        weight_sum(commit_weights(stats)) == listed_commits(stats),
    decreases stats.len(),
{
    if stats.len() > 0 {
        let rest = stats.drop_last();
        lemma_weights_of_summaries(rest);
        assert(line_weights(stats).drop_last() =~= line_weights(rest));
        assert(commit_weights(stats).drop_last() =~= commit_weights(rest));
    }
}

} // verus!
