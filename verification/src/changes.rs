use vstd::prelude::*;
use crate::model::{CommitData, FileChange};
use vstd::hash_map::StringHashMap;

verus! {

/// Every file change of the commits, commit after commit.
pub open spec fn all_changes(cs: Seq<CommitData>) -> Seq<FileChange>
    decreases cs.len(),
{
    if cs.len() == 0 {
        Seq::empty()
    } else {
        all_changes(cs.drop_last()) + cs.last().files_changed@
    }
}

/// How many of the file changes `fs` are to `path`.
pub open spec fn change_count(fs: Seq<FileChange>, path: Seq<char>) -> nat
    decreases fs.len(),
{
    if fs.len() == 0 {
        0
    } else {
        change_count(fs.drop_last(), path) + (if fs.last().path@ == path { 1nat } else { 0nat })
    }
}

/// Some change of `fs` is to `path`.
pub open spec fn changes_path(fs: Seq<FileChange>, path: Seq<char>) -> bool {
    exists|k: int| 0 <= k < fs.len() && (#[trigger] fs[k]).path@ == path
}

/// Some entry of `paths` is `path`.
pub open spec fn lists_path(paths: Seq<String>, path: Seq<char>) -> bool {
    exists|a: int| 0 <= a < paths.len() && (#[trigger] paths[a])@ == path
}

/// The position in `fs` of the first change to `path` (meaningful when
/// some change is to `path`).
pub open spec fn first_change_of(fs: Seq<FileChange>, path: Seq<char>) -> int
    decreases fs.len(),
{
    if fs.len() == 0 {
        0
    } else if changes_path(fs.drop_last(), path) {
        first_change_of(fs.drop_last(), path)
    } else {
        fs.len() - 1
    }
}

proof fn lemma_first_change_in_range(fs: Seq<FileChange>, path: Seq<char>)
    requires
        changes_path(fs, path),
    ensures
        0 <= first_change_of(fs, path) < fs.len(),
    decreases fs.len(),
{
    if changes_path(fs.drop_last(), path) {
        lemma_first_change_in_range(fs.drop_last(), path);
    } else {
        let k = choose|k: int| 0 <= k < fs.len() && (#[trigger] fs[k]).path@ == path;
        if k < fs.len() - 1 {
            assert(fs.drop_last()[k] == fs[k]);
        }
    }
}

/// Every path that `fs` changes is listed in `paths`.
pub open spec fn lists_all_paths(paths: Seq<String>, fs: Seq<FileChange>) -> bool {
    forall|k: int| 0 <= k < fs.len() ==> lists_path(paths, (#[trigger] fs[k]).path@)
}

/// The changes of the first `i` commits come first among all changes.
pub proof fn lemma_all_changes_prefix(cs: Seq<CommitData>, i: int)
    requires
        0 <= i <= cs.len(),
    ensures
        all_changes(cs.take(i)).len() <= all_changes(cs).len(),
        all_changes(cs).take(all_changes(cs.take(i)).len() as int) =~= all_changes(cs.take(i)),
    decreases cs.len(),
{
    if i == cs.len() {
        assert(cs.take(i) =~= cs);
    } else {
        assert(cs.take(i) =~= cs.drop_last().take(i));
        lemma_all_changes_prefix(cs.drop_last(), i);
    }
}

/// The changes of `i + 1` commits are those of `i` commits and then those
/// of commit `i`.
pub proof fn lemma_all_changes_step(cs: Seq<CommitData>, i: int)
    requires
        0 <= i < cs.len(),
    ensures
        all_changes(cs.take(i + 1)) =~= all_changes(cs.take(i)) + cs[i].files_changed@,
{
    assert(cs.take(i + 1).drop_last() =~= cs.take(i));
}

/// Counting over a prefix never gives more.
pub proof fn lemma_change_count_prefix(fs: Seq<FileChange>, path: Seq<char>, m: int)
    requires
        0 <= m <= fs.len(),
    ensures
        change_count(fs.take(m), path) <= change_count(fs, path),
    decreases fs.len() - m,
{
    if m < fs.len() {
        lemma_change_count_prefix(fs, path, m + 1);
        assert(fs.take(m + 1).drop_last() =~= fs.take(m));
    } else {
        assert(fs.take(m) =~= fs);
    }
}

/// A path that no change touches has a count of 0.
pub proof fn lemma_change_count_absent(fs: Seq<FileChange>, path: Seq<char>)
    requires
        !changes_path(fs, path),
    ensures
        change_count(fs, path) == 0,
    decreases fs.len(),
{
    if fs.len() > 0 {
        assert(!changes_path(fs.drop_last(), path)) by {
            if changes_path(fs.drop_last(), path) {
                let k = choose|k: int| 0 <= k < fs.drop_last().len() && (#[trigger] fs.drop_last()[k]).path@ == path;
                assert(fs[k] == fs.drop_last()[k]);
            }
        }
        assert(fs.last() == fs[fs.len() - 1]);
        lemma_change_count_absent(fs.drop_last(), path);
    }
}

/// Tallies how often each path is changed, in the order in which paths first
/// appear: `paths[i]` is changed `counts[i]` times.
pub fn tally_paths(commits: &[CommitData]) -> (tally: (Vec<String>, Vec<u64>))
    requires
        forall|k: int|
            0 <= k < all_changes(commits@).len() ==> change_count(all_changes(commits@), (#[trigger] all_changes(commits@)[k]).path@) <= u32::MAX,
    ensures
        tally.0@.len() == tally.1@.len(),
        forall|a: int, b: int| 0 <= a < b < tally.0@.len() ==> (#[trigger] tally.0@[a])@ != (#[trigger] tally.0@[b])@,
        forall|a: int| 0 <= a < tally.0@.len() ==> changes_path(all_changes(commits@), (#[trigger] tally.0@[a])@),
        forall|a: int| 0 <= a < tally.0@.len() ==> #[trigger] tally.1@[a] == change_count(all_changes(commits@), tally.0@[a]@),
        forall|a: int| 0 <= a < tally.0@.len() ==> #[trigger] tally.1@[a] <= u32::MAX,
        lists_all_paths(tally.0@, all_changes(commits@)),
        forall|a: int, b: int|
            0 <= a < b < tally.0@.len() ==> first_change_of(all_changes(commits@), (#[trigger] tally.0@[a])@)
                < first_change_of(all_changes(commits@), (#[trigger] tally.0@[b])@),
{
    let ghost cs = commits@;
    let ghost all = all_changes(cs);
    let mut paths: Vec<String> = Vec::new();
    let mut counts: Vec<u64> = Vec::new();
    let mut index: StringHashMap<usize> = StringHashMap::new();
    let mut i: usize = 0;
    while i < commits.len()
        invariant
            cs == commits@,
            all == all_changes(cs),
            i <= cs.len(),
            forall|k: int| 0 <= k < all.len() ==> change_count(all, (#[trigger] all[k]).path@) <= u32::MAX,
            paths@.len() == counts@.len(),
            forall|q: Seq<char>| #[trigger] index@.contains_key(q) <==> lists_path(paths@, q),
            forall|q: Seq<char>| #[trigger] index@.contains_key(q) ==> index@[q] < paths@.len() && paths@[index@[q] as int]@ == q,
            forall|a: int, b: int| 0 <= a < b < paths@.len() ==> (#[trigger] paths@[a])@ != (#[trigger] paths@[b])@,
            forall|a: int| 0 <= a < paths@.len() ==> changes_path(all_changes(cs.take(i as int)), (#[trigger] paths@[a])@),
            forall|a: int| 0 <= a < paths@.len() ==> #[trigger] counts@[a] == change_count(all_changes(cs.take(i as int)), paths@[a]@),
            lists_all_paths(paths@, all_changes(cs.take(i as int))),
            forall|a: int, b: int|
                0 <= a < b < paths@.len() ==> first_change_of(all_changes(cs.take(i as int)), (#[trigger] paths@[a])@)
                    < first_change_of(all_changes(cs.take(i as int)), (#[trigger] paths@[b])@),
        decreases cs.len() - i,
    {
        let files = &commits[i].files_changed;
        let ghost before = all_changes(cs.take(i as int));
        proof {
            lemma_all_changes_step(cs, i as int);
            lemma_all_changes_prefix(cs, i + 1);
        }
        assert(before + files@.take(0) =~= before);
        let mut j: usize = 0;
        while j < files.len()
            invariant
                cs == commits@,
                all == all_changes(cs),
                i < cs.len(),
                files@ == cs[i as int].files_changed@,
                before == all_changes(cs.take(i as int)),
                all_changes(cs.take(i + 1)) =~= before + files@,
                all.take(all_changes(cs.take(i + 1)).len() as int) =~= all_changes(cs.take(i + 1)),
                all_changes(cs.take(i + 1)).len() <= all.len(),
                j <= files@.len(),
                forall|k: int| 0 <= k < all.len() ==> change_count(all, (#[trigger] all[k]).path@) <= u32::MAX,
                paths@.len() == counts@.len(),
                forall|q: Seq<char>| #[trigger] index@.contains_key(q) <==> lists_path(paths@, q),
                forall|q: Seq<char>| #[trigger] index@.contains_key(q) ==> index@[q] < paths@.len() && paths@[index@[q] as int]@ == q,
                forall|a: int, b: int| 0 <= a < b < paths@.len() ==> (#[trigger] paths@[a])@ != (#[trigger] paths@[b])@,
                forall|a: int| 0 <= a < paths@.len() ==> changes_path(before + files@.take(j as int), (#[trigger] paths@[a])@),
                forall|a: int| 0 <= a < paths@.len() ==> #[trigger] counts@[a] == change_count(before + files@.take(j as int), paths@[a]@),
                lists_all_paths(paths@, before + files@.take(j as int)),
                forall|a: int, b: int|
                    0 <= a < b < paths@.len() ==> first_change_of(before + files@.take(j as int), (#[trigger] paths@[a])@)
                        < first_change_of(before + files@.take(j as int), (#[trigger] paths@[b])@),
            decreases files@.len() - j,
        {
            let f = &files[j];
            let ghost done = before + files@.take(j as int);
            let ghost done2 = before + files@.take(j + 1);
            let ghost p = f.path@;
            proof {
                assert(done2 =~= done.push(files@[j as int]));
                assert(done2.drop_last() =~= done);
                // `done2` is a prefix of all changes, so counts stay in range.
                let m = done2.len() as int;
                assert(all.take(m) =~= done2) by {
                    assert(all_changes(cs.take(i + 1)).take(m) =~= done2);
                }
                lemma_change_count_prefix(all, p, m);
                assert(all[m - 1] == done2[m - 1]);
                assert(change_count(all, all[m - 1].path@) <= u32::MAX);
            }
            let found = index.get(f.path.as_str());
            let pos: usize = match found {
                Some(v) => *v,
                None => paths.len(),
            };
            proof {
                if pos == paths@.len() {
                    assert forall|a: int| 0 <= a < paths@.len() implies (#[trigger] paths@[a])@ != p by {
                        if paths@[a]@ == p {
                            assert(index@.contains_key(paths@[a]@));
                        }
                    }
                } else {
                    assert(paths@[pos as int]@ == p);
                }
            }
            let ghost old_paths = paths@;
            let ghost old_counts = counts@;
            proof {
                assert forall|a: int| 0 <= a < old_paths.len() implies changes_path(done2, (#[trigger] old_paths[a])@) by {
                    let k = choose|k: int| 0 <= k < done.len() && (#[trigger] done[k]).path@ == old_paths[a]@;
                    assert(done2[k] == done[k]);
                }
            }
            if pos < paths.len() {
                let c = counts[pos];
                counts.set(pos, c + 1);
                assert(paths@[pos as int]@ == p);
                proof {
                    assert forall|a: int| 0 <= a < paths@.len() implies #[trigger] counts@[a] == change_count(done2, paths@[a]@) by {}
                    assert forall|a: int, b: int| 0 <= a < b < paths@.len() implies first_change_of(done2, (#[trigger] paths@[a])@)
                        < first_change_of(done2, (#[trigger] paths@[b])@) by {
                        assert(changes_path(done, paths@[a]@));
                        assert(changes_path(done, paths@[b]@));
                    }
                    assert forall|k: int| 0 <= k < done2.len() implies lists_path(paths@, (#[trigger] done2[k]).path@) by {
                        if k == done.len() {
                            assert(paths@[pos as int]@ == done2[k].path@);
                        } else {
                            assert(done2[k] == done[k]);
                            assert(lists_path(old_paths, done[k].path@));
                        }
                    }
                }
            } else {
                proof {
                    assert(!changes_path(done, p)) by {
                        if changes_path(done, p) {
                            let k = choose|k: int| 0 <= k < done.len() && (#[trigger] done[k]).path@ == p;
                            assert(lists_path(old_paths, done[k].path@));
                        }
                    }
                    lemma_change_count_absent(done, p);
                }
                index.insert(f.path.clone(), paths.len());
                paths.push(f.path.clone());
                counts.push(1);
                proof {
                    assert forall|a: int| 0 <= a < paths@.len() implies changes_path(done2, (#[trigger] paths@[a])@) by {
                        if a == old_paths.len() {
                            assert(done2[done.len() as int].path@ == p);
                        } else {
                            assert(paths@[a] == old_paths[a]);
                        }
                    }
                    assert forall|a: int| 0 <= a < paths@.len() implies #[trigger] counts@[a] == change_count(done2, paths@[a]@) by {
                        if a < old_paths.len() {
                            assert(paths@[a] == old_paths[a]);
                        }
                    }
                    assert forall|k: int| 0 <= k < done2.len() implies lists_path(paths@, (#[trigger] done2[k]).path@) by {
                        if k == done.len() {
                            assert(paths@[old_paths.len() as int]@ == done2[k].path@);
                        } else {
                            assert(done2[k] == done[k]);
                            assert(lists_path(old_paths, done[k].path@));
                            let a = choose|a: int| 0 <= a < old_paths.len() && (#[trigger] old_paths[a])@ == done[k].path@;
                            assert(paths@[a] == old_paths[a]);
                        }
                    }
                    assert forall|q: Seq<char>| #[trigger] index@.contains_key(q) <==> lists_path(paths@, q) by {
                        if index@.contains_key(q) && q != p {
                            let a = choose|a: int| 0 <= a < old_paths.len() && (#[trigger] old_paths[a])@ == q;
                            assert(paths@[a] == old_paths[a]);
                        }
                        if lists_path(paths@, q) && q != p {
                            let a = choose|a: int| 0 <= a < paths@.len() && (#[trigger] paths@[a])@ == q;
                            assert(paths@[a] == old_paths[a]);
                            assert(lists_path(old_paths, q));
                        }
                        if q == p {
                            assert(paths@[old_paths.len() as int]@ == p);
                        }
                    }
                    assert forall|q: Seq<char>| #[trigger] index@.contains_key(q) implies index@[q] < paths@.len() && paths@[index@[q] as int]@ == q by {
                        if q != p {
                            assert(paths@[index@[q] as int] == old_paths[index@[q] as int]);
                        }
                    }
                    assert forall|a: int, b: int| 0 <= a < b < paths@.len() implies (#[trigger] paths@[a])@ != (#[trigger] paths@[b])@ by {
                        if b == old_paths.len() {
                            assert(paths@[a] == old_paths[a]);
                        } else {
                            assert(paths@[a] == old_paths[a] && paths@[b] == old_paths[b]);
                        }
                    }
                    assert forall|a: int, b: int| 0 <= a < b < paths@.len() implies first_change_of(done2, (#[trigger] paths@[a])@)
                        < first_change_of(done2, (#[trigger] paths@[b])@) by {
                        assert(paths@[a] == old_paths[a]);
                        assert(changes_path(done, old_paths[a]@));
                        lemma_first_change_in_range(done, old_paths[a]@);
                        if b < old_paths.len() {
                            assert(paths@[b] == old_paths[b]);
                            assert(changes_path(done, old_paths[b]@));
                        } else {
                            assert(paths@[b]@ == p);
                        }
                    }
                }
            }
            j = j + 1;
        }
        assert(files@.take(j as int) =~= files@);
        assert(all_changes(cs.take(i + 1)) =~= before + files@.take(j as int));
        i = i + 1;
    }
    assert(cs.take(i as int) =~= cs);
    proof {
        assert forall|a: int| 0 <= a < paths@.len() implies #[trigger] counts@[a] <= u32::MAX by {
            let k = choose|k: int| 0 <= k < all.len() && (#[trigger] all[k]).path@ == paths@[a]@;
        }
    }
    (paths, counts)
}

} // verus!
