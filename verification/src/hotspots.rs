use vstd::prelude::*;
use crate::changes::{
    all_changes, change_count, changes_path, first_change_of, lemma_all_changes_prefix, lemma_all_changes_step,
    lemma_change_count_absent, lemma_change_count_prefix, lists_all_paths, tally_paths,
};
use vstd::hash_map::StringHashMap;
use crate::cover::{heaviest_first, is_heaviest_first};
use crate::model::{CommitData, FileChange};

verus! {

/// A file that changed often, with the number of commits that touched it
/// and an emoji for how hot it is.
#[derive(Debug, Clone)]
pub struct Hotspot {
    pub path: String,
    pub commit_count: u32,
    pub heat_emoji: &'static str,
}

/// The heat emoji for a file changed `count` times.
pub open spec fn heat_text(count: u32) -> Seq<char> {
    if count >= 50 {
        "🌋"@
    } else if count >= 30 {
        "🔥"@
    } else if count >= 15 {
        "♨️"@
    } else {
        "🔆"@
    }
}

/// How hot a file is: 🌋 from 50 changes, 🔥 from 30, ♨️ from 15, 🔆 below.
pub fn heat_emoji(count: u32) -> (emoji: &'static str)
    ensures
        emoji@ == heat_text(count),
{
    if count >= 50 {
        "🌋"
    } else if count >= 30 {
        "🔥"
    } else if count >= 15 {
        "♨️"
    } else {
        "🔆"
    }
}

/// Every path is changed at most `u32::MAX` times.
pub open spec fn path_counts_fit(cs: Seq<CommitData>) -> bool {
    forall|k: int|
        0 <= k < all_changes(cs).len() ==> change_count(all_changes(cs), (#[trigger] all_changes(cs)[k]).path@) <= u32::MAX
}

/// Whether every path is changed at most `u32::MAX` times.
pub fn path_counts_ok(commits: &[CommitData]) -> (ok: bool)
    ensures
        ok == path_counts_fit(commits@),
{
    let ghost cs = commits@;
    let ghost all = all_changes(cs);
    let mut table: StringHashMap<u32> = StringHashMap::new();
    let mut i: usize = 0;
    while i < commits.len()
        invariant
            cs == commits@,
            all == all_changes(cs),
            i <= cs.len(),
            forall|q: Seq<char>| #[trigger] table@.contains_key(q) <==> changes_path(all_changes(cs.take(i as int)), q),
            forall|q: Seq<char>| #[trigger] table@.contains_key(q) ==> table@[q] == change_count(all_changes(cs.take(i as int)), q),
        decreases cs.len() - i,
    {
        let files = &commits[i].files_changed;
        let ghost before = all_changes(cs.take(i as int));
        proof {
            lemma_all_changes_step(cs, i as int);
            lemma_all_changes_prefix(cs, i + 1);
        }
        assert(before + files@.take(0) =~= before);
        let mut j: usize = 0;
        while j < files.len()
            invariant
                cs == commits@,
                all == all_changes(cs),
                i < cs.len(),
                files@ == cs[i as int].files_changed@,
                before == all_changes(cs.take(i as int)),
                all_changes(cs.take(i + 1)) =~= before + files@,
                all.take(all_changes(cs.take(i + 1)).len() as int) =~= all_changes(cs.take(i + 1)),
                all_changes(cs.take(i + 1)).len() <= all.len(),
                j <= files@.len(),
                forall|q: Seq<char>| #[trigger] table@.contains_key(q) <==> changes_path(before + files@.take(j as int), q),
                forall|q: Seq<char>| #[trigger] table@.contains_key(q) ==> table@[q] == change_count(before + files@.take(j as int), q),
            decreases files@.len() - j,
        {
            let f = &files[j];
            let ghost done = before + files@.take(j as int);
            let ghost done2 = before + files@.take(j + 1);
            let ghost p = f.path@;
            proof {
                assert(done2 =~= done.push(files@[j as int]));
                assert(done2.drop_last() =~= done);
                assert(done2[done.len() as int].path@ == p);
            }
            let ghost old_table = table@;
            let current: Option<u32> = match table.get(f.path.as_str()) {
                Some(c) => Some(*c),
                None => None,
            };
            match current {
                Some(c) => {
                    if c == 4_294_967_295 {
                        proof {
                            // `done2` is a prefix of all changes that already counts `p` once too often.
                            let m = done2.len() as int;
                            assert(all.take(m) =~= done2) by {
                                assert(all_changes(cs.take(i + 1)).take(m) =~= done2);
                            }
                            lemma_change_count_prefix(all, p, m);
                            assert(all[m - 1] == done2[m - 1]);
                            assert(change_count(all, all[m - 1].path@) > u32::MAX);
                        }
                        return false;
                    }
                    table.insert(f.path.clone(), c + 1);
                },
                None => {
                    proof {
                        lemma_change_count_absent(done, p);
                    }
                    table.insert(f.path.clone(), 1);
                },
            }
            proof {
                assert forall|q: Seq<char>| #[trigger] table@.contains_key(q) <==> changes_path(done2, q) by {
                    if q != p {
                        if changes_path(done2, q) {
                            let k = choose|k: int| 0 <= k < done2.len() && (#[trigger] done2[k]).path@ == q;
                            assert(done[k] == done2[k]);
                        }
                        if changes_path(done, q) {
                            let k = choose|k: int| 0 <= k < done.len() && (#[trigger] done[k]).path@ == q;
                            assert(done[k] == done2[k]);
                        }
                    }
                }
            }
            j = j + 1;
        }
        assert(files@.take(j as int) =~= files@);
        assert(all_changes(cs.take(i + 1)) =~= before + files@.take(j as int));
        i = i + 1;
    }
    assert(cs.take(i as int) =~= cs);
    proof {
        assert forall|k: int| 0 <= k < all.len() implies change_count(all, (#[trigger] all[k]).path@) <= u32::MAX by {
            let q = all[k].path@;
            assert(changes_path(all_changes(cs.take(i as int)), q));
            assert(table@.contains_key(q));
            assert(table@[q] == change_count(all, q));
        }
    }
    true
}

/// `h` reports a path of the commits with its true change count.
pub open spec fn is_hotspot_of(h: Hotspot, cs: Seq<CommitData>) -> bool {
    &&& changes_path(all_changes(cs), h.path@)
    &&& h.commit_count as nat == change_count(all_changes(cs), h.path@)
    &&& h.heat_emoji@ == heat_text(h.commit_count)
}

/// Some entry of `hs` is for `path`.
pub open spec fn lists_hotspot(hs: Seq<Hotspot>, path: Seq<char>) -> bool {
    exists|i: int| 0 <= i < hs.len() && (#[trigger] hs[i]).path@ == path
}

/// `hs` lists the `top_n` most often changed files of `cs`, most changed
/// first (files changed equally often in the order of their first change),
/// each with its true change count and heat emoji.
pub open spec fn is_hotspot_report(hs: Seq<Hotspot>, cs: Seq<CommitData>, top_n: usize) -> bool {
    &&& hs.len() <= top_n
    &&& forall|i: int| 0 <= i < hs.len() ==> is_hotspot_of(#[trigger] hs[i], cs)
    &&& forall|i: int, j: int| 0 <= i < j < hs.len() ==> (#[trigger] hs[i]).path@ != (#[trigger] hs[j]).path@
    &&& forall|i: int, j: int|
            0 <= i < j < hs.len() ==> (#[trigger] hs[i]).commit_count >= (#[trigger] hs[j]).commit_count
    &&& forall|i: int, j: int|
            0 <= i < j < hs.len() && (#[trigger] hs[i]).commit_count == (#[trigger] hs[j]).commit_count
                ==> first_change_of(all_changes(cs), hs[i].path@) < first_change_of(all_changes(cs), hs[j].path@)
    &&& forall|k: int|
            0 <= k < all_changes(cs).len() && !lists_hotspot(hs, (#[trigger] all_changes(cs)[k]).path@) ==> {
                &&& hs.len() == top_n
                &&& forall|i: int| 0 <= i < hs.len() ==> outranks(#[trigger] hs[i], all_changes(cs), all_changes(cs)[k].path@)
            }
}

/// The listed hotspot `h` ranks before `path`: changed more often, or as
/// often and changed first.
pub open spec fn outranks(h: Hotspot, all: Seq<FileChange>, path: Seq<char>) -> bool {
    ||| h.commit_count > change_count(all, path)
    ||| h.commit_count == change_count(all, path) && first_change_of(all, h.path@) < first_change_of(all, path)
}

/// The `top_n` most often changed files, most changed first.
///
/// A file's count is the number of file changes to its path over all
/// commits. Files changed equally often keep the order in which they first
/// appear. A file is left out only when the list is full and every listed
/// file ranks before it.
pub fn detect_hotspots(commits: &[CommitData], top_n: usize) -> (hotspots: Vec<Hotspot>)
    requires
        path_counts_fit(commits@),
    ensures
        is_hotspot_report(hotspots@, commits@, top_n),
{
    let ghost all = all_changes(commits@);
    let (paths, counts) = tally_paths(commits);
    let ord = heaviest_first(&counts);
    let limit = if top_n < ord.len() { top_n } else { ord.len() };
    let mut hotspots: Vec<Hotspot> = Vec::new();
    let mut k: usize = 0;
    while k < limit
        invariant
            limit <= ord@.len(),
            k <= limit,
            is_heaviest_first(counts@, ord@),
            paths@.len() == counts@.len(),
            forall|a: int| 0 <= a < paths@.len() ==> #[trigger] counts@[a] <= u32::MAX,
            hotspots@.len() == k,
            forall|a: int| 0 <= a < k ==> (#[trigger] hotspots@[a]).path@ == paths@[ord@[a] as int]@,
            forall|a: int| 0 <= a < k ==> (#[trigger] hotspots@[a]).commit_count as u64 == counts@[ord@[a] as int],
            forall|a: int| 0 <= a < k ==> (#[trigger] hotspots@[a]).heat_emoji@ == heat_text(hotspots@[a].commit_count),
        decreases limit - k,
    {
        let idx = ord[k];
        let count = counts[idx] as u32;
        hotspots.push(Hotspot { path: paths[idx].clone(), commit_count: count, heat_emoji: heat_emoji(count) });
        k = k + 1;
    }
    proof {
        assert forall|i: int| 0 <= i < hotspots@.len() implies is_hotspot_of(#[trigger] hotspots@[i], commits@) by {
            assert(ord@[i] < paths@.len());
        }
        assert forall|i: int, j: int| 0 <= i < j < hotspots@.len() implies (#[trigger] hotspots@[i]).path@ != (#[trigger] hotspots@[j]).path@ by {
            if ord@[i] < ord@[j] {
                assert(paths@[ord@[i] as int]@ != paths@[ord@[j] as int]@);
            } else {
                assert(paths@[ord@[j] as int]@ != paths@[ord@[i] as int]@);
            }
        }
        assert forall|i: int, j: int| 0 <= i < j < hotspots@.len() implies (#[trigger] hotspots@[i]).commit_count >= (#[trigger] hotspots@[j]).commit_count by {
            assert(counts@[ord@[i] as int] >= counts@[ord@[j] as int]);
        }
        assert forall|i: int, j: int|
            0 <= i < j < hotspots@.len() && (#[trigger] hotspots@[i]).commit_count == (#[trigger] hotspots@[j]).commit_count implies
            first_change_of(all, hotspots@[i].path@) < first_change_of(all, hotspots@[j].path@) by {
            assert(counts@[ord@[i] as int] == counts@[ord@[j] as int]);
            assert(ord@[i] < ord@[j]);
        }
        assert forall|q: int|
            0 <= q < all.len() && !lists_hotspot(hotspots@, (#[trigger] all[q]).path@) implies {
                &&& hotspots@.len() == top_n
                &&& forall|i: int| 0 <= i < hotspots@.len() ==> outranks(#[trigger] hotspots@[i], all, all[q].path@)
            } by {
            let p = all[q].path@;
            assert(lists_all_paths(paths@, all));
            let a = choose|a: int| 0 <= a < paths@.len() && (#[trigger] paths@[a])@ == p;
            assert(ord@.contains(a as usize));
            let pos = choose|pos: int| 0 <= pos < ord@.len() && ord@[pos] == a as usize;
            if pos < limit {
                assert(hotspots@[pos].path@ == p);
            }
            assert(pos >= limit);
            assert forall|i: int| 0 <= i < hotspots@.len() implies outranks(#[trigger] hotspots@[i], all, p) by {
                assert(counts@[ord@[i] as int] >= counts@[ord@[pos] as int]);
                if counts@[ord@[i] as int] == counts@[ord@[pos] as int] {
                    assert(ord@[i] < ord@[pos]);
                    assert(first_change_of(all, paths@[ord@[i] as int]@) < first_change_of(all, paths@[ord@[pos] as int]@));
                }
            }
        }
    }
    hotspots
}

} // verus!
