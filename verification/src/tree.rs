use vstd::prelude::*;
use vstd::hash_map::StringHashMap;
use crate::model::FileChange;

verus! {

/// The path of `name` inside the directory `prefix` (the root when `prefix`
/// is empty).
pub open spec fn full_path(prefix: Seq<char>, name: Seq<char>) -> Seq<char> {
    if prefix.len() == 0 {
        name
    } else {
        prefix + "/"@ + name
    }
}

/// Joins a directory path and an entry name with `/`; an entry of the root
/// keeps its bare name.
pub fn make_full_path(prefix: &str, name: &str) -> (path: String)
    ensures
        path@ == full_path(prefix@, name@),
{
    if prefix.is_empty() {
        String::from_str(name)
    } else {
        let mut path = String::from_str(prefix);
        path.append("/");
        path.append(name);
        path
    }
}

/// The kind of a tree entry, as Git records it in the entry's mode.
#[derive(Debug, Clone, Copy, PartialEq, Eq, Structural)]
pub enum EntryKind {
    Tree,
    Blob,
    BlobExecutable,
    Link,
    Commit,
}

impl EntryKind {
    /// A file: plain or executable.
    pub open spec fn is_file(self) -> bool {
        self is Blob || self is BlobExecutable
    }

    /// A directory.
    pub open spec fn is_dir(self) -> bool {
        self is Tree
    }

    /// The entry is a file, plain or executable.
    pub fn is_blob_mode(&self) -> (b: bool)
        ensures
            b == self.is_file(),
    {
        match self {
            EntryKind::Blob | EntryKind::BlobExecutable => true,
            _ => false,
        }
    }

    /// The entry is a directory.
    pub fn is_tree_mode(&self) -> (b: bool)
        ensures
            b == self.is_dir(),
    {
        match self {
            EntryKind::Tree => true,
            _ => false,
        }
    }
}

/// One entry of a Git tree: its name, kind and object id (in hex).
#[derive(Debug, Clone)]
pub struct TreeEntry {
    pub name: String,
    pub kind: EntryKind,
    pub oid: String,
}

/// What to do with one tree entry when listing files.
#[derive(Debug, Clone)]
pub enum TreeStep {
    /// A file at this path.
    File(String),
    /// A directory at this path, with the object id of its tree.
    Dir(String, String),
    /// Neither (a symbolic link or a submodule).
    Skip,
}

/// The step that lists `e` inside the directory `prefix`.
pub open spec fn step_matches(step: TreeStep, prefix: Seq<char>, e: TreeEntry) -> bool {
    if e.kind.is_dir() {
        step matches TreeStep::Dir(p, o) && p@ == full_path(prefix, e.name@) && o@ == e.oid@
    } else if e.kind.is_file() {
        step matches TreeStep::File(p) && p@ == full_path(prefix, e.name@)
    } else {
        step is Skip
    }
}

/// The steps that list the entries of a directory, entry by entry: files
/// by their path, directories by their path and tree id, other entries
/// skipped.
pub fn listing_steps(prefix: &str, entries: &[TreeEntry]) -> (steps: Vec<TreeStep>)
    ensures
        steps@.len() == entries@.len(),
        forall|i: int| 0 <= i < steps@.len() ==> step_matches(#[trigger] steps@[i], prefix@, entries@[i]),
{
    let mut steps: Vec<TreeStep> = Vec::new();
    let mut i: usize = 0;
    while i < entries.len()
        invariant
            i <= entries@.len(),
            steps@.len() == i,
            forall|k: int| 0 <= k < i ==> step_matches(#[trigger] steps@[k], prefix@, entries@[k]),
        decreases entries@.len() - i,
    {
        let e = &entries[i];
        let step = if e.kind.is_tree_mode() {
            TreeStep::Dir(make_full_path(prefix, e.name.as_str()), e.oid.clone())
        } else if e.kind.is_blob_mode() {
            TreeStep::File(make_full_path(prefix, e.name.as_str()))
        } else {
            TreeStep::Skip
        };
        steps.push(step);
        i = i + 1;
    }
    steps
}

/// The last entry of `es` called `name`, if any.
pub open spec fn last_named(es: Seq<TreeEntry>, name: Seq<char>) -> Option<TreeEntry>
    decreases es.len(),
{
    if es.len() == 0 {
        None
    } else if es.last().name@ == name {
        Some(es.last())
    } else {
        last_named(es.drop_last(), name)
    }
}

/// No two entries of `es` share a name.
pub open spec fn names_distinct(es: Seq<TreeEntry>) -> bool {
    forall|a: int, b: int| 0 <= a < b < es.len() ==> (#[trigger] es[a]).name@ != (#[trigger] es[b]).name@
}

fn copy_entry(e: &TreeEntry) -> (c: TreeEntry)
    ensures
        c == *e,
{
    TreeEntry { name: e.name.clone(), kind: e.kind, oid: e.oid.clone() }
}

proof fn lemma_last_named_some(es: Seq<TreeEntry>, name: Seq<char>, k: int)
    requires
        0 <= k < es.len(),
        es[k].name@ == name,
    ensures
        last_named(es, name) is Some,
        last_named(es, name)->0.name@ == name,
    decreases es.len(),
{
    if k < es.len() - 1 && es.last().name@ != name {
        lemma_last_named_some(es.drop_last(), name, k);
    }
}

/// The entries of a tree with one entry per name: where names repeat, the
/// last entry of that name stands.
pub fn tree_to_map(entries: &[TreeEntry]) -> (table: Vec<TreeEntry>)
    ensures
        names_distinct(table@),
        forall|i: int| 0 <= i < table@.len() ==> last_named(entries@, (#[trigger] table@[i]).name@) == Some(table@[i]),
        forall|k: int| 0 <= k < entries@.len() ==> last_named(table@, (#[trigger] entries@[k]).name@) is Some,
{
    let ghost es = entries@;
    let mut table: Vec<TreeEntry> = Vec::new();
    let mut index: StringHashMap<usize> = StringHashMap::new();
    let mut i: usize = 0;
    while i < entries.len()
        invariant
            es == entries@,
            i <= es.len(),
            names_distinct(table@),
            forall|q: Seq<char>| #[trigger] index@.contains_key(q) ==> index@[q] < table@.len() && table@[index@[q] as int].name@ == q,
            forall|a: int| 0 <= a < table@.len() ==> #[trigger] index@.contains_key(table@[a].name@),
            forall|a: int| 0 <= a < table@.len() ==> last_named(es.take(i as int), (#[trigger] table@[a]).name@) == Some(table@[a]),
            forall|k: int| 0 <= k < i ==> #[trigger] index@.contains_key(es[k].name@),
        decreases es.len() - i,
    {
        let e = &entries[i];
        let ghost p2 = es.take(i + 1);
        let ghost old_table = table@;
        let ghost old_index = index@;
        proof {
            assert(p2.drop_last() =~= es.take(i as int));
            assert(p2.last() == es[i as int]);
        }
        match index.get(e.name.as_str()) {
            Some(pos) => {
                let pos = *pos;
                table.set(pos, copy_entry(e));
                proof {
                    assert forall|a: int| 0 <= a < table@.len() implies last_named(p2, (#[trigger] table@[a]).name@) == Some(table@[a]) by {
                        if a != pos {
                            assert(table@[a] == old_table[a]);
                            assert(old_table[a].name@ != e.name@);
                        }
                    }
                    assert(names_distinct(table@)) by {
                        assert forall|a: int, b: int| 0 <= a < b < table@.len() implies (#[trigger] table@[a]).name@ != (#[trigger] table@[b]).name@ by {
                            if a != pos && b != pos {
                                assert(table@[a] == old_table[a] && table@[b] == old_table[b]);
                            } else if a == pos {
                                assert(table@[b] == old_table[b]);
                            } else {
                                assert(table@[a] == old_table[a]);
                            }
                        }
                    }
                    assert forall|a: int| 0 <= a < table@.len() implies #[trigger] index@.contains_key(table@[a].name@) by {
                        if a != pos {
                            assert(table@[a] == old_table[a]);
                        }
                    }
                }
            },
            None => {
                index.insert(e.name.clone(), table.len());
                table.push(copy_entry(e));
                proof {
                    assert forall|q: Seq<char>| #[trigger] index@.contains_key(q) implies index@[q] < table@.len() && table@[index@[q] as int].name@ == q by {
                        if q != e.name@ {
                            assert(table@[index@[q] as int] == old_table[index@[q] as int]);
                        }
                    }
                    assert forall|a: int| 0 <= a < table@.len() implies #[trigger] index@.contains_key(table@[a].name@) by {
                        if a < old_table.len() {
                            assert(table@[a] == old_table[a]);
                        }
                    }
                    assert forall|a: int| 0 <= a < table@.len() implies last_named(p2, (#[trigger] table@[a]).name@) == Some(table@[a]) by {
                        if a < old_table.len() {
                            assert(table@[a] == old_table[a]);
                            assert(old_index.contains_key(old_table[a].name@));
                        }
                    }
                    assert(names_distinct(table@)) by {
                        assert forall|a: int, b: int| 0 <= a < b < table@.len() implies (#[trigger] table@[a]).name@ != (#[trigger] table@[b]).name@ by {
                            assert(table@[a] == old_table[a]);
                            if b < old_table.len() {
                                assert(table@[b] == old_table[b]);
                            } else {
                                assert(old_index.contains_key(old_table[a].name@));
                            }
                        }
                    }
                }
            },
        }
        i = i + 1;
    }
    proof {
        assert(es.take(i as int) =~= es);
        assert forall|k: int| 0 <= k < es.len() implies last_named(table@, (#[trigger] es[k]).name@) is Some by {
            assert(index@.contains_key(es[k].name@));
            let a = index@[es[k].name@] as int;
            lemma_last_named_some(table@, es[k].name@, a);
        }
    }
    table
}

/// No later entry of `es` has the name of entry `k`.
pub open spec fn is_last_of_name(es: Seq<TreeEntry>, k: int) -> bool {
    forall|j: int| k < j < es.len() ==> (#[trigger] es[j]).name@ != es[k].name@
}

/// For every name, the position of its last entry in `es`.
fn name_index(es: &[TreeEntry]) -> (index: StringHashMap<usize>)
    ensures
        forall|q: Seq<char>| #[trigger] index@.contains_key(q) <==> last_named(es@, q) is Some,
        forall|q: Seq<char>|
            #[trigger] index@.contains_key(q) ==> {
                &&& index@[q] < es@.len()
                &&& es@[index@[q] as int].name@ == q
                &&& is_last_of_name(es@, index@[q] as int)
                &&& last_named(es@, q) == Some(es@[index@[q] as int])
            },
{
    let mut index: StringHashMap<usize> = StringHashMap::new();
    let mut i: usize = 0;
    while i < es.len()
        invariant
            i <= es@.len(),
            forall|q: Seq<char>| #[trigger] index@.contains_key(q) <==> last_named(es@.take(i as int), q) is Some,
            forall|q: Seq<char>|
                #[trigger] index@.contains_key(q) ==> {
                    &&& index@[q] < i
                    &&& es@[index@[q] as int].name@ == q
                    &&& is_last_of_name(es@.take(i as int), index@[q] as int)
                    &&& last_named(es@.take(i as int), q) == Some(es@[index@[q] as int])
                },
        decreases es@.len() - i,
    {
        let ghost old_index = index@;
        let ghost t = es@.take(i as int);
        let ghost t2 = es@.take(i + 1);
        proof {
            assert(t2.drop_last() =~= t);
            assert(t2.last() == es@[i as int]);
        }
        index.insert(es[i].name.clone(), i);
        proof {
            let nm = es@[i as int].name@;
            assert forall|q: Seq<char>| #[trigger] index@.contains_key(q) <==> last_named(t2, q) is Some by {
                if q != nm {
                    assert(old_index.contains_key(q) == index@.contains_key(q));
                }
            }
            assert forall|q: Seq<char>| #[trigger] index@.contains_key(q) implies {
                &&& index@[q] < i + 1
                &&& es@[index@[q] as int].name@ == q
                &&& is_last_of_name(t2, index@[q] as int)
                &&& last_named(t2, q) == Some(es@[index@[q] as int])
            } by {
                if q != nm {
                    assert(old_index.contains_key(q));
                    let k = index@[q] as int;
                    assert forall|j: int| k < j < t2.len() implies (#[trigger] t2[j]).name@ != t2[k].name@ by {
                        if j < i {
                            assert(t2[j] == t[j]);
                            assert(t[j].name@ != t[k].name@);
                        }
                    }
                    assert(t2[k] == es@[k]);
                }
            }
        }
        i = i + 1;
    }
    assert(es@.take(i as int) =~= es@);
    index
}

proof fn lemma_last_position_unique(es: Seq<TreeEntry>, a: int, b: int)
    requires
        0 <= a < es.len(),
        0 <= b < es.len(),
        es[a].name@ == es[b].name@,
        is_last_of_name(es, a),
        is_last_of_name(es, b),
    ensures
        a == b,
{
    if a < b {
        assert(es[b].name@ != es[a].name@);
    } else if b < a {
        assert(es[a].name@ != es[b].name@);
    }
}

/// A sequence of at most one element.
pub open spec fn opt_seq<T>(o: Option<T>) -> Seq<T> {
    match o {
        Some(x) => seq![x],
        None => Seq::empty(),
    }
}

/// A file change as plain values: path, lines added, lines removed.
pub open spec fn change_view(c: FileChange) -> (Seq<char>, u32, u32) {
    (c.path@, c.additions, c.deletions)
}

/// The file change that the new entry `e` makes against the old tree:
/// a file that is new is added, a file whose object changed is modified.
pub open spec fn new_entry_change(prefix: Seq<char>, old: Seq<TreeEntry>, e: TreeEntry) -> Option<(Seq<char>, u32, u32)> {
    let path = full_path(prefix, e.name@);
    match last_named(old, e.name@) {
        None => if e.kind.is_file() { Some((path, 1u32, 0u32)) } else { None },
        Some(o) => if e.oid@ == o.oid@ {
            None
        } else if e.kind.is_file() && o.kind.is_file() {
            Some((path, 1u32, 1u32))
        } else {
            None
        },
    }
}

/// The directory that the new entry `e` makes to look into: a new
/// directory (no old tree), or a directory whose tree changed.
pub open spec fn new_entry_dir(prefix: Seq<char>, old: Seq<TreeEntry>, e: TreeEntry) -> Option<(Seq<char>, Option<Seq<char>>, Seq<char>)> {
    let path = full_path(prefix, e.name@);
    match last_named(old, e.name@) {
        None => if e.kind.is_dir() { Some((path, None, e.oid@)) } else { None },
        Some(o) => if e.oid@ == o.oid@ {
            None
        } else if e.kind.is_dir() && o.kind.is_dir() {
            Some((path, Some(o.oid@), e.oid@))
        } else {
            None
        },
    }
}

/// The deletion that the old entry `o` makes: a file whose name the new
/// tree no longer has.
pub open spec fn old_entry_change(prefix: Seq<char>, new: Seq<TreeEntry>, o: TreeEntry) -> Option<(Seq<char>, u32, u32)> {
    if last_named(new, o.name@) is None && o.kind.is_file() {
        Some((full_path(prefix, o.name@), 0u32, 1u32))
    } else {
        None
    }
}

/// The additions and modifications of the first `n` new entries (one per
/// name: the last entry of each name counts).
pub open spec fn added_or_modified(prefix: Seq<char>, old: Seq<TreeEntry>, new: Seq<TreeEntry>, n: int) -> Seq<(Seq<char>, u32, u32)>
    decreases n,
{
    if n <= 0 {
        Seq::empty()
    } else {
        added_or_modified(prefix, old, new, n - 1) + (if is_last_of_name(new, n - 1) {
            opt_seq(new_entry_change(prefix, old, new[n - 1]))
        } else {
            Seq::empty()
        })
    }
}

/// The directories to look into among the first `n` new entries.
pub open spec fn dirs_to_visit(prefix: Seq<char>, old: Seq<TreeEntry>, new: Seq<TreeEntry>, n: int) -> Seq<(Seq<char>, Option<Seq<char>>, Seq<char>)>
    decreases n,
{
    if n <= 0 {
        Seq::empty()
    } else {
        dirs_to_visit(prefix, old, new, n - 1) + (if is_last_of_name(new, n - 1) {
            opt_seq(new_entry_dir(prefix, old, new[n - 1]))
        } else {
            Seq::empty()
        })
    }
}

/// The deletions among the first `n` old entries.
pub open spec fn deleted(prefix: Seq<char>, new: Seq<TreeEntry>, old: Seq<TreeEntry>, n: int) -> Seq<(Seq<char>, u32, u32)>
    decreases n,
{
    if n <= 0 {
        Seq::empty()
    } else {
        deleted(prefix, new, old, n - 1) + (if is_last_of_name(old, n - 1) {
            opt_seq(old_entry_change(prefix, new, old[n - 1]))
        } else {
            Seq::empty()
        })
    }
}

proof fn lemma_last_of_name_is_found(es: Seq<TreeEntry>, k: int)
    requires
        0 <= k < es.len(),
        is_last_of_name(es, k),
    ensures
        last_named(es, es[k].name@) == Some(es[k]),
    decreases es.len(),
{
    if k < es.len() - 1 {
        let rest = es.drop_last();
        assert(es[es.len() - 1].name@ != es[k].name@);
        assert forall|j: int| k < j < rest.len() implies (#[trigger] rest[j]).name@ != rest[k].name@ by {
            assert(rest[j] == es[j]);
        }
        lemma_last_of_name_is_found(rest, k);
    }
}

proof fn lemma_same_entries_prefix(prefix: Seq<char>, es: Seq<TreeEntry>, n: int)
    requires
        0 <= n <= es.len(),
    ensures
        added_or_modified(prefix, es, es, n) == Seq::<(Seq<char>, u32, u32)>::empty(),
        dirs_to_visit(prefix, es, es, n) == Seq::<(Seq<char>, Option<Seq<char>>, Seq<char>)>::empty(),
        deleted(prefix, es, es, n) == Seq::<(Seq<char>, u32, u32)>::empty(),
    decreases n,
{
    if n > 0 {
        lemma_same_entries_prefix(prefix, es, n - 1);
        if is_last_of_name(es, n - 1) {
            lemma_last_of_name_is_found(es, n - 1);
        }
        assert(added_or_modified(prefix, es, es, n) =~= Seq::<(Seq<char>, u32, u32)>::empty());
        assert(dirs_to_visit(prefix, es, es, n) =~= Seq::<(Seq<char>, Option<Seq<char>>, Seq<char>)>::empty());
        assert(deleted(prefix, es, es, n) =~= Seq::<(Seq<char>, u32, u32)>::empty());
    }
}

/// Comparing a directory with itself finds nothing: no file changed, no
/// directory to look into.
pub proof fn lemma_same_tree_no_changes(prefix: Seq<char>, es: Seq<TreeEntry>)
    ensures
        added_or_modified(prefix, es, es, es.len() as int) + deleted(prefix, es, es, es.len() as int)
            == Seq::<(Seq<char>, u32, u32)>::empty(),
        dirs_to_visit(prefix, es, es, es.len() as int) == Seq::<(Seq<char>, Option<Seq<char>>, Seq<char>)>::empty(),
{
    lemma_same_entries_prefix(prefix, es, es.len() as int);
    assert(added_or_modified(prefix, es, es, es.len() as int) + deleted(prefix, es, es, es.len() as int)
        =~= Seq::<(Seq<char>, u32, u32)>::empty());
}

proof fn lemma_added_or_modified_has(prefix: Seq<char>, old: Seq<TreeEntry>, new: Seq<TreeEntry>, n: int, k: int)
    requires
        0 <= k < n <= new.len(),
        is_last_of_name(new, k),
        new_entry_change(prefix, old, new[k]) is Some,
    ensures
        added_or_modified(prefix, old, new, n).contains(new_entry_change(prefix, old, new[k])->0),
    decreases n,
{
    let x = new_entry_change(prefix, old, new[k])->0;
    if k == n - 1 {
        let s = added_or_modified(prefix, old, new, n);
        assert(s[s.len() - 1] == x);
    } else {
        lemma_added_or_modified_has(prefix, old, new, n - 1, k);
        let a = added_or_modified(prefix, old, new, n - 1);
        let i = choose|i: int| 0 <= i < a.len() && a[i] == x;
        assert(added_or_modified(prefix, old, new, n)[i] == x);
    }
}

proof fn lemma_deleted_has(prefix: Seq<char>, new: Seq<TreeEntry>, old: Seq<TreeEntry>, n: int, k: int)
    requires
        0 <= k < n <= old.len(),
        is_last_of_name(old, k),
        old_entry_change(prefix, new, old[k]) is Some,
    ensures
        deleted(prefix, new, old, n).contains(old_entry_change(prefix, new, old[k])->0),
    decreases n,
{
    let x = old_entry_change(prefix, new, old[k])->0;
    if k == n - 1 {
        let s = deleted(prefix, new, old, n);
        assert(s[s.len() - 1] == x);
    } else {
        lemma_deleted_has(prefix, new, old, n - 1, k);
        let a = deleted(prefix, new, old, n - 1);
        let i = choose|i: int| 0 <= i < a.len() && a[i] == x;
        assert(deleted(prefix, new, old, n)[i] == x);
    }
}

/// Comparing two versions of a directory reports every file, plain or
/// executable alike: a file whose name is new is added (1, 0), a file
/// whose object changed while it stayed a file is modified (1, 1), and a
/// file whose name is gone is deleted (0, 1).
pub proof fn lemma_diff_reports_every_file(prefix: Seq<char>, old: Seq<TreeEntry>, new: Seq<TreeEntry>)
    ensures
        forall|k: int|
            0 <= k < new.len() && is_last_of_name(new, k)
                && ((#[trigger] new[k]).kind == EntryKind::Blob || new[k].kind == EntryKind::BlobExecutable)
                && last_named(old, new[k].name@) is None
                ==> (added_or_modified(prefix, old, new, new.len() as int) + deleted(prefix, new, old, old.len() as int))
                    .contains((full_path(prefix, new[k].name@), 1u32, 0u32)),
        forall|k: int|
            0 <= k < new.len() && is_last_of_name(new, k)
                && ((#[trigger] new[k]).kind == EntryKind::Blob || new[k].kind == EntryKind::BlobExecutable)
                && last_named(old, new[k].name@) is Some
                && (last_named(old, new[k].name@)->0.kind == EntryKind::Blob
                    || last_named(old, new[k].name@)->0.kind == EntryKind::BlobExecutable)
                && last_named(old, new[k].name@)->0.oid@ != new[k].oid@
                ==> (added_or_modified(prefix, old, new, new.len() as int) + deleted(prefix, new, old, old.len() as int))
                    .contains((full_path(prefix, new[k].name@), 1u32, 1u32)),
        forall|k: int|
            0 <= k < old.len() && is_last_of_name(old, k)
                && ((#[trigger] old[k]).kind == EntryKind::Blob || old[k].kind == EntryKind::BlobExecutable)
                && last_named(new, old[k].name@) is None
                ==> (added_or_modified(prefix, old, new, new.len() as int) + deleted(prefix, new, old, old.len() as int))
                    .contains((full_path(prefix, old[k].name@), 0u32, 1u32)),
{
    let a = added_or_modified(prefix, old, new, new.len() as int);
    let d = deleted(prefix, new, old, old.len() as int);
    assert forall|k: int|
        0 <= k < new.len() && is_last_of_name(new, k)
            && ((#[trigger] new[k]).kind == EntryKind::Blob || new[k].kind == EntryKind::BlobExecutable)
            && last_named(old, new[k].name@) is None
        implies (a + d).contains((full_path(prefix, new[k].name@), 1u32, 0u32)) by {
        lemma_added_or_modified_has(prefix, old, new, new.len() as int, k);
        let i = choose|i: int| 0 <= i < a.len() && a[i] == (full_path(prefix, new[k].name@), 1u32, 0u32);
        assert((a + d)[i] == a[i]);
    }
    assert forall|k: int|
        0 <= k < new.len() && is_last_of_name(new, k)
            && ((#[trigger] new[k]).kind == EntryKind::Blob || new[k].kind == EntryKind::BlobExecutable)
            && last_named(old, new[k].name@) is Some
            && (last_named(old, new[k].name@)->0.kind == EntryKind::Blob
                || last_named(old, new[k].name@)->0.kind == EntryKind::BlobExecutable)
            && last_named(old, new[k].name@)->0.oid@ != new[k].oid@
        implies (a + d).contains((full_path(prefix, new[k].name@), 1u32, 1u32)) by {
        lemma_added_or_modified_has(prefix, old, new, new.len() as int, k);
        let i = choose|i: int| 0 <= i < a.len() && a[i] == (full_path(prefix, new[k].name@), 1u32, 1u32);
        assert((a + d)[i] == a[i]);
    }
    assert forall|k: int|
        0 <= k < old.len() && is_last_of_name(old, k)
            && ((#[trigger] old[k]).kind == EntryKind::Blob || old[k].kind == EntryKind::BlobExecutable)
            && last_named(new, old[k].name@) is None
        implies (a + d).contains((full_path(prefix, old[k].name@), 0u32, 1u32)) by {
        lemma_deleted_has(prefix, new, old, old.len() as int, k);
        let i = choose|i: int| 0 <= i < d.len() && d[i] == (full_path(prefix, old[k].name@), 0u32, 1u32);
        assert((a + d)[a.len() + i] == d[i]);
    }
}

/// A directory to look into while comparing two trees: `old_oid` is the
/// tree it had (none for a new directory), `new_oid` the tree it has.
#[derive(Debug, Clone)]
pub struct DirVisit {
    pub path: String,
    pub old_oid: Option<String>,
    pub new_oid: String,
}

/// A directory visit as plain values.
pub open spec fn visit_view(d: DirVisit) -> (Seq<char>, Option<Seq<char>>, Seq<char>) {
    (d.path@, match d.old_oid { Some(o) => Some(o@), None => None }, d.new_oid@)
}

/// What changed between two versions of one directory.
#[derive(Debug, Clone)]
pub struct TreeDiff {
    pub changes: Vec<FileChange>,
    pub dirs: Vec<DirVisit>,
}

/// Compares the entries of a directory before (`old`) and after (`new`).
///
/// Entries are matched by name (where a name repeats, its last entry
/// counts) and are unchanged when their object ids are equal. A new file
/// is added (1 line added), a file with a new object is modified (1 added,
/// 1 removed), a file whose name is gone is deleted (1 removed). New
/// directories, and directories whose tree changed, are returned to be
/// looked into. An entry that turned from file to directory or back makes
/// no change.
pub fn diff_tree_entries(prefix: &str, old: &[TreeEntry], new: &[TreeEntry]) -> (diff: TreeDiff)
    ensures
        diff.changes@.map_values(|c: FileChange| change_view(c)) == added_or_modified(prefix@, old@, new@, new@.len() as int)
            + deleted(prefix@, new@, old@, old@.len() as int),
        diff.dirs@.map_values(|d: DirVisit| visit_view(d)) == dirs_to_visit(prefix@, old@, new@, new@.len() as int),
{
    let old_index = name_index(old);
    let new_index = name_index(new);
    let mut changes: Vec<FileChange> = Vec::new();
    let mut dirs: Vec<DirVisit> = Vec::new();
    let mut i: usize = 0;
    while i < new.len()
        invariant
            i <= new@.len(),
            forall|q: Seq<char>| #[trigger] old_index@.contains_key(q) <==> last_named(old@, q) is Some,
            forall|q: Seq<char>|
                #[trigger] old_index@.contains_key(q) ==> {
                    &&& old_index@[q] < old@.len()
                    &&& last_named(old@, q) == Some(old@[old_index@[q] as int])
                },
            forall|q: Seq<char>|
                #[trigger] new_index@.contains_key(q) ==> {
                    &&& new_index@[q] < new@.len()
                    &&& new@[new_index@[q] as int].name@ == q
                    &&& is_last_of_name(new@, new_index@[q] as int)
                },
            forall|q: Seq<char>| #[trigger] new_index@.contains_key(q) <==> last_named(new@, q) is Some,
            changes@.map_values(|c: FileChange| change_view(c)) == added_or_modified(prefix@, old@, new@, i as int),
            dirs@.map_values(|d: DirVisit| visit_view(d)) == dirs_to_visit(prefix@, old@, new@, i as int),
        decreases new@.len() - i,
    {
        let e = &new[i];
        let ghost before_c = changes@;
        let ghost before_d = dirs@;
        let last = match new_index.get(e.name.as_str()) {
            Some(k) => *k == i,
            None => false,
        };
        proof {
            assert(last_named(new@, e.name@) is Some) by {
                lemma_last_named_some(new@, e.name@, i as int);
            }
            if new_index@.contains_key(e.name@) {
                if is_last_of_name(new@, i as int) {
                    lemma_last_position_unique(new@, i as int, new_index@[e.name@] as int);
                }
            }
        }
        let ghost is_last = is_last_of_name(new@, i as int);
        assert(last == is_last) by {
            if is_last {
                assert(new_index@.contains_key(e.name@)) by {
                    lemma_last_named_some(new@, e.name@, i as int);
                }
            }
        }
        if last {
            let path = make_full_path(prefix, e.name.as_str());
            match old_index.get(e.name.as_str()) {
                None => {
                    if e.kind.is_blob_mode() {
                        changes.push(FileChange { path, additions: 1, deletions: 0 });
                    } else if e.kind.is_tree_mode() {
                        dirs.push(DirVisit { path, old_oid: None, new_oid: e.oid.clone() });
                    }
                },
                Some(k) => {
                    let o = &old[*k];
                    if e.oid == o.oid {
                    } else if e.kind.is_blob_mode() && o.kind.is_blob_mode() {
                        changes.push(FileChange { path, additions: 1, deletions: 1 });
                    } else if e.kind.is_tree_mode() && o.kind.is_tree_mode() {
                        dirs.push(DirVisit { path, old_oid: Some(o.oid.clone()), new_oid: e.oid.clone() });
                    }
                },
            }
        }
        proof {
            assert(changes@.map_values(|c: FileChange| change_view(c)) =~= added_or_modified(prefix@, old@, new@, i + 1)) by {
                assert(before_c.map_values(|c: FileChange| change_view(c)) == added_or_modified(prefix@, old@, new@, i as int));
            }
            assert(dirs@.map_values(|d: DirVisit| visit_view(d)) =~= dirs_to_visit(prefix@, old@, new@, i + 1)) by {
                assert(before_d.map_values(|d: DirVisit| visit_view(d)) == dirs_to_visit(prefix@, old@, new@, i as int));
            }
        }
        i = i + 1;
    }
    let ghost front = changes@.map_values(|c: FileChange| change_view(c));
    let mut j: usize = 0;
    while j < old.len()
        invariant
            j <= old@.len(),
            forall|q: Seq<char>| #[trigger] new_index@.contains_key(q) <==> last_named(new@, q) is Some,
            forall|q: Seq<char>|
                #[trigger] old_index@.contains_key(q) ==> {
                    &&& old_index@[q] < old@.len()
                    &&& old@[old_index@[q] as int].name@ == q
                    &&& is_last_of_name(old@, old_index@[q] as int)
                },
            forall|q: Seq<char>| #[trigger] old_index@.contains_key(q) <==> last_named(old@, q) is Some,
            front == added_or_modified(prefix@, old@, new@, new@.len() as int),
            changes@.map_values(|c: FileChange| change_view(c)) == front + deleted(prefix@, new@, old@, j as int),
            dirs@.map_values(|d: DirVisit| visit_view(d)) == dirs_to_visit(prefix@, old@, new@, new@.len() as int),
        decreases old@.len() - j,
    {
        let o = &old[j];
        let ghost before_c = changes@;
        let last = match old_index.get(o.name.as_str()) {
            Some(k) => *k == j,
            None => false,
        };
        let ghost is_last = is_last_of_name(old@, j as int);
        proof {
            lemma_last_named_some(old@, o.name@, j as int);
        }
        assert(last == is_last) by {
            if old_index@.contains_key(o.name@) && is_last {
                lemma_last_position_unique(old@, j as int, old_index@[o.name@] as int);
            }
        }
        let ghost step = if is_last { opt_seq(old_entry_change(prefix@, new@, old@[j as int])) } else { Seq::empty() };
        assert(deleted(prefix@, new@, old@, j + 1) == deleted(prefix@, new@, old@, j as int) + step);
        if last && !new_index.contains_key(o.name.as_str()) && o.kind.is_blob_mode() {
            let path = make_full_path(prefix, o.name.as_str());
            changes.push(FileChange { path, additions: 0, deletions: 1 });
            assert(step =~= seq![(full_path(prefix@, o.name@), 0u32, 1u32)]);
            assert(changes@.map_values(|c: FileChange| change_view(c)) =~= before_c.map_values(|c: FileChange| change_view(c)).push((full_path(prefix@, o.name@), 0u32, 1u32)));
        } else {
            assert(step =~= Seq::<(Seq<char>, u32, u32)>::empty());
        }
        proof {
            assert(changes@.map_values(|c: FileChange| change_view(c)) =~= front + deleted(prefix@, new@, old@, j + 1)) by {
                assert(before_c.map_values(|c: FileChange| change_view(c)) == front + deleted(prefix@, new@, old@, j as int));
            }
        }
        j = j + 1;
    }
    TreeDiff { changes, dirs }
}

/// How the files a commit changes are found from its tree and its first
/// parent's tree.
#[derive(Debug, Clone, Copy, PartialEq, Eq, Structural)]
pub enum CommitTrees {
    /// The commit has no parent: every file of its tree is added.
    AllAdded,
    /// The commit's tree is its parent's tree: nothing changed.
    Unchanged,
    /// The trees differ: compare them.
    Compare,
}

/// Decides, from the tree ids (in hex) of a commit and of its first parent
/// (none for a root commit), how its changes are found.
pub fn commit_trees(parent_tree: &Option<String>, tree: &String) -> (plan: CommitTrees)
    ensures
        parent_tree is None ==> plan == CommitTrees::AllAdded,
        parent_tree is Some ==> plan == (if parent_tree->0@ == tree@ { CommitTrees::Unchanged } else { CommitTrees::Compare }),
{
    match parent_tree {
        None => CommitTrees::AllAdded,
        Some(p) => {
            if *p == *tree {
                CommitTrees::Unchanged
            } else {
                CommitTrees::Compare
            }
        },
    }
}

} // verus!
