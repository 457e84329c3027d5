use vstd::prelude::*;
use vstd::hash_map::StringHashMap;
use crate::clock::{month_label, month_label_of, MAX_TIMESTAMP, MIN_TIMESTAMP};
use crate::model::CommitData;
use crate::authors::{lemma_commits_are_counted, one_per_commit};
use crate::partition::{lemma_parts_add_up, sum_for_key, sum_over_keys};

verus! {

/// The number of commits made in one calendar month, labelled `YYYY-MM`.
#[derive(Debug, Clone)]
pub struct MonthlyActivity {
    pub label: String,
    pub commit_count: u32,
}

/// `a` sorts before `b`: the order of Rust's `str` comparison, character
/// by character, a proper prefix first.
pub open spec fn text_before(a: Seq<char>, b: Seq<char>) -> bool
    decreases a.len(),
{
    if a.len() == 0 {
        b.len() > 0
    } else if b.len() == 0 {
        false
    } else if a[0] != b[0] {
        (a[0] as int) < (b[0] as int)
    } else {
        text_before(a.drop_first(), b.drop_first())
    }
}

proof fn lemma_text_before_transitive(a: Seq<char>, b: Seq<char>, c: Seq<char>)
    requires
        text_before(a, b),
        text_before(b, c),
    ensures
        text_before(a, c),
    decreases a.len(),
{
    if a.len() > 0 && b.len() > 0 && c.len() > 0 && a[0] == b[0] && b[0] == c[0] {
        lemma_text_before_transitive(a.drop_first(), b.drop_first(), c.drop_first());
    }
}

proof fn lemma_text_before_total(a: Seq<char>, b: Seq<char>)
    requires
        a != b,
    ensures
        text_before(a, b) || text_before(b, a),
    decreases a.len(),
{
    if a.len() > 0 && b.len() > 0 && a[0] == b[0] {
        if a.drop_first() == b.drop_first() {
            assert(a =~= seq![a[0]] + a.drop_first());
            assert(b =~= seq![b[0]] + b.drop_first());
        }
        lemma_text_before_total(a.drop_first(), b.drop_first());
    } else if a.len() == 0 && b.len() == 0 {
        assert(a =~= b);
    } else if a.len() > 0 && b.len() > 0 {
        assert((a[0] as int) != (b[0] as int));
    }
}

proof fn lemma_text_before_irreflexive(a: Seq<char>)
    ensures
        !text_before(a, a),
    decreases a.len(),
{
    if a.len() > 0 {
        lemma_text_before_irreflexive(a.drop_first());
    }
}

/// Compares two texts in the order of `text_before`.
pub fn label_before(a: &str, b: &str) -> (before: bool)
    ensures
        before == text_before(a@, b@),
{
    let n = a.unicode_len();
    let m = b.unicode_len();
    let mut i: usize = 0;
    assert(a@.skip(0) =~= a@);
    assert(b@.skip(0) =~= b@);
    while i < n && i < m && a.get_char(i) == b.get_char(i)
        invariant
            n == a@.len(),
            m == b@.len(),
            i <= n,
            i <= m,
            text_before(a@, b@) == text_before(a@.skip(i as int), b@.skip(i as int)),
        decreases n - i,
    {
        proof {
            let sa = a@.skip(i as int);
            let sb = b@.skip(i as int);
            assert(sa.drop_first() =~= a@.skip(i + 1));
            assert(sb.drop_first() =~= b@.skip(i + 1));
            assert(sa[0] == a@[i as int]);
            assert(sb[0] == b@[i as int]);
        }
        i = i + 1;
    }
    let ghost sa = a@.skip(i as int);
    let ghost sb = b@.skip(i as int);
    if i == n {
        i < m
    } else if i == m {
        false
    } else {
        assert(sa[0] == a@[i as int]);
        assert(sb[0] == b@[i as int]);
        (a.get_char(i) as u32) < (b.get_char(i) as u32)
    }
}

/// The number of commits of `cs` made in the month labelled `label`.
pub open spec fn month_count(cs: Seq<CommitData>, label: Seq<char>) -> nat
    decreases cs.len(),
{
    if cs.len() == 0 {
        0
    } else {
        month_count(cs.drop_last(), label) + (if month_label_of(cs.last().timestamp) == label { 1nat } else { 0nat })
    }
}

/// Some commit of `cs` was made in the month labelled `label`.
pub open spec fn has_month(cs: Seq<CommitData>, label: Seq<char>) -> bool {
    exists|k: int| 0 <= k < cs.len() && month_label_of((#[trigger] cs[k]).timestamp) == label
}

/// Every commit time is a second that `chrono` can show as a date.
pub open spec fn timestamps_representable(cs: Seq<CommitData>) -> bool {
    forall|k: int| 0 <= k < cs.len() ==> MIN_TIMESTAMP <= (#[trigger] cs[k]).timestamp <= MAX_TIMESTAMP
}

/// Some entry of `months` is labelled `label`.
pub open spec fn lists_month(months: Seq<MonthlyActivity>, label: Seq<char>) -> bool {
    exists|i: int| 0 <= i < months.len() && (#[trigger] months[i]).label@ == label
}

/// `months` counts the commits of `cs` month by month: one entry per month
/// with a commit, with its number of commits, in the order of the labels.
pub open spec fn is_monthly_report(months: Seq<MonthlyActivity>, cs: Seq<CommitData>) -> bool {
    &&& forall|i: int| 0 <= i < months.len() ==> has_month(cs, (#[trigger] months[i]).label@)
    &&& forall|i: int| 0 <= i < months.len() ==> (#[trigger] months[i]).commit_count == month_count(cs, months[i].label@)
    &&& forall|k: int| 0 <= k < cs.len() ==> lists_month(months, month_label_of((#[trigger] cs[k]).timestamp))
    &&& forall|i: int, j: int| 0 <= i < j < months.len() ==> text_before((#[trigger] months[i]).label@, (#[trigger] months[j]).label@)
}

/// How many of the labels `ls` are `label`.
pub open spec fn label_count(ls: Seq<String>, label: Seq<char>) -> nat
    decreases ls.len(),
{
    if ls.len() == 0 {
        0
    } else {
        label_count(ls.drop_last(), label) + (if ls.last()@ == label { 1nat } else { 0nat })
    }
}

/// Some label of `ls` is `label`.
pub open spec fn has_label(ls: Seq<String>, label: Seq<char>) -> bool {
    exists|k: int| 0 <= k < ls.len() && (#[trigger] ls[k])@ == label
}

proof fn lemma_label_count_absent(ls: Seq<String>, label: Seq<char>)
    requires
        !has_label(ls, label),
    ensures
        label_count(ls, label) == 0,
    decreases ls.len(),
{
    if ls.len() > 0 {
        assert(!has_label(ls.drop_last(), label)) by {
            if has_label(ls.drop_last(), label) {
                let k = choose|k: int| 0 <= k < ls.drop_last().len() && (#[trigger] ls.drop_last()[k])@ == label;
                assert(ls[k] == ls.drop_last()[k]);
            }
        }
        assert(ls.last() == ls[ls.len() - 1]);
        lemma_label_count_absent(ls.drop_last(), label);
    }
}

proof fn lemma_label_count_bounded(ls: Seq<String>, label: Seq<char>)
    ensures
        label_count(ls, label) <= ls.len(),
    decreases ls.len(),
{
    if ls.len() > 0 {
        lemma_label_count_bounded(ls.drop_last(), label);
    }
}

/// `months` counts the labels `ls`: one entry per distinct label, with the
/// number of its occurrences, in the order of the labels.
pub open spec fn is_label_tally(months: Seq<MonthlyActivity>, ls: Seq<String>) -> bool {
    &&& forall|i: int| 0 <= i < months.len() ==> has_label(ls, (#[trigger] months[i]).label@)
    &&& forall|i: int| 0 <= i < months.len() ==> (#[trigger] months[i]).commit_count == label_count(ls, months[i].label@)
    &&& forall|k: int| 0 <= k < ls.len() ==> lists_month(months, (#[trigger] ls[k])@)
    &&& forall|i: int, j: int| 0 <= i < j < months.len() ==> text_before((#[trigger] months[i]).label@, (#[trigger] months[j]).label@)
}

/// The month labels of the commits are `ls`, commit by commit.
pub open spec fn labels_of_commits(ls: Seq<String>, cs: Seq<CommitData>) -> bool {
    &&& ls.len() == cs.len()
    &&& forall|k: int| 0 <= k < cs.len() ==> (#[trigger] ls[k])@ == month_label_of(cs[k].timestamp)
}

proof fn lemma_counts_agree(ls: Seq<String>, cs: Seq<CommitData>, label: Seq<char>)
    requires
        labels_of_commits(ls, cs),
    ensures
        label_count(ls, label) == month_count(cs, label),
        has_label(ls, label) <==> has_month(cs, label),
    decreases cs.len(),
{
    if cs.len() > 0 {
        let ls2 = ls.drop_last();
        let cs2 = cs.drop_last();
        assert forall|k: int| 0 <= k < cs2.len() implies (#[trigger] ls2[k])@ == month_label_of(cs2[k].timestamp) by {
            assert(ls2[k] == ls[k] && cs2[k] == cs[k]);
        }
        lemma_counts_agree(ls2, cs2, label);
        assert(ls.last() == ls[ls.len() - 1]);
        assert(cs.last() == cs[cs.len() - 1]);
        if has_label(ls, label) {
            let k = choose|k: int| 0 <= k < ls.len() && (#[trigger] ls[k])@ == label;
            assert(month_label_of(cs[k].timestamp) == label);
        }
        if has_month(cs, label) {
            let k = choose|k: int| 0 <= k < cs.len() && month_label_of((#[trigger] cs[k]).timestamp) == label;
            assert(ls[k]@ == label);
        }
    }
}

/// Counts a list of month labels: one entry per distinct label with the
/// number of times it occurs, in the order of the labels.
pub fn tally_months(month_labels: &[String]) -> (months: Vec<MonthlyActivity>)
    requires
        month_labels@.len() <= u32::MAX,
    ensures
        is_label_tally(months@, month_labels@),
{
    let ghost ls = month_labels@;
    let mut labels: Vec<String> = Vec::new();
    let mut counts: Vec<u32> = Vec::new();
    let mut index: StringHashMap<usize> = StringHashMap::new();
    let mut i: usize = 0;
    while i < month_labels.len()
        invariant
            ls == month_labels@,
            ls.len() <= u32::MAX,
            i <= ls.len(),
            labels@.len() == counts@.len(),
            forall|q: Seq<char>| #[trigger] index@.contains_key(q) ==> index@[q] < labels@.len() && labels@[index@[q] as int]@ == q,
            forall|a: int| 0 <= a < labels@.len() ==> #[trigger] index@.contains_key(labels@[a]@),
            forall|a: int, b: int| 0 <= a < b < labels@.len() ==> (#[trigger] labels@[a])@ != (#[trigger] labels@[b])@,
            forall|a: int| 0 <= a < labels@.len() ==> has_label(ls.take(i as int), (#[trigger] labels@[a])@),
            forall|a: int| 0 <= a < labels@.len() ==> #[trigger] counts@[a] == label_count(ls.take(i as int), labels@[a]@),
            forall|k: int| 0 <= k < i ==> #[trigger] index@.contains_key(ls[k]@),
        decreases ls.len() - i,
    {
        let ghost p = ls.take(i as int);
        let ghost p2 = ls.take(i + 1);
        proof {
            assert(p2.drop_last() =~= p);
            assert(p2.last() == ls[i as int]);
        }
        let label = month_labels[i].clone();
        let ghost lv = label@;
        let ghost old_labels = labels@;
        let ghost old_counts = counts@;
        let ghost old_index = index@;
        proof {
            assert forall|a: int| 0 <= a < old_labels.len() implies has_label(p2, (#[trigger] old_labels[a])@) by {
                let k = choose|k: int| 0 <= k < p.len() && (#[trigger] p[k])@ == old_labels[a]@;
                assert(p2[k] == p[k]);
            }
        }
        let pos = match index.get(label.as_str()) {
            Some(v) => *v,
            None => labels.len(),
        };
        if pos < labels.len() {
            proof {
                lemma_label_count_bounded(p2, lv);
            }
            let c = counts[pos];
            counts.set(pos, c + 1);
            proof {
                assert(labels@[pos as int]@ == lv);
                assert forall|a: int| 0 <= a < labels@.len() implies #[trigger] counts@[a] == label_count(p2, labels@[a]@) by {
                    if a != pos {
                        assert(labels@[a]@ != lv);
                    }
                }
                assert forall|k: int| 0 <= k < i + 1 implies #[trigger] index@.contains_key(ls[k]@) by {}
            }
        } else {
            proof {
                assert(!has_label(p, lv)) by {
                    if has_label(p, lv) {
                        let k = choose|k: int| 0 <= k < p.len() && (#[trigger] p[k])@ == lv;
                        assert(p[k] == ls[k]);
                        assert(index@.contains_key(ls[k]@));
                    }
                }
                lemma_label_count_absent(p, lv);
            }
            index.insert(label.clone(), labels.len());
            labels.push(label);
            counts.push(1);
            proof {
                assert forall|q: Seq<char>| #[trigger] index@.contains_key(q) implies index@[q] < labels@.len() && labels@[index@[q] as int]@ == q by {
                    if q != lv {
                        assert(old_index.contains_key(q));
                        assert(labels@[index@[q] as int] == old_labels[index@[q] as int]);
                    }
                }
                assert forall|a: int| 0 <= a < labels@.len() implies #[trigger] index@.contains_key(labels@[a]@) by {
                    if a < old_labels.len() {
                        assert(labels@[a] == old_labels[a]);
                    }
                }
                assert forall|a: int, b: int| 0 <= a < b < labels@.len() implies (#[trigger] labels@[a])@ != (#[trigger] labels@[b])@ by {
                    assert(labels@[a] == old_labels[a]);
                    if b < old_labels.len() {
                        assert(labels@[b] == old_labels[b]);
                    } else {
                        assert(old_index.contains_key(old_labels[a]@));
                    }
                }
                assert forall|a: int| 0 <= a < labels@.len() implies has_label(p2, (#[trigger] labels@[a])@) by {
                    if a < old_labels.len() {
                        assert(labels@[a] == old_labels[a]);
                    } else {
                        assert(p2[i as int] == ls[i as int]);
                    }
                }
                assert forall|a: int| 0 <= a < labels@.len() implies #[trigger] counts@[a] == label_count(p2, labels@[a]@) by {
                    if a < old_labels.len() {
                        assert(labels@[a] == old_labels[a]);
                        assert(old_index.contains_key(old_labels[a]@));
                        assert(old_labels[a]@ != lv);
                    }
                }
                assert forall|k: int| 0 <= k < i + 1 implies #[trigger] index@.contains_key(ls[k]@) by {
                    if k < i {
                        assert(old_index.contains_key(ls[k]@));
                    }
                }
            }
        }
        i = i + 1;
    }
    proof {
        assert(ls.take(i as int) =~= ls);
    }
    // Insertion sort of the entry positions by label.
    let n = labels.len();
    let mut ord: Vec<usize> = Vec::new();
    let mut j: usize = 0;
    while j < n
        invariant
            n == labels@.len(),
            j <= n,
            ord@.len() == j,
            ord@.no_duplicates(),
            forall|a: int, b: int| 0 <= a < b < labels@.len() ==> (#[trigger] labels@[a])@ != (#[trigger] labels@[b])@,
            forall|k: int| 0 <= k < ord@.len() ==> #[trigger] ord@[k] < j,
            forall|x: usize| x < j ==> ord@.contains(x),
            forall|a: int, b: int|
                0 <= a < b < ord@.len() ==> text_before(labels@[#[trigger] ord@[a] as int]@, labels@[#[trigger] ord@[b] as int]@),
        decreases n - j,
    {
        let mut pos: usize = 0;
        while pos < ord.len() && label_before(labels[ord[pos]].as_str(), labels[j].as_str())
            invariant
                n == labels@.len(),
                j < n,
                pos <= ord@.len(),
                forall|k: int| 0 <= k < ord@.len() ==> #[trigger] ord@[k] < j,
                forall|k: int| 0 <= k < pos ==> text_before(labels@[#[trigger] ord@[k] as int]@, labels@[j as int]@),
            decreases ord@.len() - pos,
        {
            pos = pos + 1;
        }
        let ghost old_ord = ord@;
        let ghost lj = labels@[j as int]@;
        proof {
            if pos < old_ord.len() {
                let x = labels@[old_ord[pos as int] as int]@;
                assert(!text_before(x, lj));
                assert(x != lj);
                lemma_text_before_total(x, lj);
                assert forall|k: int| pos <= k < old_ord.len() implies text_before(lj, labels@[#[trigger] old_ord[k] as int]@) by {
                    if k > pos {
                        lemma_text_before_transitive(lj, x, labels@[old_ord[k] as int]@);
                    }
                }
            }
        }
        ord.insert(pos, j);
        proof {
            let s = ord@;
            assert(s =~= old_ord.insert(pos as int, j));
            assert forall|k: int| 0 <= k < s.len() implies #[trigger] s[k] < j + 1 by {
                if k < pos {
                    assert(s[k] == old_ord[k]);
                } else if k > pos {
                    assert(s[k] == old_ord[k - 1]);
                }
            }
            assert forall|x: usize| x < j + 1 implies s.contains(x) by {
                if x == j {
                    assert(s[pos as int] == j);
                } else {
                    assert(old_ord.contains(x));
                    let q = choose|q: int| 0 <= q < old_ord.len() && old_ord[q] == x;
                    if q < pos {
                        assert(s[q] == x);
                    } else {
                        assert(s[q + 1] == x);
                    }
                }
            }
            assert(s.no_duplicates()) by {
                assert forall|a: int, b: int| 0 <= a < s.len() && 0 <= b < s.len() && a != b implies s[a] != s[b] by {
                    let ia = if a < pos { a } else { a - 1 };
                    let ib = if b < pos { b } else { b - 1 };
                    if a != pos {
                        assert(s[a] == old_ord[ia]);
                    }
                    if b != pos {
                        assert(s[b] == old_ord[ib]);
                    }
                }
            }
            assert forall|a: int, b: int| 0 <= a < b < s.len() implies text_before(labels@[#[trigger] s[a] as int]@, labels@[#[trigger] s[b] as int]@) by {
                if a < pos && b < pos {
                    assert(s[a] == old_ord[a] && s[b] == old_ord[b]);
                } else if a < pos && b == pos {
                    assert(s[a] == old_ord[a]);
                } else if a < pos && b > pos {
                    assert(s[a] == old_ord[a] && s[b] == old_ord[b - 1]);
                    lemma_text_before_transitive(labels@[old_ord[a] as int]@, lj, labels@[old_ord[b - 1] as int]@);
                } else if a == pos {
                    assert(s[b] == old_ord[b - 1]);
                } else {
                    assert(s[a] == old_ord[a - 1] && s[b] == old_ord[b - 1]);
                }
            }
        }
        j = j + 1;
    }
    let mut months: Vec<MonthlyActivity> = Vec::new();
    let mut k: usize = 0;
    while k < n
        invariant
            n == labels@.len(),
            n == counts@.len(),
            ord@.len() == n,
            forall|a: int| 0 <= a < ord@.len() ==> #[trigger] ord@[a] < n,
            k <= n,
            months@.len() == k,
            forall|a: int| 0 <= a < k ==> (#[trigger] months@[a]).label@ == labels@[ord@[a] as int]@,
            forall|a: int| 0 <= a < k ==> (#[trigger] months@[a]).commit_count == counts@[ord@[a] as int],
        decreases n - k,
    {
        let idx = ord[k];
        months.push(MonthlyActivity { label: labels[idx].clone(), commit_count: counts[idx] });
        k = k + 1;
    }
    proof {
        assert forall|q: int| 0 <= q < ls.len() implies lists_month(months@, (#[trigger] ls[q])@) by {
            let lq = ls[q]@;
            assert(index@.contains_key(lq));
            let a = index@[lq] as int;
            assert(ord@.contains(a as usize));
            let pos = choose|pos: int| 0 <= pos < ord@.len() && ord@[pos] == a as usize;
            assert(months@[pos].label@ == lq);
        }
        assert forall|a: int, b: int| 0 <= a < b < months@.len() implies text_before((#[trigger] months@[a]).label@, (#[trigger] months@[b]).label@) by {}
    }
    months
}

/// The commits counted month by month, the earliest month label first.
///
/// Each month in which some commit was made (by author time, UTC) gets one
/// entry with the number of its commits; entries are in the order of their
/// `YYYY-MM` labels.
pub fn calc_monthly_activity(commits: &[CommitData]) -> (months: Vec<MonthlyActivity>)
    requires
        timestamps_representable(commits@),
        commits@.len() <= u32::MAX,
    ensures
        is_monthly_report(months@, commits@),
{
    let ghost cs = commits@;
    let mut labels: Vec<String> = Vec::new();
    let mut i: usize = 0;
    while i < commits.len()
        invariant
            cs == commits@,
            timestamps_representable(cs),
            i <= cs.len(),
            labels_of_commits(labels@, cs.take(i as int)),
        decreases cs.len() - i,
    {
        let ts = commits[i].timestamp;
        let label = match month_label(ts) {
            Some(l) => l,
            None => {
                assert(false);
                String::new()
            },
        };
        let ghost old_labels = labels@;
        labels.push(label);
        proof {
            let p2 = cs.take(i + 1);
            assert forall|k: int| 0 <= k < p2.len() implies (#[trigger] labels@[k])@ == month_label_of(p2[k].timestamp) by {
                if k < i {
                    assert(labels@[k] == old_labels[k]);
                    assert(p2[k] == cs.take(i as int)[k]);
                }
            }
        }
        i = i + 1;
    }
    assert(cs.take(i as int) =~= cs);
    let months = tally_months(&labels);
    proof {
        let ls = labels@;
        assert forall|i: int| 0 <= i < months@.len() implies has_month(cs, (#[trigger] months@[i]).label@) by {
            lemma_counts_agree(ls, cs, months@[i].label@);
        }
        assert forall|i: int| 0 <= i < months@.len() implies (#[trigger] months@[i]).commit_count == month_count(cs, months@[i].label@) by {
            lemma_counts_agree(ls, cs, months@[i].label@);
        }
        assert forall|k: int| 0 <= k < cs.len() implies lists_month(months@, month_label_of((#[trigger] cs[k]).timestamp)) by {
            assert(lists_month(months@, ls[k]@));
        }
    }
    months
}

/// The month of a commit, as the key that commits are grouped by.
pub open spec fn month_key() -> spec_fn(CommitData) -> Seq<char> {
    |c: CommitData| month_label_of(c.timestamp)
}

/// The commits counted over the months.
pub open spec fn listed_month_commits(months: Seq<MonthlyActivity>) -> nat
    decreases months.len(),
{
    if months.len() == 0 { 0 } else { listed_month_commits(months.drop_last()) + (months.last().commit_count as nat) }
}

proof fn lemma_month_count_as_sum(cs: Seq<CommitData>, label: Seq<char>)
    ensures
        month_count(cs, label) == sum_for_key(cs, month_key(), label, one_per_commit()),
    decreases cs.len(),
{
    if cs.len() > 0 {
        lemma_month_count_as_sum(cs.drop_last(), label);
    }
}

proof fn lemma_listed_months_as_sum(cs: Seq<CommitData>, months: Seq<MonthlyActivity>)
    requires
        forall|i: int| 0 <= i < months.len() ==> (#[trigger] months[i]).commit_count == month_count(cs, months[i].label@),
    ensures
        listed_month_commits(months) == sum_over_keys(cs, month_key(), months.map_values(|m: MonthlyActivity| m.label@), one_per_commit()),
    decreases months.len(),
{
    if months.len() > 0 {
        let rest = months.drop_last();
        assert forall|i: int| 0 <= i < rest.len() implies (#[trigger] rest[i]).commit_count == month_count(cs, rest[i].label@) by {
            assert(rest[i] == months[i]);
        }
        lemma_listed_months_as_sum(cs, rest);
        assert(months.map_values(|m: MonthlyActivity| m.label@).drop_last() =~= rest.map_values(|m: MonthlyActivity| m.label@));
        assert(months.last() == months[months.len() - 1]);
        lemma_month_count_as_sum(cs, months.last().label@);
    }
}

/// The monthly activity accounts for every commit exactly once: its
/// counts add up to the number of commits.
pub proof fn lemma_monthly_activity_adds_up(cs: Seq<CommitData>, months: Seq<MonthlyActivity>)
    requires
        is_monthly_report(months, cs),
    ensures
        listed_month_commits(months) == cs.len(),
{
    let labels = months.map_values(|m: MonthlyActivity| m.label@);
    assert(labels.no_duplicates()) by {
        assert forall|i: int, j: int| 0 <= i < labels.len() && 0 <= j < labels.len() && i != j implies labels[i] != labels[j] by {
            lemma_text_before_irreflexive(labels[i]);
            if i < j {
                assert(text_before(months[i].label@, months[j].label@));
            } else {
                assert(text_before(months[j].label@, months[i].label@));
            }
        }
    }
    assert forall|k: int| 0 <= k < cs.len() implies labels.contains((month_key())(#[trigger] cs[k])) by {
        assert(lists_month(months, month_label_of(cs[k].timestamp)));
        let i = choose|i: int| 0 <= i < months.len() && (#[trigger] months[i]).label@ == month_label_of(cs[k].timestamp);
        assert(labels[i] == month_label_of(cs[k].timestamp));
    }
    lemma_listed_months_as_sum(cs, months);
    lemma_parts_add_up(cs, month_key(), labels, one_per_commit());
    lemma_commits_are_counted(cs);
}

} // verus!
