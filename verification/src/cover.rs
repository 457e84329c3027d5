use vstd::prelude::*;

verus! {

/// The sum of a sequence of weights.
pub open spec fn weight_sum(w: Seq<u64>) -> nat
    decreases w.len(),
{
    if w.len() == 0 {
        0
    } else {
        weight_sum(w.drop_last()) + (w.last() as nat)
    }
}

/// The combined weight of the members `g` (indices into `w`).
pub open spec fn group_sum(w: Seq<u64>, g: Seq<usize>) -> nat
    decreases g.len(),
{
    if g.len() == 0 {
        0
    } else {
        group_sum(w, g.drop_last()) + (w[g.last() as int] as nat)
    }
}

/// `g` names distinct members among the `n` there are.
pub open spec fn is_group(g: Seq<usize>, n: nat) -> bool {
    &&& g.no_duplicates()
    &&& forall|i: int| 0 <= i < g.len() ==> #[trigger] g[i] < n
}

/// The group `g` together reaches `threshold`.
pub open spec fn covers(w: Seq<u64>, g: Seq<usize>, threshold: nat) -> bool {
    is_group(g, w.len()) && group_sum(w, g) >= threshold
}

/// The smallest share of a total that counts as covering it: 80%, rounded up.
pub open spec fn cover_threshold(total: nat) -> nat {
    (4 * total + 4) / 5
}

/// `size` is the smallest number of members whose weights together reach
/// `threshold`: some group of that size does, and no smaller group does.
pub open spec fn is_min_cover(w: Seq<u64>, threshold: nat, size: nat) -> bool {
    &&& exists|g: Seq<usize>| #[trigger] covers(w, g, threshold) && g.len() == size
    &&& forall|g: Seq<usize>| #[trigger] covers(w, g, threshold) ==> g.len() >= size
}

/// `ord` lists every member exactly once, heaviest first, and members of
/// equal weight in their own order.
pub open spec fn is_heaviest_first(w: Seq<u64>, ord: Seq<usize>) -> bool {
    &&& ord.len() == w.len()
    &&& is_group(ord, w.len())
    &&& forall|x: usize| x < w.len() ==> ord.contains(x)
    &&& forall|i: int, j: int| 0 <= i < j < ord.len() ==> w[#[trigger] ord[i] as int] >= w[#[trigger] ord[j] as int]
    &&& forall|i: int, j: int|
        0 <= i < j < ord.len() && w[#[trigger] ord[i] as int] == w[#[trigger] ord[j] as int] ==> ord[i] < ord[j]
}

proof fn lemma_group_sum_remove(w: Seq<u64>, g: Seq<usize>, j: int)
    requires
        0 <= j < g.len(),
    ensures
        group_sum(w, g) == group_sum(w, g.remove(j)) + w[g[j] as int],
    decreases g.len(),
{
    if j == g.len() - 1 {
        assert(g.remove(j) =~= g.drop_last());
    } else {
        lemma_group_sum_remove(w, g.drop_last(), j);
        assert(g.remove(j).drop_last() =~= g.drop_last().remove(j));
        assert(g.remove(j).last() == g.last());
    }
}

proof fn lemma_prefix_step(w: Seq<u64>, ord: Seq<usize>, m: int)
    requires
        0 <= m < ord.len(),
    ensures
        group_sum(w, ord.take(m + 1)) == group_sum(w, ord.take(m)) + w[ord[m] as int],
{
    assert(ord.take(m + 1).drop_last() =~= ord.take(m));
}

proof fn lemma_prefix_monotone(w: Seq<u64>, ord: Seq<usize>, a: int, b: int)
    requires
        0 <= a <= b <= ord.len(),
    ensures
        group_sum(w, ord.take(a)) <= group_sum(w, ord.take(b)),
    decreases b - a,
{
    if a < b {
        lemma_prefix_step(w, ord, b - 1);
        lemma_prefix_monotone(w, ord, a, b - 1);
    }
}

/// Exchange argument: a group drawn from the first `k` members of a
/// heaviest-first order weighs no more than the same number of members
/// taken from the front of that order.
proof fn lemma_front_is_heaviest(w: Seq<u64>, ord: Seq<usize>, g: Seq<usize>, k: int)
    requires
        is_heaviest_first(w, ord),
        0 <= k <= ord.len(),
        g.no_duplicates(),
        forall|i: int| 0 <= i < g.len() ==> ord.take(k).contains(#[trigger] g[i]),
    ensures
        g.len() <= k,
        group_sum(w, g) <= group_sum(w, ord.take(g.len() as int)),
    decreases k,
{
    if k == 0 {
        if g.len() > 0 {
            assert(ord.take(0).contains(g[0]));
        }
    } else {
        let x = ord[k - 1];
        if g.contains(x) {
            let j = choose|j: int| 0 <= j < g.len() && g[j] == x;
            let g2 = g.remove(j);
            assert forall|i: int| 0 <= i < g2.len() implies ord.take(k - 1).contains(#[trigger] g2[i]) by {
                let y = g2[i];
                if i < j {
                    assert(y == g[i]);
                } else {
                    assert(y == g[i + 1]);
                }
                assert(y != x);
                assert(ord.take(k).contains(y));
                let p = choose|p: int| 0 <= p < k && ord.take(k)[p] == y;
                assert(p != k - 1);
                assert(ord.take(k - 1)[p] == y);
            }
            assert(g2.no_duplicates()) by {
                assert forall|a: int, b: int| 0 <= a < g2.len() && 0 <= b < g2.len() && a != b implies g2[a] != g2[b] by {
                    let ia = if a < j { a } else { a + 1 };
                    let ib = if b < j { b } else { b + 1 };
                    assert(g2[a] == g[ia]);
                    assert(g2[b] == g[ib]);
                }
            }
            lemma_front_is_heaviest(w, ord, g2, k - 1);
            lemma_group_sum_remove(w, g, j);
            let m = g.len() as int;
            assert(g2.len() == m - 1);
            lemma_prefix_step(w, ord, m - 1);
            if m - 1 < k - 1 {
                assert(w[ord[m - 1] as int] >= w[ord[k - 1] as int]);
            }
        } else {
            assert forall|i: int| 0 <= i < g.len() implies ord.take(k - 1).contains(#[trigger] g[i]) by {
                let y = g[i];
                assert(ord.take(k).contains(y));
                let p = choose|p: int| 0 <= p < k && ord.take(k)[p] == y;
                assert(p != k - 1);
                assert(ord.take(k - 1)[p] == y);
            }
            lemma_front_is_heaviest(w, ord, g, k - 1);
        }
    }
}

/// Any group weighs at most as much as a group of the same size taken from
/// the front of a heaviest-first order.
pub proof fn lemma_group_at_most_front(w: Seq<u64>, ord: Seq<usize>, g: Seq<usize>)
    requires
        is_heaviest_first(w, ord),
        is_group(g, w.len()),
    ensures
        g.len() <= w.len(),
        group_sum(w, g) <= group_sum(w, ord.take(g.len() as int)),
{
    assert forall|i: int| 0 <= i < g.len() implies ord.take(ord.len() as int).contains(#[trigger] g[i]) by {
        assert(ord.contains(g[i]));
        assert(ord.take(ord.len() as int) =~= ord);
    }
    lemma_front_is_heaviest(w, ord, g, ord.len() as int);
}

/// A prefix weighs no more than the whole sequence.
pub proof fn lemma_weight_sum_prefix(w: Seq<u64>, i: int)
    requires
        0 <= i <= w.len(),
    ensures
        weight_sum(w.take(i)) <= weight_sum(w),
    decreases w.len() - i,
{
    if i < w.len() {
        lemma_weight_sum_prefix(w, i + 1);
        assert(w.take(i + 1).drop_last() =~= w.take(i));
    } else {
        assert(w.take(i) =~= w);
    }
}

proof fn lemma_element_at_most_sum(w: Seq<u64>, x: int)
    requires
        0 <= x < w.len(),
    ensures
        w[x] <= weight_sum(w),
    decreases w.len(),
{
    if x < w.len() - 1 {
        lemma_element_at_most_sum(w.drop_last(), x);
    }
}

/// The sequence of the first `n` member indices.
pub open spec fn first_members(n: nat) -> Seq<usize> {
    Seq::new(n, |i: int| i as usize)
}

proof fn lemma_first_members_sum(w: Seq<u64>, k: nat)
    requires
        k <= w.len(),
        w.len() <= usize::MAX,
    ensures
        group_sum(w, first_members(k)) == weight_sum(w.take(k as int)),
    decreases k,
{
    if k > 0 {
        lemma_first_members_sum(w, (k - 1) as nat);
        assert(first_members(k).drop_last() =~= first_members((k - 1) as nat));
        assert(w.take(k as int).drop_last() =~= w.take(k - 1));
    }
}

/// Sorts the member indices heaviest first; among equal weights the earlier
/// member comes first.
pub fn heaviest_first(w: &Vec<u64>) -> (ord: Vec<usize>)
    ensures
        is_heaviest_first(w@, ord@),
{
    let n = w.len();
    let mut ord: Vec<usize> = Vec::new();
    let mut i: usize = 0;
    while i < n
        invariant
            n == w@.len(),
            i <= n,
            ord@.len() == i,
            ord@.no_duplicates(),
            forall|k: int| 0 <= k < ord@.len() ==> #[trigger] ord@[k] < i,
            forall|x: usize| x < i ==> ord@.contains(x),
            forall|a: int, b: int|
                0 <= a < b < ord@.len() ==> w@[#[trigger] ord@[a] as int] >= w@[#[trigger] ord@[b] as int],
            forall|a: int, b: int|
                0 <= a < b < ord@.len() && w@[#[trigger] ord@[a] as int] == w@[#[trigger] ord@[b] as int]
                    ==> ord@[a] < ord@[b],
        decreases n - i,
    {
        let wi = w[i];
        let mut j: usize = 0;
        while j < ord.len() && w[ord[j]] >= wi
            invariant
                n == w@.len(),
                i < n,
                j <= ord@.len(),
                wi == w@[i as int],
                forall|k: int| 0 <= k < ord@.len() ==> #[trigger] ord@[k] < i,
                forall|k: int| 0 <= k < j ==> w@[#[trigger] ord@[k] as int] >= wi,
            decreases ord@.len() - j,
        {
            j = j + 1;
        }
        let ghost old_ord = ord@;
        proof {
            if j < old_ord.len() {
                assert(w@[old_ord[j as int] as int] < wi);
                assert forall|k: int| j <= k < old_ord.len() implies w@[#[trigger] old_ord[k] as int] < wi by {
                    if k > j {
                        assert(w@[old_ord[j as int] as int] >= w@[old_ord[k] as int]);
                    }
                }
            }
        }
        ord.insert(j, i);
        proof {
            let s = ord@;
            assert(s =~= old_ord.insert(j as int, i));
            assert forall|k: int| 0 <= k < s.len() implies #[trigger] s[k] < i + 1 by {
                if k < j {
                    assert(s[k] == old_ord[k]);
                } else if k > j {
                    assert(s[k] == old_ord[k - 1]);
                }
            }
            assert forall|x: usize| x < i + 1 implies s.contains(x) by {
                if x == i {
                    assert(s[j as int] == i);
                } else {
                    assert(old_ord.contains(x));
                    let p = choose|p: int| 0 <= p < old_ord.len() && old_ord[p] == x;
                    if p < j {
                        assert(s[p] == x);
                    } else {
                        assert(s[p + 1] == x);
                    }
                }
            }
            assert(s.no_duplicates()) by {
                assert forall|a: int, b: int| 0 <= a < s.len() && 0 <= b < s.len() && a != b implies s[a] != s[b] by {
                    if a == j {
                        if b < j {
                            assert(s[b] == old_ord[b]);
                        } else {
                            assert(s[b] == old_ord[b - 1]);
                        }
                    } else if b == j {
                        if a < j {
                            assert(s[a] == old_ord[a]);
                        } else {
                            assert(s[a] == old_ord[a - 1]);
                        }
                    } else {
                        let ia = if a < j { a } else { a - 1 };
                        let ib = if b < j { b } else { b - 1 };
                        assert(s[a] == old_ord[ia]);
                        assert(s[b] == old_ord[ib]);
                    }
                }
            }
            assert forall|a: int, b: int| 0 <= a < b < s.len() implies w@[#[trigger] s[a] as int] >= w@[#[trigger] s[b] as int] by {
                if a < j && b < j {
                    assert(s[a] == old_ord[a] && s[b] == old_ord[b]);
                } else if a < j && b == j {
                    assert(s[a] == old_ord[a]);
                } else if a < j && b > j {
                    assert(s[a] == old_ord[a] && s[b] == old_ord[b - 1]);
                    assert(w@[old_ord[a] as int] >= wi);
                } else if a == j {
                    assert(s[b] == old_ord[b - 1]);
                } else {
                    assert(s[a] == old_ord[a - 1] && s[b] == old_ord[b - 1]);
                }
            }
            assert forall|a: int, b: int|
                0 <= a < b < s.len() && w@[#[trigger] s[a] as int] == w@[#[trigger] s[b] as int] implies s[a] < s[b] by {
                if a < j && b < j {
                    assert(s[a] == old_ord[a] && s[b] == old_ord[b]);
                } else if a < j && b == j {
                    assert(s[a] == old_ord[a]);
                } else if a < j && b > j {
                    assert(s[a] == old_ord[a] && s[b] == old_ord[b - 1]);
                } else if a == j {
                    assert(s[b] == old_ord[b - 1]);
                } else {
                    assert(s[a] == old_ord[a - 1] && s[b] == old_ord[b - 1]);
                }
            }
        }
        i = i + 1;
    }
    ord
}

/// The smallest number of members whose weights reach 80% (rounded up) of
/// `total`, found by taking members heaviest first.
pub fn smallest_cover(w: &Vec<u64>, total: u64) -> (size: u32)
    requires
        total == weight_sum(w@),
        total > 0,
        total <= u32::MAX,
        w@.len() <= u32::MAX,
    ensures
        size <= w@.len(),
        is_min_cover(w@, cover_threshold(total as nat), size as nat),
{
    let n = w.len();
    let threshold: u64 = (4 * total + 4) / 5;
    let ghost t = cover_threshold(total as nat);
    let ord = heaviest_first(w);
    proof {
        lemma_first_members_sum(w@, n as nat);
        assert(w@.take(n as int) =~= w@);
        assert(is_group(first_members(n as nat), n as nat)) by {
            assert forall|a: int, b: int|
                0 <= a < n && 0 <= b < n && a != b implies first_members(n as nat)[a] != first_members(n as nat)[b] by {}
        }
        lemma_group_at_most_front(w@, ord@, first_members(n as nat));
        assert(ord@.take(n as int) =~= ord@);
    }
    let mut cumulative: u64 = 0;
    let mut k: usize = 0;
    while k < n
        invariant
            n == w@.len(),
            n <= u32::MAX,
            k <= n,
            threshold == t,
            t == cover_threshold(total as nat),
            total == weight_sum(w@),
            total <= u32::MAX,
            t <= total,
            is_heaviest_first(w@, ord@),
            cumulative == group_sum(w@, ord@.take(k as int)),
            cumulative < t,
            group_sum(w@, ord@) >= total,
        decreases n - k,
    {
        proof {
            lemma_prefix_step(w@, ord@, k as int);
            lemma_element_at_most_sum(w@, ord@[k as int] as int);
        }
        cumulative = cumulative + w[ord[k]];
        if cumulative >= threshold {
            proof {
                let r = (k + 1) as nat;
                let witness = ord@.take(k + 1);
                assert(is_group(witness, n as nat)) by {
                    assert forall|a: int, b: int|
                        0 <= a < witness.len() && 0 <= b < witness.len() && a != b implies witness[a] != witness[b] by {
                        assert(witness[a] == ord@[a] && witness[b] == ord@[b]);
                    }
                }
                assert(covers(w@, witness, t));
                assert forall|g: Seq<usize>| #[trigger] covers(w@, g, t) implies g.len() >= r by {
                    lemma_group_at_most_front(w@, ord@, g);
                    if g.len() < r {
                        lemma_prefix_monotone(w@, ord@, g.len() as int, k as int);
                    }
                }
                assert(witness.len() == r);
                assert(is_min_cover(w@, t, r));
            }
            return (k + 1) as u32;
        }
        k = k + 1;
    }
    proof {
        assert(ord@.take(n as int) =~= ord@);
        assert(false);
    }
    n as u32
}

/// `p` lists each of the `n` member indices exactly once: a reordering.
pub open spec fn is_reordering(p: Seq<usize>, n: nat) -> bool {
    &&& n <= usize::MAX
    &&& p.len() == n
    &&& is_group(p, n)
    &&& forall|x: usize| x < n ==> p.contains(x)
}

/// The weights `w` listed in the order `p`: the `i`-th is `w[p[i]]`.
pub open spec fn reordered(w: Seq<u64>, p: Seq<usize>) -> Seq<u64> {
    Seq::new(p.len(), |i: int| w[p[i] as int])
}

/// The indices `g` carried through the reordering `p`.
pub open spec fn through(p: Seq<usize>, g: Seq<usize>) -> Seq<usize> {
    Seq::new(g.len(), |i: int| p[g[i] as int])
}

proof fn lemma_group_sum_same_members(w: Seq<u64>, v: Seq<u64>, g: Seq<usize>)
    requires
        forall|i: int| 0 <= i < g.len() ==> (#[trigger] g[i]) < w.len() && g[i] < v.len() && w[g[i] as int] == v[g[i] as int],
    ensures
        group_sum(w, g) == group_sum(v, g),
    decreases g.len(),
{
    if g.len() > 0 {
        let h = g.drop_last();
        assert forall|i: int| 0 <= i < h.len() implies (#[trigger] h[i]) < w.len() && h[i] < v.len() && w[h[i] as int] == v[h[i] as int] by {
            assert(h[i] == g[i]);
        }
        lemma_group_sum_same_members(w, v, h);
        assert(g.last() == g[g.len() - 1]);
    }
}

/// Taking every member once, in any order, weighs the whole sequence.
proof fn lemma_full_group_sum(w: Seq<u64>, p: Seq<usize>)
    requires
        is_reordering(p, w.len()),
    ensures
        group_sum(w, p) == weight_sum(w),
    decreases w.len(),
{
    if w.len() > 0 {
        let m = (w.len() - 1) as usize;
        assert(p.contains(m));
        let j = choose|j: int| 0 <= j < p.len() && p[j] == m;
        lemma_group_sum_remove(w, p, j);
        let rest = p.remove(j);
        let v = w.drop_last();
        assert forall|i: int| 0 <= i < rest.len() implies (#[trigger] rest[i]) < v.len() by {
            let k = if i < j { i } else { i + 1 };
            assert(rest[i] == p[k]);
            assert(k != j);
        }
        assert(is_reordering(rest, v.len())) by {
            assert(rest.no_duplicates()) by {
                assert forall|a: int, b: int| 0 <= a < rest.len() && 0 <= b < rest.len() && a != b implies rest[a] != rest[b] by {
                    let ia = if a < j { a } else { a + 1 };
                    let ib = if b < j { b } else { b + 1 };
                    assert(rest[a] == p[ia]);
                    assert(rest[b] == p[ib]);
                }
            }
            assert forall|x: usize| x < v.len() implies rest.contains(x) by {
                assert(p.contains(x));
                let k = choose|k: int| 0 <= k < p.len() && p[k] == x;
                assert(k != j);
                if k < j {
                    assert(rest[k] == x);
                } else {
                    assert(rest[k - 1] == x);
                }
            }
        }
        lemma_full_group_sum(v, rest);
        assert forall|i: int| 0 <= i < rest.len() implies (#[trigger] rest[i]) < w.len() && rest[i] < v.len() && w[rest[i] as int] == v[rest[i] as int] by {}
        lemma_group_sum_same_members(w, v, rest);
    }
}

proof fn lemma_group_sum_through(w: Seq<u64>, p: Seq<usize>, g: Seq<usize>)
    requires
        is_reordering(p, w.len()),
        forall|i: int| 0 <= i < g.len() ==> #[trigger] g[i] < p.len(),
    ensures
        group_sum(reordered(w, p), g) == group_sum(w, through(p, g)),
    decreases g.len(),
{
    if g.len() > 0 {
        let h = g.drop_last();
        assert forall|i: int| 0 <= i < h.len() implies #[trigger] h[i] < p.len() by {
            assert(h[i] == g[i]);
        }
        lemma_group_sum_through(w, p, h);
        assert(through(p, g).drop_last() =~= through(p, h));
        assert(g.last() == g[g.len() - 1]);
        assert(p[g.last() as int] < w.len());
    }
}

/// A group that covers the reordered weights, carried back through the
/// reordering, covers the original weights with as many members.
proof fn lemma_cover_through(w: Seq<u64>, p: Seq<usize>, g: Seq<usize>, threshold: nat)
    requires
        is_reordering(p, w.len()),
        covers(reordered(w, p), g, threshold),
    ensures
        covers(w, through(p, g), threshold),
        through(p, g).len() == g.len(),
{
    lemma_group_sum_through(w, p, g);
    let t = through(p, g);
    assert(t.no_duplicates()) by {
        assert forall|a: int, b: int| 0 <= a < t.len() && 0 <= b < t.len() && a != b implies t[a] != t[b] by {
            assert(g[a] != g[b]);
            assert(p[g[a] as int] != p[g[b] as int]);
        }
    }
}

/// The reordering that undoes `p`.
pub open spec fn undo(p: Seq<usize>) -> Seq<usize> {
    Seq::new(p.len(), |x: int| (choose|i: int| 0 <= i < p.len() && p[i] == x as usize) as usize)
}

proof fn lemma_undo(w: Seq<u64>, p: Seq<usize>)
    requires
        is_reordering(p, w.len()),
    ensures
        is_reordering(undo(p), w.len()),
        reordered(reordered(w, p), undo(p)) =~= w,
{
    let n = w.len();
    let q = undo(p);
    assert forall|x: int| 0 <= x < n implies 0 <= #[trigger] q[x] < n && p[q[x] as int] == x as usize by {
        assert(p.contains(x as usize));
    }
    assert(q.no_duplicates()) by {
        assert forall|a: int, b: int| 0 <= a < q.len() && 0 <= b < q.len() && a != b implies q[a] != q[b] by {
            assert(p[q[a] as int] == a as usize);
            assert(p[q[b] as int] == b as usize);
        }
    }
    assert forall|i: usize| i < n implies q.contains(i) by {
        let x = p[i as int];
        assert(p[q[x as int] as int] == x);
        assert(q[x as int] == i);
    }
}

/// The smallest cover does not depend on the order in which the members
/// are listed: reordering the weights keeps both their total and the
/// size of the smallest group that reaches a threshold.
pub proof fn lemma_min_cover_ignores_order(w: Seq<u64>, p: Seq<usize>, threshold: nat, size: nat, size_reordered: nat)
    requires
        is_reordering(p, w.len()),
        is_min_cover(w, threshold, size),
        is_min_cover(reordered(w, p), threshold, size_reordered),
    ensures
        size == size_reordered,
{
    let w2 = reordered(w, p);
    let g2 = choose|g: Seq<usize>| #[trigger] covers(w2, g, threshold) && g.len() == size_reordered;
    lemma_cover_through(w, p, g2, threshold);
    assert(covers(w, through(p, g2), threshold));
    let g1 = choose|g: Seq<usize>| #[trigger] covers(w, g, threshold) && g.len() == size;
    let q = undo(p);
    lemma_undo(w, p);
    assert(covers(reordered(w2, q), g1, threshold));
    lemma_cover_through(w2, q, g1, threshold);
    assert(covers(w2, through(q, g1), threshold));
}

/// Reordering the weights keeps their total.
pub proof fn lemma_weight_sum_ignores_order(w: Seq<u64>, p: Seq<usize>)
    requires
        is_reordering(p, w.len()),
    ensures
        weight_sum(reordered(w, p)) == weight_sum(w),
{
    let n = w.len();
    let w2 = reordered(w, p);
    let id = first_members(n);
    assert(is_reordering(id, n)) by {
        assert forall|a: int, b: int| 0 <= a < n && 0 <= b < n && a != b implies id[a] != id[b] by {}
        assert forall|x: usize| x < n implies id.contains(x) by {
            assert(id[x as int] == x);
        }
    }
    lemma_full_group_sum(w2, id);
    lemma_group_sum_through(w, p, id);
    assert(through(p, id) =~= p);
    lemma_full_group_sum(w, p);
}

} // verus!
