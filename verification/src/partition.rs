use vstd::prelude::*;
use crate::model::CommitData;

verus! {

/// The sum of `m` over the commits whose key is `k`.
pub open spec fn sum_for_key(
    cs: Seq<CommitData>,
    key: spec_fn(CommitData) -> Seq<char>,
    k: Seq<char>,
    m: spec_fn(CommitData) -> nat,
) -> nat
    decreases cs.len(),
{
    if cs.len() == 0 {
        0
    } else {
        sum_for_key(cs.drop_last(), key, k, m) + (if key(cs.last()) == k { m(cs.last()) } else { 0 })
    }
}

/// The sum of `m` over all commits.
pub open spec fn sum_all(cs: Seq<CommitData>, m: spec_fn(CommitData) -> nat) -> nat
    decreases cs.len(),
{
    if cs.len() == 0 {
        0
    } else {
        sum_all(cs.drop_last(), m) + m(cs.last())
    }
}

/// The sums for each key of `keys`, added up.
pub open spec fn sum_over_keys(
    cs: Seq<CommitData>,
    key: spec_fn(CommitData) -> Seq<char>,
    keys: Seq<Seq<char>>,
    m: spec_fn(CommitData) -> nat,
) -> nat
    decreases keys.len(),
{
    if keys.len() == 0 {
        0
    } else {
        sum_over_keys(cs, key, keys.drop_last(), m) + sum_for_key(cs, key, keys.last(), m)
    }
}

/// How many entries of `keys` equal `k`.
pub open spec fn key_hits(keys: Seq<Seq<char>>, k: Seq<char>) -> nat
    decreases keys.len(),
{
    if keys.len() == 0 {
        0
    } else {
        key_hits(keys.drop_last(), k) + (if keys.last() == k { 1nat } else { 0nat })
    }
}

proof fn lemma_key_hits_once(keys: Seq<Seq<char>>, k: Seq<char>)
    requires
        keys.no_duplicates(),
        keys.contains(k),
    ensures
        key_hits(keys, k) == 1,
    decreases keys.len(),
{
    let rest = keys.drop_last();
    if keys.last() == k {
        assert(!rest.contains(k)) by {
            if rest.contains(k) {
                let i = choose|i: int| 0 <= i < rest.len() && rest[i] == k;
                assert(keys[i] == keys[keys.len() - 1]);
            }
        }
        lemma_key_hits_none(rest, k);
    } else {
        let i = choose|i: int| 0 <= i < keys.len() && keys[i] == k;
        assert(rest[i] == k);
        lemma_key_hits_once(rest, k);
    }
}

proof fn lemma_key_hits_none(keys: Seq<Seq<char>>, k: Seq<char>)
    requires
        !keys.contains(k),
    ensures
        key_hits(keys, k) == 0,
    decreases keys.len(),
{
    if keys.len() > 0 {
        assert(!keys.drop_last().contains(k)) by {
            if keys.drop_last().contains(k) {
                let i = choose|i: int| 0 <= i < keys.drop_last().len() && keys.drop_last()[i] == k;
                assert(keys[i] == k);
            }
        }
        lemma_key_hits_none(keys.drop_last(), k);
    }
}

proof fn lemma_sum_over_keys_step(
    cs: Seq<CommitData>,
    key: spec_fn(CommitData) -> Seq<char>,
    keys: Seq<Seq<char>>,
    m: spec_fn(CommitData) -> nat,
)
    requires
        cs.len() > 0,
    ensures
        sum_over_keys(cs, key, keys, m) == sum_over_keys(cs.drop_last(), key, keys, m) + key_hits(keys, key(cs.last()))
            * m(cs.last()),
    decreases keys.len(),
{
    let c = cs.last();
    if keys.len() == 0 {
        assert(key_hits(keys, key(c)) == 0);
        assert(0 * m(c) == 0) by (nonlinear_arith);
    } else {
        lemma_sum_over_keys_step(cs, key, keys.drop_last(), m);
        let lk = keys.last();
        assert(sum_for_key(cs, key, lk, m) == sum_for_key(cs.drop_last(), key, lk, m) + (if key(c) == lk { m(c) } else { 0 }));
        assert(sum_over_keys(cs, key, keys, m) == sum_over_keys(cs, key, keys.drop_last(), m) + sum_for_key(cs, key, lk, m));
        assert(sum_over_keys(cs.drop_last(), key, keys, m) == sum_over_keys(cs.drop_last(), key, keys.drop_last(), m) + sum_for_key(cs.drop_last(), key, lk, m));
        assert(key_hits(keys, key(cs.last())) * m(cs.last()) == key_hits(keys.drop_last(), key(cs.last())) * m(cs.last())
            + (if keys.last() == key(cs.last()) { m(cs.last()) } else { 0 })) by (nonlinear_arith)
            requires
                key_hits(keys, key(cs.last())) == key_hits(keys.drop_last(), key(cs.last())) + (if keys.last() == key(cs.last()) { 1nat } else { 0nat }),
        ;
    }
}

/// Splitting the commits by key and adding the parts up gives the whole:
/// where `keys` lists every key of the commits once, the sums for the
/// keys add up to the sum over all commits.
pub proof fn lemma_parts_add_up(
    cs: Seq<CommitData>,
    key: spec_fn(CommitData) -> Seq<char>,
    keys: Seq<Seq<char>>,
    m: spec_fn(CommitData) -> nat,
)
    requires
        keys.no_duplicates(),
        forall|i: int| 0 <= i < cs.len() ==> keys.contains(key(#[trigger] cs[i])),
    ensures
        sum_over_keys(cs, key, keys, m) == sum_all(cs, m),
    decreases cs.len(),
{
    if cs.len() == 0 {
        lemma_sum_over_keys_empty(cs, key, keys, m);
    } else {
        let rest = cs.drop_last();
        assert forall|i: int| 0 <= i < rest.len() implies keys.contains(key(#[trigger] rest[i])) by {
            assert(rest[i] == cs[i]);
        }
        lemma_parts_add_up(rest, key, keys, m);
        lemma_sum_over_keys_step(cs, key, keys, m);
        assert(cs.last() == cs[cs.len() - 1]);
        lemma_key_hits_once(keys, key(cs.last()));
    }
}

proof fn lemma_sum_over_keys_empty(
    cs: Seq<CommitData>,
    key: spec_fn(CommitData) -> Seq<char>,
    keys: Seq<Seq<char>>,
    m: spec_fn(CommitData) -> nat,
)
    requires
        cs.len() == 0,
    ensures
        sum_over_keys(cs, key, keys, m) == 0,
    decreases keys.len(),
{
    if keys.len() > 0 {
        lemma_sum_over_keys_empty(cs, key, keys.drop_last(), m);
    }
}

} // verus!
