use vstd::prelude::*;
use crate::model::CommitData;

verus! {

/// The points for a bus factor: 0 authors give 0, one 20, two 50, three
/// 75, four or more 100.
pub open spec fn bus_factor_points(bus_factor: u32) -> u32 {
    if bus_factor == 0 {
        0
    } else if bus_factor == 1 {
        20
    } else if bus_factor == 2 {
        50
    } else if bus_factor == 3 {
        75
    } else {
        100
    }
}

/// The bus-factor sub-score, in points out of 100.
pub fn calc_bus_factor_score(bus_factor: u32) -> (points: u32)
    ensures
        points == bus_factor_points(bus_factor),
{
    match bus_factor {
        0 => 0,
        1 => 20,
        2 => 50,
        3 => 75,
        _ => 100,
    }
}

/// More authors sharing the work never lower the bus-factor score.
pub proof fn lemma_bus_factor_points_monotone(a: u32, b: u32)
    requires
        a <= b,
    ensures
        bus_factor_points(a) <= bus_factor_points(b),
{
}

/// The latest author time among the commits.
pub open spec fn newest_time(cs: Seq<CommitData>) -> int
    decreases cs.len(),
{
    if cs.len() == 0 {
        0
    } else if cs.len() == 1 {
        cs[0].timestamp as int
    } else {
        let rest = newest_time(cs.drop_last());
        if cs.last().timestamp > rest { cs.last().timestamp as int } else { rest }
    }
}

/// The earliest author time among the commits.
pub open spec fn oldest_time(cs: Seq<CommitData>) -> int
    decreases cs.len(),
{
    if cs.len() == 0 {
        0
    } else if cs.len() == 1 {
        cs[0].timestamp as int
    } else {
        let rest = oldest_time(cs.drop_last());
        if cs.last().timestamp < rest { cs.last().timestamp as int } else { rest }
    }
}

/// The commits made in the last third of the span from `oldest` to `newest`.
pub open spec fn recent_count(cs: Seq<CommitData>, newest: int, span: int) -> nat
    decreases cs.len(),
{
    if cs.len() == 0 {
        0
    } else {
        recent_count(cs.drop_last(), newest, span) + (if 3 * (newest - cs.last().timestamp) <= span { 1nat } else { 0nat })
    }
}

/// The commits made in the first third of the span from `oldest` to `newest`.
pub open spec fn early_count(cs: Seq<CommitData>, oldest: int, span: int) -> nat
    decreases cs.len(),
{
    if cs.len() == 0 {
        0
    } else {
        early_count(cs.drop_last(), oldest, span) + (if 3 * (cs.last().timestamp - oldest) <= span { 1nat } else { 0nat })
    }
}

/// The trend points: the time from the first to the last commit is cut in
/// thirds, and the commits of the last third are set against those of the
/// first. More than 1.2 times as many: rising, 85. At least 0.8 times:
/// steady, 60. Fewer: falling, 30. With fewer than three commits, or less
/// than three seconds between first and last, the trend counts as steady.
pub open spec fn trend_points(cs: Seq<CommitData>) -> u32 {
    let newest = newest_time(cs);
    let oldest = oldest_time(cs);
    let span = newest - oldest;
    let recent = recent_count(cs, newest, span);
    let early = early_count(cs, oldest, span);
    if cs.len() < 3 || span < 3 {
        60
    } else if early == 0 {
        85
    } else if 5 * recent > 6 * early {
        85
    } else if 5 * recent >= 4 * early {
        60
    } else {
        30
    }
}

/// A commit lies in the last third of the span `span` that ends at
/// `newest`.
pub open spec fn in_last_third(newest: int, span: int) -> spec_fn(CommitData) -> bool {
    |c: CommitData| 3 * (newest - c.timestamp) <= span
}

/// A commit lies in the first third of the span `span` that starts at
/// `oldest`.
pub open spec fn in_first_third(oldest: int, span: int) -> spec_fn(CommitData) -> bool {
    |c: CommitData| 3 * (c.timestamp - oldest) <= span
}

/// The trend's windows are thirds of the span: the recent count is the
/// number of commits made in the last third, the early count the number
/// made in the first third (a commit of the middle third counts in
/// neither).
pub proof fn lemma_trend_windows_are_thirds(cs: Seq<CommitData>, newest: int, oldest: int, span: int)
    ensures
        recent_count(cs, newest, span) == cs.filter(in_last_third(newest, span)).len(),
        early_count(cs, oldest, span) == cs.filter(in_first_third(oldest, span)).len(),
    decreases cs.len(),
{
    if cs.len() > 0 {
        lemma_trend_windows_are_thirds(cs.drop_last(), newest, oldest, span);
        let r = in_last_third(newest, span);
        let e = in_first_third(oldest, span);
        reveal(Seq::filter);
        assert(cs.filter(r) == (if r(cs.last()) { cs.drop_last().filter(r).push(cs.last()) } else { cs.drop_last().filter(r) }));
        assert(cs.filter(e) == (if e(cs.last()) { cs.drop_last().filter(e).push(cs.last()) } else { cs.drop_last().filter(e) }));
    }
}

/// The span's ends are the latest and the earliest commit times: no
/// commit is later than `newest_time` or earlier than `oldest_time`, and
/// some commit is made at each.
pub proof fn lemma_span_ends_are_extremes(cs: Seq<CommitData>)
    requires
        cs.len() > 0,
    ensures
        forall|k: int| 0 <= k < cs.len() ==> oldest_time(cs) <= #[trigger] cs[k].timestamp <= newest_time(cs),
        exists|k: int| 0 <= k < cs.len() && #[trigger] cs[k].timestamp == newest_time(cs),
        exists|k: int| 0 <= k < cs.len() && #[trigger] cs[k].timestamp == oldest_time(cs),
    decreases cs.len(),
{
    if cs.len() == 1 {
        assert(cs[0].timestamp == newest_time(cs));
    } else {
        let rest = cs.drop_last();
        lemma_span_ends_are_extremes(rest);
        assert forall|k: int| 0 <= k < cs.len() implies oldest_time(cs) <= #[trigger] cs[k].timestamp <= newest_time(cs) by {
            if k < rest.len() {
                assert(rest[k] == cs[k]);
            }
        }
        let a = choose|k: int| 0 <= k < rest.len() && #[trigger] rest[k].timestamp == newest_time(rest);
        let b = choose|k: int| 0 <= k < rest.len() && #[trigger] rest[k].timestamp == oldest_time(rest);
        assert(rest[a] == cs[a]);
        assert(rest[b] == cs[b]);
        assert(cs[cs.len() - 1] == cs.last());
        if cs.last().timestamp > newest_time(rest) {
            assert(cs[cs.len() - 1].timestamp == newest_time(cs));
        } else {
            assert(cs[a].timestamp == newest_time(cs));
        }
        if cs.last().timestamp < oldest_time(rest) {
            assert(cs[cs.len() - 1].timestamp == oldest_time(cs));
        } else {
            assert(cs[b].timestamp == oldest_time(cs));
        }
    }
}

/// What the trend points are, in terms of the commits alone: with fewer
/// than three commits or a span under three seconds, steady (60);
/// otherwise the commits of the last third set against those of the first
/// third: none early, or more than 1.2 times as many recent, rising (85);
/// at least 0.8 times, steady (60); fewer, falling (30).
pub proof fn lemma_trend_points_compare_thirds(cs: Seq<CommitData>)
    ensures
        ({
            let span = newest_time(cs) - oldest_time(cs);
            let recent = cs.filter(in_last_third(newest_time(cs), span)).len();
            let early = cs.filter(in_first_third(oldest_time(cs), span)).len();
            trend_points(cs) == (if cs.len() < 3 || span < 3 {
                60u32
            } else if early == 0 || 5 * recent > 6 * early {
                85u32
            } else if 5 * recent >= 4 * early {
                60u32
            } else {
                30u32
            })
        }),
{
    let span = newest_time(cs) - oldest_time(cs);
    lemma_trend_windows_are_thirds(cs, newest_time(cs), oldest_time(cs), span);
}

proof fn lemma_extremes_step(cs: Seq<CommitData>, i: int)
    requires
        1 <= i < cs.len(),
    ensures
        newest_time(cs.take(i + 1)) == (if cs[i].timestamp > newest_time(cs.take(i)) { cs[i].timestamp as int } else { newest_time(cs.take(i)) }),
        oldest_time(cs.take(i + 1)) == (if cs[i].timestamp < oldest_time(cs.take(i)) { cs[i].timestamp as int } else { oldest_time(cs.take(i)) }),
{
    assert(cs.take(i + 1).drop_last() =~= cs.take(i));
}

/// The trend sub-score, in points out of 100 (see `trend_points`).
pub fn calc_trend_score(commits: &[CommitData]) -> (points: u32)
    ensures
        points == trend_points(commits@),
{
    let ghost cs = commits@;
    let n = commits.len();
    if n < 3 {
        return 60;
    }
    let mut newest: i64 = commits[0].timestamp;
    let mut oldest: i64 = commits[0].timestamp;
    let mut i: usize = 1;
    assert(cs.take(1) =~= seq![cs[0]]);
    while i < n
        invariant
            cs == commits@,
            n == cs.len(),
            1 <= i <= n,
            newest == newest_time(cs.take(i as int)),
            oldest == oldest_time(cs.take(i as int)),
        decreases n - i,
    {
        proof {
            lemma_extremes_step(cs, i as int);
        }
        let t = commits[i].timestamp;
        if t > newest {
            newest = t;
        }
        if t < oldest {
            oldest = t;
        }
        i = i + 1;
    }
    assert(cs.take(n as int) =~= cs);
    let span: i128 = newest as i128 - oldest as i128;
    if span < 3 {
        return 60;
    }
    let mut recent: u64 = 0;
    let mut early: u64 = 0;
    let mut k: usize = 0;
    while k < n
        invariant
            cs == commits@,
            n == cs.len(),
            k <= n,
            span == newest - oldest,
            recent == recent_count(cs.take(k as int), newest as int, span as int),
            early == early_count(cs.take(k as int), oldest as int, span as int),
            recent <= k,
            early <= k,
        decreases n - k,
    {
        proof {
            assert(cs.take(k + 1).drop_last() =~= cs.take(k as int));
            assert(cs.take(k + 1).last() == cs[k as int]);
        }
        let t = commits[k].timestamp as i128;
        if 3 * (newest as i128 - t) <= span {
            recent = recent + 1;
        }
        if 3 * (t - oldest as i128) <= span {
            early = early + 1;
        }
        k = k + 1;
    }
    assert(cs.take(n as int) =~= cs);
    if early == 0 {
        return 85;
    }
    if 5 * (recent as u128) > 6 * (early as u128) {
        85
    } else if 5 * (recent as u128) >= 4 * (early as u128) {
        60
    } else {
        30
    }
}

} // verus!
