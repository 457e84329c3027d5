use vstd::prelude::*;

verus! {

/// The options of one run of the vibe check.
#[derive(Debug, Clone)]
pub struct Cli {
    /// The repository to analyse.
    pub path: String,
    /// The analysed period, such as `3m`, `6m`, `12m`, `1y` or `30d`.
    pub period: String,
    /// Print the report as JSON.
    pub json: bool,
    /// Show every contributor, not only the first five.
    pub leaderboard: bool,
    /// Write a shareable report image.
    pub share: bool,
    /// The image format for `share`: `svg` or `png`.
    pub format: String,
    /// Where to write an image or badge.
    pub output: Option<String>,
    /// Write a README badge.
    pub badge: bool,
}

/// What a run produces.
#[derive(Debug, Clone)]
pub enum OutputPlan {
    /// Write the badge SVG to this path.
    Badge(String),
    /// Write the report image to this path, in this format.
    Share(String, String),
    /// Print the report: as JSON or not, all contributors or the first five.
    Report { json: bool, leaderboard: bool },
}

/// Decides what a run produces from its options: a badge wins over a
/// report image, which wins over the printed report. An image or badge goes
/// where `output` says, or else to `vibe-badge.svg`, to `vibe-report.png`
/// (format `png`) or to `vibe-report.svg` (any other format).
pub fn plan_output(cli: &Cli) -> (plan: OutputPlan)
    ensures
        cli.badge ==> (plan matches OutputPlan::Badge(p) && p@ == (match cli.output {
            Some(o) => o@,
            None => "vibe-badge.svg"@,
        })),
        !cli.badge && cli.share ==> (plan matches OutputPlan::Share(p, f) && f@ == cli.format@ && p@ == (match cli.output {
            Some(o) => o@,
            None => if cli.format@ == "png"@ { "vibe-report.png"@ } else { "vibe-report.svg"@ },
        })),
        !cli.badge && !cli.share ==> plan == (OutputPlan::Report { json: cli.json, leaderboard: cli.leaderboard }),
{
    if cli.badge {
        let path = match &cli.output {
            Some(o) => o.clone(),
            None => String::from_str("vibe-badge.svg"),
        };
        OutputPlan::Badge(path)
    } else if cli.share {
        let path = match &cli.output {
            Some(o) => o.clone(),
            None => if cli.format == String::from_str("png") {
                String::from_str("vibe-report.png")
            } else {
                String::from_str("vibe-report.svg")
            },
        };
        OutputPlan::Share(path, cli.format.clone())
    } else {
        OutputPlan::Report { json: cli.json, leaderboard: cli.leaderboard }
    }
}

/// The title of a contributor by rank: 👑 first, 🦾 second, 🥉 third,
/// 🌱 everyone after.
pub open spec fn rank_badge_text(rank: usize) -> Seq<char> {
    if rank == 0 {
        "👑"@
    } else if rank == 1 {
        "🦾"@
    } else if rank == 2 {
        "🥉"@
    } else {
        "🌱"@
    }
}

/// The Hall of Fame title of the contributor at `rank` (0 for the first).
pub fn hall_of_fame_badge(rank: usize) -> (badge: &'static str)
    ensures
        badge@ == rank_badge_text(rank),
{
    match rank {
        0 => "👑",
        1 => "🦾",
        2 => "🥉",
        _ => "🌱",
    }
}

/// How the bus factor reads.
#[derive(Debug, Clone, Copy, PartialEq, Eq, Structural)]
pub enum BusFactorVerdict {
    /// No bus factor could be measured (0).
    NoData,
    /// One person holds the knowledge (1).
    SinglePointOfFailure,
    /// Two people (2).
    Risky,
    /// Three people (3).
    Healthy,
    /// Four or more.
    Resilient,
}

/// The verdict on a bus factor.
pub open spec fn verdict_of(bus_factor: u32) -> BusFactorVerdict {
    if bus_factor == 0 {
        BusFactorVerdict::NoData
    } else if bus_factor == 1 {
        BusFactorVerdict::SinglePointOfFailure
    } else if bus_factor == 2 {
        BusFactorVerdict::Risky
    } else if bus_factor == 3 {
        BusFactorVerdict::Healthy
    } else {
        BusFactorVerdict::Resilient
    }
}

/// Reads a bus factor as a verdict.
pub fn bus_factor_verdict(bus_factor: u32) -> (verdict: BusFactorVerdict)
    ensures
        verdict == verdict_of(bus_factor),
{
    match bus_factor {
        0 => BusFactorVerdict::NoData,
        1 => BusFactorVerdict::SinglePointOfFailure,
        2 => BusFactorVerdict::Risky,
        3 => BusFactorVerdict::Healthy,
        _ => BusFactorVerdict::Resilient,
    }
}

impl BusFactorVerdict {
    /// The text shown for the verdict.
    pub open spec fn text_of(self) -> Seq<char> {
        match self {
            BusFactorVerdict::NoData => "❓ No data"@,
            BusFactorVerdict::SinglePointOfFailure => "🚨 Single point of failure!"@,
            BusFactorVerdict::Risky => "⚠️ Risky"@,
            BusFactorVerdict::Healthy => "👍 Healthy"@,
            BusFactorVerdict::Resilient => "💪 Resilient"@,
        }
    }

    /// The text shown for the verdict.
    pub fn text(&self) -> (t: &'static str)
        ensures
            t@ == self.text_of(),
    {
        match self {
            BusFactorVerdict::NoData => "❓ No data",
            BusFactorVerdict::SinglePointOfFailure => "🚨 Single point of failure!",
            BusFactorVerdict::Risky => "⚠️ Risky",
            BusFactorVerdict::Healthy => "👍 Healthy",
            BusFactorVerdict::Resilient => "💪 Resilient",
        }
    }
}

/// The marker after the last month of the activity chart, from the commit
/// counts of the month before (`previous`) and the last month (`current`):
/// 📈 when the count grew to at least 1.3 times, 📉 when it fell to at most
/// 0.7 times, nothing otherwise or when the month before had no commits.
pub open spec fn trend_marker_text(previous: u32, current: u32) -> Seq<char> {
    if previous == 0 {
        ""@
    } else if 10 * current >= 13 * previous {
        " 📈"@
    } else if 10 * current <= 7 * previous {
        " 📉"@
    } else {
        ""@
    }
}

/// The marker after the last month of the activity chart.
pub fn month_trend_marker(previous: u32, current: u32) -> (marker: &'static str)
    ensures
        marker@ == trend_marker_text(previous, current),
{
    let p = previous as u64;
    let c = current as u64;
    if p == 0 {
        ""
    } else if 10 * c >= 13 * p {
        " 📈"
    } else if 10 * c <= 7 * p {
        " 📉"
    } else {
        ""
    }
}

/// How the overall activity trend reads, from the trend points.
#[derive(Debug, Clone, Copy, PartialEq, Eq, Structural)]
pub enum TrendVerdict {
    Rising,
    Stable,
    Declining,
}

/// Rising above 70 points, stable from 40, declining below.
pub open spec fn trend_verdict_of(points: u32) -> TrendVerdict {
    if points > 70 {
        TrendVerdict::Rising
    } else if points >= 40 {
        TrendVerdict::Stable
    } else {
        TrendVerdict::Declining
    }
}

/// Reads the trend points as a verdict.
pub fn trend_verdict(points: u32) -> (verdict: TrendVerdict)
    ensures
        verdict == trend_verdict_of(points),
{
    if points > 70 {
        TrendVerdict::Rising
    } else if points >= 40 {
        TrendVerdict::Stable
    } else {
        TrendVerdict::Declining
    }
}

/// How many contributors the Hall of Fame shows: all of them for the
/// leaderboard, otherwise the first five.
pub fn shown_contributors(authors: usize, leaderboard: bool) -> (shown: usize)
    ensures
        shown == (if leaderboard || authors <= 5 { authors } else { 5 }),
{
    if leaderboard || authors <= 5 {
        authors
    } else {
        5
    }
}

} // verus!
