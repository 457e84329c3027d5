use git_vibe::report::{
    bus_factor_verdict, hall_of_fame_badge, month_trend_marker, plan_output, shown_contributors, trend_verdict, BusFactorVerdict, Cli,
    OutputPlan, TrendVerdict,
};

fn cli() -> Cli {
    Cli {
        path: ".".to_string(),
        period: "12m".to_string(),
        json: false,
        leaderboard: false,
        share: false,
        format: "svg".to_string(),
        output: None,
        badge: false,
    }
}

#[test]
fn test_plan_badge_wins() {
    let mut c = cli();
    c.badge = true;
    c.share = true;
    assert!(matches!(plan_output(&c), OutputPlan::Badge(p) if p == "vibe-badge.svg"));
    c.output = Some("out/b.svg".to_string());
    assert!(matches!(plan_output(&c), OutputPlan::Badge(p) if p == "out/b.svg"));
}

#[test]
fn test_plan_share_paths() {
    let mut c = cli();
    c.share = true;
    assert!(matches!(plan_output(&c), OutputPlan::Share(p, f) if p == "vibe-report.svg" && f == "svg"));
    c.format = "png".to_string();
    assert!(matches!(plan_output(&c), OutputPlan::Share(p, f) if p == "vibe-report.png" && f == "png"));
    c.format = "gif".to_string();
    assert!(matches!(plan_output(&c), OutputPlan::Share(p, _) if p == "vibe-report.svg"));
    c.output = Some("me.png".to_string());
    assert!(matches!(plan_output(&c), OutputPlan::Share(p, _) if p == "me.png"));
}

#[test]
fn test_plan_report() {
    let mut c = cli();
    c.json = true;
    c.leaderboard = true;
    assert!(matches!(plan_output(&c), OutputPlan::Report { json: true, leaderboard: true }));
    assert!(matches!(plan_output(&cli()), OutputPlan::Report { json: false, leaderboard: false }));
}

#[test]
fn test_hall_of_fame_badges() {
    assert_eq!(hall_of_fame_badge(0), "👑");
    assert_eq!(hall_of_fame_badge(1), "🦾");
    assert_eq!(hall_of_fame_badge(2), "🥉");
    assert_eq!(hall_of_fame_badge(3), "🌱");
    assert_eq!(hall_of_fame_badge(99), "🌱");
}

#[test]
fn test_bus_factor_verdicts() {
    assert_eq!(bus_factor_verdict(0), BusFactorVerdict::NoData);
    assert_eq!(bus_factor_verdict(1).text(), "🚨 Single point of failure!");
    assert_eq!(bus_factor_verdict(2).text(), "⚠️ Risky");
    assert_eq!(bus_factor_verdict(3).text(), "👍 Healthy");
    assert_eq!(bus_factor_verdict(7).text(), "💪 Resilient");
    assert_eq!(bus_factor_verdict(0).text(), "❓ No data");
}

#[test]
fn test_month_trend_marker() {
    assert_eq!(month_trend_marker(10, 13), " 📈");
    assert_eq!(month_trend_marker(10, 12), "");
    assert_eq!(month_trend_marker(10, 7), " 📉");
    assert_eq!(month_trend_marker(10, 8), "");
    assert_eq!(month_trend_marker(0, 5), "");
    assert_eq!(month_trend_marker(u32::MAX, u32::MAX), "");
}

#[test]
fn test_trend_verdicts() {
    assert_eq!(trend_verdict(85), TrendVerdict::Rising);
    assert_eq!(trend_verdict(71), TrendVerdict::Rising);
    assert_eq!(trend_verdict(70), TrendVerdict::Stable);
    assert_eq!(trend_verdict(40), TrendVerdict::Stable);
    assert_eq!(trend_verdict(39), TrendVerdict::Declining);
}

#[test]
fn test_shown_contributors() {
    assert_eq!(shown_contributors(8, false), 5);
    assert_eq!(shown_contributors(8, true), 8);
    assert_eq!(shown_contributors(3, false), 3);
    assert_eq!(shown_contributors(0, true), 0);
}
