use git_vibe::badge::{badge_color, xml_escape};
use git_vibe::grades::VibeGrade;

#[test]
fn test_badge_color_mapping() {
    assert_eq!(badge_color(&VibeGrade::Zen), "#4c1");
    assert_eq!(badge_color(&VibeGrade::Chaotic), "#e05d44");
    assert_eq!(badge_color(&VibeGrade::Abandoned), "#9f9f9f");
}

#[test]
fn test_badge_xml_escape() {
    assert_eq!(xml_escape("a<b>&c"), "a&lt;b&gt;&amp;c");
}

#[test]
fn test_xml_escape_quotes_and_unicode() {
    assert_eq!(xml_escape("\"😎\""), "&quot;😎&quot;");
    assert_eq!(xml_escape(""), "");
}

#[test]
fn test_render_badge_contains_structure() {
    let total: f64 = 82.0;
    let svg = git_vibe::badge::render_badge(&VibeGrade::Chill, &format!("{:.0}", total));
    assert!(svg.contains("<svg"));
    assert!(svg.contains("vibe"));
    assert!(svg.contains("Chill"));
    assert!(svg.contains("#97CA00"));
    assert!(svg.contains("82"));
}

#[test]
fn test_render_badge_widths() {
    // "😎 Chill (82)" is 15 bytes: value 15 * 7 + 10 = 115, total 155.
    let svg = git_vibe::badge::render_badge(&VibeGrade::Chill, "82");
    assert!(svg.starts_with("<svg xmlns=\"http://www.w3.org/2000/svg\" width=\"155\" height=\"20\" viewBox=\"0 0 155 20\">"));
    assert!(svg.contains("<rect x=\"40\" width=\"115\" height=\"20\" fill=\"#97CA00\"/>"));
    assert!(svg.contains("<text x=\"97\" y=\"14\">😎 Chill (82)</text>"));
    assert!(svg.ends_with("</svg>"));
}

#[test]
fn test_badge_colors_of_every_grade() {
    assert_eq!(badge_color(&VibeGrade::Chill), "#97CA00");
    assert_eq!(badge_color(&VibeGrade::Active), "#dfb317");
    assert_eq!(badge_color(&VibeGrade::Tense), "#fe7d37");
    assert_eq!(badge_color(&VibeGrade::Stressed), "#e05d44");
}

#[test]
fn test_escape_round_trip() {
    let s = "a&b<c>\"d\" &amp; é";
    let e = xml_escape(s);
    assert!(!e.contains('<') && !e.contains('>') && !e.contains('"'));
    let back = e.replace("&quot;", "\"").replace("&gt;", ">").replace("&lt;", "<").replace("&amp;", "&");
    assert_eq!(back, s);
}
