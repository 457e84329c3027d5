use vstd::prelude::*;
use crate::grades::VibeGrade;
use vstd::utf8::encode_utf8;

verus! {

/// The background colour of the badge for each grade.
pub open spec fn badge_color_text(grade: VibeGrade) -> Seq<char> {
    match grade {
        VibeGrade::Zen => "#4c1"@,
        VibeGrade::Chill => "#97CA00"@,
        VibeGrade::Active => "#dfb317"@,
        VibeGrade::Tense => "#fe7d37"@,
        VibeGrade::Stressed => "#e05d44"@,
        VibeGrade::Chaotic => "#e05d44"@,
        VibeGrade::Abandoned => "#9f9f9f"@,
    }
}

/// The badge colour of a grade.
pub fn badge_color(grade: &VibeGrade) -> (color: &'static str)
    ensures
        color@ == badge_color_text(*grade),
{
    match grade {
        VibeGrade::Zen => "#4c1",
        VibeGrade::Chill => "#97CA00",
        VibeGrade::Active => "#dfb317",
        VibeGrade::Tense => "#fe7d37",
        VibeGrade::Stressed => "#e05d44",
        VibeGrade::Chaotic => "#e05d44",
        VibeGrade::Abandoned => "#9f9f9f",
    }
}

/// The XML text of one character: `&`, `<`, `>` and `"` become entities,
/// every other character stands for itself.
pub open spec fn escape_char(c: char) -> Seq<char> {
    if c == '&' {
        "&amp;"@
    } else if c == '<' {
        "&lt;"@
    } else if c == '>' {
        "&gt;"@
    } else if c == '"' {
        "&quot;"@
    } else {
        seq![c]
    }
}

/// The XML text of a whole string, character by character.
pub open spec fn xml_escaped(s: Seq<char>) -> Seq<char>
    decreases s.len(),
{
    if s.len() == 0 {
        Seq::empty()
    } else {
        xml_escaped(s.drop_last()) + escape_char(s.last())
    }
}

/// Escapes the characters that XML text cannot hold as they are.
pub fn xml_escape(s: &str) -> (escaped: String)
    ensures
        escaped@ == xml_escaped(s@),
{
    let n = s.unicode_len();
    let mut out = String::new();
    let mut i: usize = 0;
    while i < n
        invariant
            n == s@.len(),
            i <= n,
            out@ == xml_escaped(s@.subrange(0, i as int)),
        decreases n - i,
    {
        let c = s.get_char(i);
        proof {
            reveal_strlit("&amp;");
            reveal_strlit("&lt;");
            reveal_strlit("&gt;");
            reveal_strlit("&quot;");
        }
        if c == '&' {
            out.append("&amp;");
        } else if c == '<' {
            out.append("&lt;");
        } else if c == '>' {
            out.append("&gt;");
        } else if c == '"' {
            out.append("&quot;");
        } else {
            let one = s.substring_char(i, i + 1);
            out.append(one);
        }
        assert(s@.subrange(0, i + 1).drop_last() =~= s@.subrange(0, i as int));
        i = i + 1;
    }
    assert(s@.subrange(0, n as int) =~= s@);
    out
}

/// Escaped text holds no `<`, `>` or `"`: whatever the value says, it
/// cannot open or close a tag or an attribute of the badge.
pub proof fn lemma_escaped_has_no_markup(s: Seq<char>)
    ensures
        forall|i: int|
            0 <= i < xml_escaped(s).len() ==> {
                &&& #[trigger] xml_escaped(s)[i] != '<'
                &&& xml_escaped(s)[i] != '>'
                &&& xml_escaped(s)[i] != '"'
            },
    decreases s.len(),
{
    reveal_strlit("&amp;");
    reveal_strlit("&lt;");
    reveal_strlit("&gt;");
    reveal_strlit("&quot;");
    if s.len() > 0 {
        let rest = s.drop_last();
        lemma_escaped_has_no_markup(rest);
        let head = xml_escaped(rest);
        let tail = escape_char(s.last());
        assert forall|i: int| 0 <= i < xml_escaped(s).len() implies {
            &&& #[trigger] xml_escaped(s)[i] != '<'
            &&& xml_escaped(s)[i] != '>'
            &&& xml_escaped(s)[i] != '"'
        } by {
            if i < head.len() {
                assert(xml_escaped(s)[i] == head[i]);
            } else {
                assert(xml_escaped(s)[i] == tail[i - head.len()]);
            }
        }
    }
}

/// `r` holds the text `e` from position `i` on.
pub open spec fn holds_at(r: Seq<char>, i: int, e: Seq<char>) -> bool {
    0 <= i && i + e.len() <= r.len() && r.subrange(i, i + e.len()) == e
}

/// The entity for `&`.
pub open spec fn amp_entity() -> Seq<char> {
    seq!['&', 'a', 'm', 'p', ';']
}

/// The entity for `<`.
pub open spec fn lt_entity() -> Seq<char> {
    seq!['&', 'l', 't', ';']
}

/// The entity for `>`.
pub open spec fn gt_entity() -> Seq<char> {
    seq!['&', 'g', 't', ';']
}

/// The entity for `"`.
pub open spec fn quot_entity() -> Seq<char> {
    seq!['&', 'q', 'u', 'o', 't', ';']
}

/// One of the four entities that escaping writes starts at position `i`.
pub open spec fn entity_at(r: Seq<char>, i: int) -> bool {
    holds_at(r, i, amp_entity()) || holds_at(r, i, lt_entity()) || holds_at(r, i, gt_entity())
        || holds_at(r, i, quot_entity())
}

/// Decodes escaped text in one pass from the left: each of the four
/// entities becomes its character, every other character stays.
pub open spec fn xml_unescaped(r: Seq<char>) -> Seq<char>
    decreases r.len(),
{
    if r.len() == 0 {
        Seq::empty()
    } else if holds_at(r, 0, amp_entity()) {
        seq!['&'] + xml_unescaped(r.skip(5))
    } else if holds_at(r, 0, lt_entity()) {
        seq!['<'] + xml_unescaped(r.skip(4))
    } else if holds_at(r, 0, gt_entity()) {
        seq!['>'] + xml_unescaped(r.skip(4))
    } else if holds_at(r, 0, quot_entity()) {
        seq!['"'] + xml_unescaped(r.skip(6))
    } else {
        seq![r[0]] + xml_unescaped(r.skip(1))
    }
}

proof fn lemma_entities_are_literals()
    ensures
        "&amp;"@ == amp_entity(),
        "&lt;"@ == lt_entity(),
        "&gt;"@ == gt_entity(),
        "&quot;"@ == quot_entity(),
{
    reveal_strlit("&amp;");
    reveal_strlit("&lt;");
    reveal_strlit("&gt;");
    reveal_strlit("&quot;");
    assert("&amp;"@ =~= amp_entity());
    assert("&lt;"@ =~= lt_entity());
    assert("&gt;"@ =~= gt_entity());
    assert("&quot;"@ =~= quot_entity());
}

proof fn lemma_escaped_concat(a: Seq<char>, b: Seq<char>)
    ensures
        xml_escaped(a + b) == xml_escaped(a) + xml_escaped(b),
    decreases b.len(),
{
    if b.len() == 0 {
        assert(a + b =~= a);
        assert(xml_escaped(a) + xml_escaped(b) =~= xml_escaped(a));
    } else {
        lemma_escaped_concat(a, b.drop_last());
        assert((a + b).drop_last() =~= a + b.drop_last());
        assert((a + b).last() == b.last());
        assert(xml_escaped(a) + xml_escaped(b) =~= xml_escaped(a) + xml_escaped(b.drop_last()) + escape_char(b.last()));
    }
}

proof fn lemma_unescape_one(c: char, rest: Seq<char>)
    ensures
        xml_unescaped(escape_char(c) + rest) == seq![c] + xml_unescaped(rest),
{
    reveal_strlit("&amp;");
    reveal_strlit("&lt;");
    reveal_strlit("&gt;");
    reveal_strlit("&quot;");
    lemma_entities_are_literals();
    let r = escape_char(c) + rest;
    let e = escape_char(c);
    assert(r.skip(e.len() as int) =~= rest);
    assert(r.subrange(0, e.len() as int) =~= e);
    if c == '&' {
        assert(holds_at(r, 0, amp_entity()));
    } else if c == '<' {
        assert(r[1] == 'l');
        assert(!holds_at(r, 0, amp_entity())) by {
            if holds_at(r, 0, amp_entity()) { assert(r.subrange(0, 5)[1] == 'a'); }
        }
        assert(holds_at(r, 0, lt_entity()));
    } else if c == '>' {
        assert(r[1] == 'g');
        assert(!holds_at(r, 0, amp_entity())) by {
            if holds_at(r, 0, amp_entity()) { assert(r.subrange(0, 5)[1] == 'a'); }
        }
        assert(!holds_at(r, 0, lt_entity())) by {
            if holds_at(r, 0, lt_entity()) { assert(r.subrange(0, 4)[1] == 'l'); }
        }
        assert(holds_at(r, 0, gt_entity()));
    } else if c == '"' {
        assert(r[1] == 'q');
        assert(!holds_at(r, 0, amp_entity())) by {
            if holds_at(r, 0, amp_entity()) { assert(r.subrange(0, 5)[1] == 'a'); }
        }
        assert(!holds_at(r, 0, lt_entity())) by {
            if holds_at(r, 0, lt_entity()) { assert(r.subrange(0, 4)[1] == 'l'); }
        }
        assert(!holds_at(r, 0, gt_entity())) by {
            if holds_at(r, 0, gt_entity()) { assert(r.subrange(0, 4)[1] == 'g'); }
        }
        assert(holds_at(r, 0, quot_entity()));
    } else {
        assert(r[0] == c);
        assert(!holds_at(r, 0, amp_entity())) by {
            if holds_at(r, 0, amp_entity()) { assert(r.subrange(0, 5)[0] == '&'); }
        }
        assert(!holds_at(r, 0, lt_entity())) by {
            if holds_at(r, 0, lt_entity()) { assert(r.subrange(0, 4)[0] == '&'); }
        }
        assert(!holds_at(r, 0, gt_entity())) by {
            if holds_at(r, 0, gt_entity()) { assert(r.subrange(0, 4)[0] == '&'); }
        }
        assert(!holds_at(r, 0, quot_entity())) by {
            if holds_at(r, 0, quot_entity()) { assert(r.subrange(0, 6)[0] == '&'); }
        }
    }
}

/// Decoding the four entities in one pass from the left gives back the
/// text that was escaped.
pub proof fn lemma_unescape_undoes_escape(s: Seq<char>)
    ensures
        xml_unescaped(xml_escaped(s)) == s,
    decreases s.len(),
{
    if s.len() == 0 {
        assert(xml_escaped(s) =~= Seq::<char>::empty());
    } else {
        let rest = s.drop_first();
        assert(s =~= seq![s[0]] + rest);
        lemma_escaped_concat(seq![s[0]], rest);
        assert(seq![s[0]].drop_last() =~= Seq::<char>::empty());
        assert(seq![s[0]].last() == s[0]);
        assert(xml_escaped(Seq::<char>::empty()) =~= Seq::<char>::empty());
        assert(xml_escaped(seq![s[0]]) =~= escape_char(s[0]));
        lemma_unescape_one(s[0], xml_escaped(rest));
        lemma_unescape_undoes_escape(rest);
    }
}

/// In escaped text every `&` begins one of the four entities.
pub proof fn lemma_escaped_ampersands_are_entities(s: Seq<char>)
    ensures
        forall|i: int| 0 <= i < xml_escaped(s).len() && #[trigger] xml_escaped(s)[i] == '&' ==> entity_at(xml_escaped(s), i),
    decreases s.len(),
{
    reveal_strlit("&amp;");
    reveal_strlit("&lt;");
    reveal_strlit("&gt;");
    reveal_strlit("&quot;");
    lemma_entities_are_literals();
    if s.len() > 0 {
        let rest = s.drop_last();
        lemma_escaped_ampersands_are_entities(rest);
        let head = xml_escaped(rest);
        let tail = escape_char(s.last());
        let r = xml_escaped(s);
        assert(r == head + tail);
        assert forall|i: int| 0 <= i < r.len() && #[trigger] r[i] == '&' implies entity_at(r, i) by {
            if i < head.len() {
                assert(r[i] == head[i]);
                assert(entity_at(head, i));
                if holds_at(head, i, amp_entity()) {
                    assert(r.subrange(i, i + 5) =~= head.subrange(i, i + 5));
                } else if holds_at(head, i, lt_entity()) {
                    assert(r.subrange(i, i + 4) =~= head.subrange(i, i + 4));
                } else if holds_at(head, i, gt_entity()) {
                    assert(r.subrange(i, i + 4) =~= head.subrange(i, i + 4));
                } else {
                    assert(r.subrange(i, i + 6) =~= head.subrange(i, i + 6));
                }
            } else {
                let j = i - head.len();
                assert(r[i] == tail[j]);
                assert(j == 0);
                assert(r.subrange(i, i + tail.len()) =~= tail);
            }
        }
    }
}

/// The digit character for `d` (0 to 9).
pub open spec fn digit_char(d: nat) -> char {
    ((d + 48) as u8) as char
}

/// The decimal numeral of `n`, without leading zeros.
pub open spec fn decimal(n: nat) -> Seq<char>
    decreases n,
{
    if n < 10 {
        seq![digit_char(n)]
    } else {
        decimal(n / 10) + seq![digit_char(n % 10)]
    }
}

fn digit_str(d: u32) -> (s: &'static str)
    requires
        d < 10,
    ensures
        s@ == seq![digit_char(d as nat)],
{
    proof {
        reveal_strlit("0");
        reveal_strlit("1");
        reveal_strlit("2");
        reveal_strlit("3");
        reveal_strlit("4");
        reveal_strlit("5");
        reveal_strlit("6");
        reveal_strlit("7");
        reveal_strlit("8");
        reveal_strlit("9");
    }
    match d {
        0 => "0",
        1 => "1",
        2 => "2",
        3 => "3",
        4 => "4",
        5 => "5",
        6 => "6",
        7 => "7",
        8 => "8",
        _ => "9",
    }
}

/// Appends the decimal numeral of `n`.
fn push_decimal(out: &mut String, n: u32)
    ensures
        final(out)@ == old(out)@ + decimal(n as nat),
    decreases n,
{
    if n >= 10 {
        push_decimal(out, n / 10);
    }
    out.append(digit_str(n % 10));
    proof {
        if n >= 10 {
            assert(decimal(n as nat) == decimal((n / 10) as nat) + seq![digit_char((n % 10) as nat)]);
        }
    }
}

/// The text of the badge's value: the grade's label and, in brackets, the
/// score as the caller has written it.
pub open spec fn badge_value_text(grade: VibeGrade, total_text: Seq<char>) -> Seq<char> {
    grade.label_text() + " ("@ + total_text + ")"@
}

/// The width in pixels of the value half of the badge: 7 per byte of its
/// UTF-8 text, and 10.
pub open spec fn badge_value_width(grade: VibeGrade, total_text: Seq<char>) -> nat {
    encode_utf8(badge_value_text(grade, total_text)).len() * 7 + 10
}

/// The badge: a shields.io-style SVG with `vibe` on a grey left half (40
/// pixels wide) and the value on the right half in the grade's colour.
pub open spec fn badge_svg(total: nat, value_width: nat, value_x: nat, color: Seq<char>, value: Seq<char>) -> Seq<char> {
    "<svg xmlns=\"http://www.w3.org/2000/svg\" width=\""@
        + decimal(total)
        + "\" height=\"20\" viewBox=\"0 0 "@
        + decimal(total)
        + " 20\">\n  <linearGradient id=\"s\" x2=\"0\" y2=\"100%\">\n    <stop offset=\"0\" stop-color=\"#bbb\" stop-opacity=\".1\"/>\n    <stop offset=\"1\" stop-opacity=\".1\"/>\n  </linearGradient>\n  <clipPath id=\"r\"><rect width=\""@
        + decimal(total)
        + "\" height=\"20\" rx=\"3\" fill=\"#fff\"/></clipPath>\n  <g clip-path=\"url(#r)\">\n    <rect width=\"40\" height=\"20\" fill=\"#555\"/>\n    <rect x=\"40\" width=\""@
        + decimal(value_width)
        + "\" height=\"20\" fill=\""@
        + color
        + "\"/>\n    <rect width=\""@
        + decimal(total)
        + "\" height=\"20\" fill=\"url(#s)\"/>\n  </g>\n  <g fill=\"#fff\" text-anchor=\"middle\" font-family=\"Verdana,Geneva,sans-serif\" font-size=\"11\">\n    <text x=\"20\" y=\"15\" fill=\"#010101\" fill-opacity=\".3\">vibe</text>\n    <text x=\"20\" y=\"14\">vibe</text>\n    <text x=\""@
        + decimal(value_x)
        + "\" y=\"15\" fill=\"#010101\" fill-opacity=\".3\">"@
        + value
        + "</text>\n    <text x=\""@
        + decimal(value_x)
        + "\" y=\"14\">"@
        + value
        + "</text>\n  </g>\n</svg>"@
}

/// Draws the vibe badge for a grade and a score, where `total_text` is the
/// score as it should show (rounded to whole points).
///
/// The value reads `<label> (<score>)`, XML-escaped; its half is 7 pixels
/// per byte of UTF-8 text plus 10 wide.
pub fn render_badge(grade: &VibeGrade, total_text: &str) -> (svg: String)
    requires
        badge_value_width(*grade, total_text@) + 40 <= u32::MAX,
    ensures
        svg@ == badge_svg(
            badge_value_width(*grade, total_text@) + 40,
            badge_value_width(*grade, total_text@),
            40 + badge_value_width(*grade, total_text@) / 2,
            badge_color_text(*grade),
            xml_escaped(badge_value_text(*grade, total_text@)),
        ),
{
    let mut value_text = String::from_str(grade.label());
    value_text.append(" (");
    value_text.append(total_text);
    value_text.append(")");
    assert(value_text@ == badge_value_text(*grade, total_text@));
    let byte_len = value_text.as_str().len();
    let value_width: u32 = byte_len as u32 * 7 + 10;
    let total: u32 = 40 + value_width;
    let value_x: u32 = 40 + value_width / 2;
    let color = badge_color(grade);
    let escaped = xml_escape(value_text.as_str());
    let mut svg = String::new();
    svg.append("<svg xmlns=\"http://www.w3.org/2000/svg\" width=\"");
    push_decimal(&mut svg, total);
    svg.append("\" height=\"20\" viewBox=\"0 0 ");
    push_decimal(&mut svg, total);
    svg.append(" 20\">\n  <linearGradient id=\"s\" x2=\"0\" y2=\"100%\">\n    <stop offset=\"0\" stop-color=\"#bbb\" stop-opacity=\".1\"/>\n    <stop offset=\"1\" stop-opacity=\".1\"/>\n  </linearGradient>\n  <clipPath id=\"r\"><rect width=\"");
    push_decimal(&mut svg, total);
    svg.append("\" height=\"20\" rx=\"3\" fill=\"#fff\"/></clipPath>\n  <g clip-path=\"url(#r)\">\n    <rect width=\"40\" height=\"20\" fill=\"#555\"/>\n    <rect x=\"40\" width=\"");
    push_decimal(&mut svg, value_width);
    svg.append("\" height=\"20\" fill=\"");
    svg.append(color);
    svg.append("\"/>\n    <rect width=\"");
    push_decimal(&mut svg, total);
    svg.append("\" height=\"20\" fill=\"url(#s)\"/>\n  </g>\n  <g fill=\"#fff\" text-anchor=\"middle\" font-family=\"Verdana,Geneva,sans-serif\" font-size=\"11\">\n    <text x=\"20\" y=\"15\" fill=\"#010101\" fill-opacity=\".3\">vibe</text>\n    <text x=\"20\" y=\"14\">vibe</text>\n    <text x=\"");
    push_decimal(&mut svg, value_x);
    svg.append("\" y=\"15\" fill=\"#010101\" fill-opacity=\".3\">");
    svg.append(escaped.as_str());
    svg.append("</text>\n    <text x=\"");
    push_decimal(&mut svg, value_x);
    svg.append("\" y=\"14\">");
    svg.append(escaped.as_str());
    svg.append("</text>\n  </g>\n</svg>");
    svg
}

} // verus!
