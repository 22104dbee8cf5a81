use bedrock_chat::math_render::{contains_math, parse_math_segments, Segment};

fn show(segs: &[Segment]) -> Vec<String> {
    segs.iter()
        .map(|s| match s {
            Segment::Text(t) => format!("T:{}", t),
            Segment::InlineMath(t) => format!("I:{}", t),
            Segment::DisplayMath(t) => format!("D:{}", t),
        })
        .collect()
}

#[test]
fn inline_and_display_math() {
    let segs = parse_math_segments("a $x$ b $$ y $$ c");
    assert_eq!(show(&segs), vec!["T:a ", "I:x", "T: b ", "D:y", "T: c"]);
}

#[test]
fn escaped_dollar_is_text() {
    let segs = parse_math_segments("cost \\$5 and $x$");
    assert_eq!(show(&segs), vec!["T:cost \\$5 and ", "I:x"]);
}

#[test]
fn unclosed_inline_keeps_the_dollar_as_text() {
    let segs = parse_math_segments("ab $c");
    assert_eq!(show(&segs), vec!["T:ab ", "T:$", "T:c"]);
    let segs = parse_math_segments("a $b");
    assert_eq!(show(&segs), vec!["T:a ", "T:$", "T:b"]);
}

#[test]
fn unclosed_display_keeps_rest_as_text() {
    let segs = parse_math_segments("x $$y");
    assert_eq!(show(&segs), vec!["T:x ", "T:$$y"]);
}

#[test]
fn blank_math_is_dropped() {
    let segs = parse_math_segments("a $ $ b");
    assert_eq!(show(&segs), vec!["T:a ", "T: b"]);
    let segs = parse_math_segments("$$  $$");
    assert!(segs.is_empty());
}

#[test]
fn inline_math_stops_at_line_break() {
    let segs = parse_math_segments("a $b\nc$ d");
    assert_eq!(show(&segs), vec!["T:a ", "T:$", "T:b\nc", "T:$", "T: d"]);
}

#[test]
fn math_content_is_trimmed() {
    let segs = parse_math_segments("$  \\frac{1}{2}\t$");
    assert_eq!(show(&segs), vec!["I:\\frac{1}{2}"]);
}

#[test]
fn text_without_dollar_is_one_segment() {
    assert_eq!(show(&parse_math_segments("plain words")), vec!["T:plain words"]);
    assert!(parse_math_segments("").is_empty());
}

#[test]
fn contains_math_detects_dollar() {
    assert!(contains_math("cost $5"));
    assert!(!contains_math("plain"));
    assert!(!contains_math(""));
}

#[test]
fn unicode_text_around_math() {
    let segs = parse_math_segments("é $α$ ü");
    assert_eq!(show(&segs), vec!["T:é ", "I:α", "T: ü"]);
}

#[test]
fn text_with_inline_math_splits_back_into_its_parts() {
    let input = "Let $x^2$ be $\\frac{a}{b}$, then$y$";
    let segs = parse_math_segments(input);
    assert_eq!(show(&segs), vec!["T:Let ", "I:x^2", "T: be ", "I:\\frac{a}{b}", "T:, then", "I:y"]);
    let rebuilt: String = segs
        .iter()
        .map(|s| match s {
            Segment::Text(t) => t.clone(),
            Segment::InlineMath(m) => format!("${}$", m),
            Segment::DisplayMath(m) => format!("$${}$$", m),
        })
        .collect();
    assert_eq!(rebuilt, input);
    let inline = segs.iter().filter(|s| matches!(s, Segment::InlineMath(_))).count();
    assert_eq!(inline, input.matches('$').count() / 2);
}
