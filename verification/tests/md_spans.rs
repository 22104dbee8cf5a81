use bedrock_chat::md_render::{has_math, split_spans, SpanSegment, TextSpan};

fn span(text: &str, bold: bool) -> TextSpan {
    TextSpan { text: text.to_string(), bold, italic: false, code: false, strikethrough: false }
}

fn show(segs: &[SpanSegment]) -> Vec<String> {
    segs.iter()
        .map(|s| match s {
            SpanSegment::StyledText { text, bold, .. } => format!("T{}:{}", if *bold { "b" } else { "" }, text),
            SpanSegment::InlineMath(m) => format!("I:{}", m),
            SpanSegment::DisplayMath(m) => format!("D:{}", m),
        })
        .collect()
}

#[test]
fn spans_split_into_text_and_math() {
    let spans = vec![span("a $x$ b", false), span("c $$ y $$ d", true)];
    let segs = split_spans(&spans);
    assert_eq!(show(&segs), vec!["T:a ", "I:x", "T: b", "Tb:c ", "D: y ", "Tb: d"]);
    assert!(has_math(&segs));
}

#[test]
fn delimiters_are_taken_in_text_order() {
    let segs = split_spans(&[span("a $x$ b $$y$$", false)]);
    assert_eq!(show(&segs), vec!["T:a ", "I:x", "T: b ", "D:y"]);
    let segs = split_spans(&[span("$a$ and $$b$$", false)]);
    assert_eq!(show(&segs), vec!["I:a", "T: and ", "D:b"]);
}

#[test]
fn unclosed_delimiters_become_text() {
    let segs = split_spans(&[span("a $$ b $c", false)]);
    assert_eq!(show(&segs), vec!["T:a ", "T:$$", "T: b ", "T:$", "T:c"]);
}

#[test]
fn empty_display_math_is_kept() {
    let segs = split_spans(&[span("$$$$", false)]);
    assert_eq!(show(&segs), vec!["D:"]);
}

#[test]
fn plain_spans_have_no_math() {
    let segs = split_spans(&[span("hello", false), span(" world", true)]);
    assert_eq!(show(&segs), vec!["T:hello", "Tb: world"]);
    assert!(!has_math(&segs));
    assert!(split_spans(&[]).is_empty());
}
