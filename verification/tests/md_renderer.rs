use bedrock_chat::md_render::protect_math;
use bedrock_chat::md_renderer::{MarkdownRenderer, MdEvent, MdTag, MdTagEnd, RenderAction};

fn run(events: Vec<MdEvent>, blocks: &[(String, String)]) -> (MarkdownRenderer, Vec<RenderAction>) {
    let mut r = MarkdownRenderer::new();
    let mut acts = Vec::new();
    for ev in events {
        assert!(r.accepts(&ev));
        acts.extend(r.handle_event(ev, blocks));
    }
    acts.extend(r.finish());
    (r, acts)
}

fn text(s: &str) -> MdEvent {
    MdEvent::Text(s.to_string())
}

fn describe(a: &RenderAction) -> String {
    match a {
        RenderAction::Paragraph { spans, heading_level, list_marker, list_depth, blockquote_depth } => {
            let t: Vec<String> = spans
                .iter()
                .map(|s| format!("{}{}{}", if s.bold { "*" } else { "" }, if s.code { "`" } else { "" }, s.text))
                .collect();
            format!("P[{}] h{} m{:?} l{} q{}", t.join("|"), heading_level, list_marker, list_depth, blockquote_depth)
        }
        RenderAction::Space => "space".to_string(),
        RenderAction::HeadingRule => "hrule".to_string(),
        RenderAction::Separator => "sep".to_string(),
        RenderAction::CodeBlock(c) => format!("code[{}]", c),
        RenderAction::Table { rows, num_cols } => format!("table{:?}/{}", rows, num_cols),
    }
}

fn describe_all(acts: &[RenderAction]) -> Vec<String> {
    acts.iter().map(describe).collect()
}

#[test]
fn paragraph_is_drawn_at_its_end() {
    let (_, acts) = run(
        vec![MdEvent::Start(MdTag::Paragraph), text("hello"), MdEvent::End(MdTagEnd::Paragraph)],
        &[],
    );
    assert_eq!(describe_all(&acts), vec!["P[hello] h0 mNone l0 q0", "space"]);
}

#[test]
fn strong_text_and_soft_breaks_keep_style() {
    let (_, acts) = run(
        vec![
            MdEvent::Start(MdTag::Paragraph),
            MdEvent::Start(MdTag::Strong),
            text("bold"),
            MdEvent::End(MdTagEnd::Strong),
            MdEvent::SoftBreak,
            MdEvent::Code("x".to_string()),
            MdEvent::End(MdTagEnd::Paragraph),
        ],
        &[],
    );
    assert_eq!(describe_all(&acts), vec!["P[*bold| |`x] h0 mNone l0 q0", "space"]);
}

#[test]
fn ordered_list_items_are_numbered() {
    let (r, acts) = run(
        vec![
            MdEvent::Start(MdTag::List(Some(3))),
            MdEvent::Start(MdTag::Item),
            text("a"),
            MdEvent::End(MdTagEnd::Item),
            MdEvent::Start(MdTag::Item),
            text("b"),
            MdEvent::End(MdTagEnd::Item),
            MdEvent::End(MdTagEnd::List),
        ],
        &[],
    );
    assert_eq!(
        describe_all(&acts),
        vec!["P[a] h0 mSome(\"3.\") l1 q0", "P[b] h0 mSome(\"4.\") l1 q0"]
    );
    assert_eq!(r.list_depth, 0);
    assert_eq!(r.ordered_list_index, None);
}

#[test]
fn bullet_list_uses_a_bullet() {
    let (_, acts) = run(
        vec![
            MdEvent::Start(MdTag::List(None)),
            MdEvent::Start(MdTag::Item),
            text("a"),
            MdEvent::End(MdTagEnd::Item),
            MdEvent::End(MdTagEnd::List),
        ],
        &[],
    );
    assert_eq!(describe_all(&acts), vec!["P[a] h0 mSome(\"\u{2022}\") l1 q0"]);
}

#[test]
fn headings_get_a_rule_up_to_level_two() {
    let (_, acts) = run(
        vec![
            MdEvent::Start(MdTag::Heading(2)),
            text("Title"),
            MdEvent::End(MdTagEnd::Heading),
            MdEvent::Start(MdTag::Heading(3)),
            text("Sub"),
            MdEvent::End(MdTagEnd::Heading),
        ],
        &[],
    );
    assert_eq!(
        describe_all(&acts),
        vec!["P[Title] h2 mNone l0 q0", "hrule", "space", "P[Sub] h3 mNone l0 q0", "space"]
    );
}

#[test]
fn code_block_collects_its_text() {
    let (r, acts) = run(
        vec![
            MdEvent::Start(MdTag::CodeBlock { fenced: true, lang: "rust".to_string() }),
            text("fn main() {}\n"),
            MdEvent::End(MdTagEnd::CodeBlock),
        ],
        &[],
    );
    assert_eq!(describe_all(&acts), vec!["code[fn main() {}\n]", "space"]);
    assert_eq!(r.code_block_lang, Some("rust".to_string()));
    assert!(!r.in_code_block);
}

#[test]
fn indented_code_block_has_no_language() {
    let mut r = MarkdownRenderer::new();
    r.handle_event(MdEvent::Start(MdTag::CodeBlock { fenced: false, lang: "x".to_string() }), &[]);
    assert_eq!(r.code_block_lang, None);
}

#[test]
fn table_rows_are_collected_and_trimmed() {
    let (_, acts) = run(
        vec![
            MdEvent::Start(MdTag::Table),
            MdEvent::Start(MdTag::TableHead),
            MdEvent::Start(MdTag::TableCell),
            text(" a "),
            MdEvent::End(MdTagEnd::TableCell),
            MdEvent::End(MdTagEnd::TableHead),
            MdEvent::Start(MdTag::TableRow),
            MdEvent::Start(MdTag::TableCell),
            text("b"),
            MdEvent::End(MdTagEnd::TableCell),
            MdEvent::Start(MdTag::TableCell),
            text("c"),
            MdEvent::End(MdTagEnd::TableCell),
            MdEvent::End(MdTagEnd::TableRow),
            MdEvent::End(MdTagEnd::Table),
        ],
        &[],
    );
    assert_eq!(describe_all(&acts), vec!["table[[\"a\"], [\"b\", \"c\"]]/2", "space"]);
}

#[test]
fn rule_and_blockquote() {
    let (_, acts) = run(
        vec![
            MdEvent::Start(MdTag::BlockQuote),
            MdEvent::Start(MdTag::Paragraph),
            text("q"),
            MdEvent::End(MdTagEnd::Paragraph),
            MdEvent::End(MdTagEnd::BlockQuote),
            MdEvent::Rule,
        ],
        &[],
    );
    assert_eq!(describe_all(&acts), vec!["P[q] h0 mNone l0 q1", "space", "sep"]);
}

#[test]
fn text_placeholders_are_restored() {
    let (processed, blocks) = protect_math("x $a$");
    let (_, acts) = run(
        vec![MdEvent::Start(MdTag::Paragraph), MdEvent::Text(processed), MdEvent::End(MdTagEnd::Paragraph)],
        &blocks,
    );
    assert_eq!(describe_all(&acts), vec!["P[x $a$] h0 mNone l0 q0", "space"]);
}

#[test]
fn hard_break_flushes_and_finish_flushes_rest() {
    let (r, acts) = run(vec![text("a"), MdEvent::HardBreak, text("b")], &[]);
    assert_eq!(describe_all(&acts), vec!["P[a] h0 mNone l0 q0", "P[b] h0 mNone l0 q0"]);
    assert!(r.pending_text.is_empty());
}

#[test]
fn list_numbering_at_the_limit_is_refused() {
    let mut r = MarkdownRenderer::new();
    r.handle_event(MdEvent::Start(MdTag::List(Some(u64::MAX))), &[]);
    assert!(!r.accepts(&MdEvent::End(MdTagEnd::Item)));
    assert!(r.accepts(&MdEvent::End(MdTagEnd::List)));
}

#[test]
fn closing_styles_and_nesting_restores_state() {
    let (r, acts) = run(
        vec![
            MdEvent::Start(MdTag::Emphasis),
            MdEvent::Start(MdTag::Strong),
            MdEvent::Start(MdTag::Strikethrough),
            MdEvent::End(MdTagEnd::Strikethrough),
            MdEvent::End(MdTagEnd::Strong),
            MdEvent::End(MdTagEnd::Emphasis),
            MdEvent::Start(MdTag::BlockQuote),
            MdEvent::Start(MdTag::List(Some(1))),
            MdEvent::End(MdTagEnd::List),
            MdEvent::End(MdTagEnd::BlockQuote),
        ],
        &[],
    );
    assert!(acts.is_empty());
    assert!(!r.bold && !r.italic && !r.strikethrough);
    assert_eq!(r.blockquote_depth, 0);
    assert_eq!(r.list_depth, 0);
    assert_eq!(r.ordered_list_index, None);
}

#[test]
fn closing_a_nested_list_forgets_the_outer_numbering() {
    let mut r = MarkdownRenderer::new();
    r.handle_event(MdEvent::Start(MdTag::List(Some(5))), &[]);
    r.handle_event(MdEvent::Start(MdTag::List(None)), &[]);
    r.handle_event(MdEvent::End(MdTagEnd::List), &[]);
    assert_eq!(r.list_depth, 1);
    assert_eq!(r.ordered_list_index, None);
}

#[test]
fn render_actions_parses_and_restores_math() {
    let acts = bedrock_chat::md_renderer::render_actions("# Title\n\nhello $x$ and **b**").unwrap();
    assert_eq!(
        describe_all(&acts),
        vec!["P[Title] h1 mNone l0 q0", "hrule", "space", "P[hello $x$ and |*b] h0 mNone l0 q0", "space"]
    );
    let acts = bedrock_chat::md_renderer::render_actions("- a\n- b").unwrap();
    assert_eq!(describe_all(&acts), vec!["P[a] h0 mSome(\"•\") l1 q0", "P[b] h0 mSome(\"•\") l1 q0"]);
    assert!(bedrock_chat::md_renderer::render_actions("").unwrap().is_empty());
}
