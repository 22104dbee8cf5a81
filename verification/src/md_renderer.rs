//! The markdown renderer's state machine: markdown events in, drawing steps out.
//!
//! The caller parses the (math-protected) markdown, hands each event to
//! `MarkdownRenderer::handle_event`, and draws the steps it returns.

use vstd::prelude::*;
use crate::md_render::{protect_math, protected, restore_math, restored, BlockView, TextSpan, TextSpanView};
use crate::md_parse::{markdown_events, md_events};
use crate::text::{decimal, push_decimal, push_str_chars, string_of_range, trim, trim_bounds, chars_of};

verus! {

/// The start of a markdown element, as far as the renderer tells them apart.
pub enum MdTag {
    Paragraph,
    /// A heading of level 1 to 6.
    Heading(u8),
    BlockQuote,
    /// A code block; `fenced` tells a fenced block from an indented one.
    CodeBlock { fenced: bool, lang: String },
    /// A list, with the number of its first item when it is ordered.
    List(Option<u64>),
    Item,
    Emphasis,
    Strong,
    Strikethrough,
    Table,
    TableHead,
    TableRow,
    TableCell,
    /// Any other element (links, images, ...).
    Other,
}

/// The end of a markdown element.
pub enum MdTagEnd {
    Paragraph,
    Heading,
    BlockQuote,
    CodeBlock,
    List,
    Item,
    Emphasis,
    Strong,
    Strikethrough,
    Table,
    TableHead,
    TableRow,
    TableCell,
    Other,
}

/// A markdown parser event.
pub enum MdEvent {
    Start(MdTag),
    End(MdTagEnd),
    Text(String),
    Code(String),
    SoftBreak,
    HardBreak,
    Rule,
    Other,
}

pub enum MdTagView {
    Paragraph,
    Heading(u8),
    BlockQuote,
    CodeBlock { fenced: bool, lang: Seq<char> },
    List(Option<u64>),
    Item,
    Emphasis,
    Strong,
    Strikethrough,
    Table,
    TableHead,
    TableRow,
    TableCell,
    Other,
}

pub enum MdEventView {
    Start(MdTagView),
    End(MdTagEnd),
    Text(Seq<char>),
    Code(Seq<char>),
    SoftBreak,
    HardBreak,
    Rule,
    Other,
}

impl View for MdTag {
    type V = MdTagView;

    open spec fn view(&self) -> MdTagView {
        match self {
            MdTag::Paragraph => MdTagView::Paragraph,
            MdTag::Heading(l) => MdTagView::Heading(*l),
            MdTag::BlockQuote => MdTagView::BlockQuote,
            MdTag::CodeBlock { fenced, lang } => MdTagView::CodeBlock { fenced: *fenced, lang: lang@ },
            MdTag::List(s) => MdTagView::List(*s),
            MdTag::Item => MdTagView::Item,
            MdTag::Emphasis => MdTagView::Emphasis,
            MdTag::Strong => MdTagView::Strong,
            MdTag::Strikethrough => MdTagView::Strikethrough,
            MdTag::Table => MdTagView::Table,
            MdTag::TableHead => MdTagView::TableHead,
            MdTag::TableRow => MdTagView::TableRow,
            MdTag::TableCell => MdTagView::TableCell,
            MdTag::Other => MdTagView::Other,
        }
    }
}

impl View for MdEvent {
    type V = MdEventView;

    open spec fn view(&self) -> MdEventView {
        match self {
            MdEvent::Start(t) => MdEventView::Start(t@),
            MdEvent::End(t) => MdEventView::End(*t),
            MdEvent::Text(s) => MdEventView::Text(s@),
            MdEvent::Code(s) => MdEventView::Code(s@),
            MdEvent::SoftBreak => MdEventView::SoftBreak,
            MdEvent::HardBreak => MdEventView::HardBreak,
            MdEvent::Rule => MdEventView::Rule,
            MdEvent::Other => MdEventView::Other,
        }
    }
}

impl DeepView for MdEvent {
    type V = MdEventView;

    open spec fn deep_view(&self) -> MdEventView {
        self@
    }
}

/// One drawing step for the caller to perform.
pub enum RenderAction {
    /// Draw pending text as a paragraph. `heading_level` is 0 outside
    /// headings; `list_marker` is the bullet or number when inside a list,
    /// indented by `list_depth`; `blockquote_depth` is the quote nesting.
    Paragraph {
        spans: Vec<TextSpan>,
        heading_level: u8,
        list_marker: Option<String>,
        list_depth: usize,
        blockquote_depth: usize,
    },
    /// A small vertical space.
    Space,
    /// The underline drawn below a top-level heading.
    HeadingRule,
    /// A horizontal rule with space around it.
    Separator,
    /// A code block holding this code.
    CodeBlock(String),
    /// A table of trimmed cells; `num_cols` is the widest row's length.
    Table { rows: Vec<Vec<String>>, num_cols: usize },
}

pub enum RenderActionView {
    Paragraph {
        spans: Seq<TextSpanView>,
        heading_level: u8,
        list_marker: Option<Seq<char>>,
        list_depth: usize,
        blockquote_depth: usize,
    },
    Space,
    HeadingRule,
    Separator,
    CodeBlock(Seq<char>),
    Table { rows: Seq<Seq<Seq<char>>>, num_cols: usize },
}

impl View for RenderAction {
    type V = RenderActionView;

    open spec fn view(&self) -> RenderActionView {
        match self {
            RenderAction::Paragraph {
                spans,
                heading_level,
                list_marker,
                list_depth,
                blockquote_depth,
            } => RenderActionView::Paragraph {
                spans: spans.deep_view(),
                heading_level: *heading_level,
                list_marker: match list_marker {
                    Some(m) => Some(m@),
                    None => None,
                },
                list_depth: *list_depth,
                blockquote_depth: *blockquote_depth,
            },
            RenderAction::Space => RenderActionView::Space,
            RenderAction::HeadingRule => RenderActionView::HeadingRule,
            RenderAction::Separator => RenderActionView::Separator,
            RenderAction::CodeBlock(c) => RenderActionView::CodeBlock(c@),
            RenderAction::Table { rows, num_cols } => RenderActionView::Table {
                rows: rows.deep_view(),
                num_cols: *num_cols,
            },
        }
    }
}

impl DeepView for RenderAction {
    type V = RenderActionView;

    open spec fn deep_view(&self) -> RenderActionView {
        self@
    }
}

/// The renderer's state between events.
pub struct MarkdownRenderer {
    pub bold: bool,
    pub italic: bool,
    pub code: bool,
    pub strikethrough: bool,
    /// Current heading level (0 = not in heading).
    pub heading_level: u8,
    pub list_depth: usize,
    pub ordered_list_index: Option<u64>,
    pub blockquote_depth: usize,
    pub in_code_block: bool,
    pub code_block_content: String,
    pub code_block_lang: Option<String>,
    pub in_table: bool,
    pub in_table_head: bool,
    pub table_rows: Vec<Vec<String>>,
    pub current_row: Vec<String>,
    pub current_cell: String,
    /// Text waiting to be drawn as one paragraph.
    pub pending_text: Vec<TextSpan>,
}

pub struct RendererView {
    pub bold: bool,
    pub italic: bool,
    pub code: bool,
    pub strikethrough: bool,
    pub heading_level: u8,
    pub list_depth: usize,
    pub ordered_list_index: Option<u64>,
    pub blockquote_depth: usize,
    pub in_code_block: bool,
    pub code_block_content: Seq<char>,
    pub code_block_lang: Option<Seq<char>>,
    pub in_table: bool,
    pub in_table_head: bool,
    pub table_rows: Seq<Seq<Seq<char>>>,
    pub current_row: Seq<Seq<char>>,
    pub current_cell: Seq<char>,
    pub pending_text: Seq<TextSpanView>,
}

impl View for MarkdownRenderer {
    type V = RendererView;

    open spec fn view(&self) -> RendererView {
        RendererView {
            bold: self.bold,
            italic: self.italic,
            code: self.code,
            strikethrough: self.strikethrough,
            heading_level: self.heading_level,
            list_depth: self.list_depth,
            ordered_list_index: self.ordered_list_index,
            blockquote_depth: self.blockquote_depth,
            in_code_block: self.in_code_block,
            code_block_content: self.code_block_content@,
            code_block_lang: match self.code_block_lang {
                Some(l) => Some(l@),
                None => None,
            },
            in_table: self.in_table,
            in_table_head: self.in_table_head,
            table_rows: self.table_rows.deep_view(),
            current_row: self.current_row.deep_view(),
            current_cell: self.current_cell@,
            pending_text: self.pending_text.deep_view(),
        }
    }
}

/// The state before the first event.
pub open spec fn initial_renderer() -> RendererView {
    RendererView {
        bold: false,
        italic: false,
        code: false,
        strikethrough: false,
        heading_level: 0,
        list_depth: 0,
        ordered_list_index: None,
        blockquote_depth: 0,
        in_code_block: false,
        code_block_content: seq![],
        code_block_lang: None,
        in_table: false,
        in_table_head: false,
        table_rows: seq![],
        current_row: seq![],
        current_cell: seq![],
        pending_text: seq![],
    }
}

/// The marker of a list item: its number and a dot, or a bullet.
pub open spec fn list_marker(index: Option<u64>) -> Seq<char> {
    match index {
        Some(i) => decimal(i as nat).push('.'),
        None => seq!['\u{2022}'],
    }
}

/// Drawing the pending text, if any, and clearing it.
pub open spec fn flush_spec(s: RendererView) -> (RendererView, Seq<RenderActionView>) {
    if s.pending_text.len() == 0 {
        (s, seq![])
    } else {
        (
            RendererView { pending_text: seq![], ..s },
            seq![
                RenderActionView::Paragraph {
                    spans: s.pending_text,
                    heading_level: s.heading_level,
                    list_marker: if s.list_depth > 0 {
                        Some(list_marker(s.ordered_list_index))
                    } else {
                        None
                    },
                    list_depth: s.list_depth,
                    blockquote_depth: s.blockquote_depth,
                },
            ],
        )
    }
}

/// The length of the longest row.
pub open spec fn max_row_len(rows: Seq<Seq<Seq<char>>>) -> nat
    decreases rows.len(),
{
    if rows.len() == 0 {
        0
    } else {
        let m = max_row_len(rows.drop_last());
        if rows.last().len() > m {
            rows.last().len()
        } else {
            m
        }
    }
}

/// Every cell of a row trimmed.
pub open spec fn trimmed_cells(row: Seq<Seq<char>>) -> Seq<Seq<char>> {
    row.map_values(|cell: Seq<char>| trim(cell))
}

/// Every cell trimmed.
pub open spec fn trimmed_rows(rows: Seq<Seq<Seq<char>>>) -> Seq<Seq<Seq<char>>> {
    rows.map_values(|row: Seq<Seq<char>>| trimmed_cells(row))
}

/// Drawing the collected table, if it has any cell, and clearing it.
pub open spec fn table_spec(s: RendererView) -> (RendererView, Seq<RenderActionView>) {
    if s.table_rows.len() == 0 {
        (s, seq![])
    } else {
        let n = max_row_len(s.table_rows);
        let s2 = RendererView { table_rows: seq![], ..s };
        if n == 0 {
            (s2, seq![])
        } else {
            (
                s2,
                seq![
                    RenderActionView::Table { rows: trimmed_rows(s.table_rows), num_cols: n as usize },
                    RenderActionView::Space,
                ],
            )
        }
    }
}

/// A span of `text` in the current style.
pub open spec fn span_in_style(s: RendererView, text: Seq<char>, code: bool) -> TextSpanView {
    TextSpanView {
        text: text,
        bold: s.bold,
        italic: s.italic,
        code: code,
        strikethrough: s.strikethrough,
    }
}

/// What the start of an element does.
pub open spec fn start_spec(s: RendererView, tag: MdTagView) -> (RendererView, Seq<RenderActionView>) {
    let (f, acts) = flush_spec(s);
    match tag {
        MdTagView::Paragraph => (f, acts),
        MdTagView::Heading(level) => (RendererView { heading_level: level, ..f }, acts),
        MdTagView::BlockQuote => (
            RendererView { blockquote_depth: (f.blockquote_depth + 1) as usize, ..f },
            acts,
        ),
        MdTagView::CodeBlock { fenced, lang } => (
            RendererView {
                in_code_block: true,
                code_block_content: seq![],
                code_block_lang: if fenced && lang.len() > 0 {
                    Some(lang)
                } else {
                    None
                },
                ..f
            },
            acts,
        ),
        MdTagView::List(start) => (
            RendererView { list_depth: (f.list_depth + 1) as usize, ordered_list_index: start, ..f },
            acts,
        ),
        MdTagView::Item => (f, acts),
        MdTagView::Emphasis => (RendererView { italic: true, ..s }, seq![]),
        MdTagView::Strong => (RendererView { bold: true, ..s }, seq![]),
        MdTagView::Strikethrough => (RendererView { strikethrough: true, ..s }, seq![]),
        MdTagView::Table => (RendererView { in_table: true, table_rows: seq![], ..f }, acts),
        MdTagView::TableHead => (RendererView { in_table_head: true, current_row: seq![], ..s }, seq![]),
        MdTagView::TableRow => (RendererView { current_row: seq![], ..s }, seq![]),
        MdTagView::TableCell => (RendererView { current_cell: seq![], ..s }, seq![]),
        MdTagView::Other => (s, seq![]),
    }
}

/// The current row moved into the table, when it has cells.
pub open spec fn close_row(s: RendererView) -> RendererView {
    if s.current_row.len() > 0 {
        RendererView { table_rows: s.table_rows.push(s.current_row), current_row: seq![], ..s }
    } else {
        s
    }
}

/// What the end of an element does.
pub open spec fn end_spec(s: RendererView, tag: MdTagEnd) -> (RendererView, Seq<RenderActionView>) {
    let (f, acts) = flush_spec(s);
    match tag {
        MdTagEnd::Paragraph => (f, acts.push(RenderActionView::Space)),
        MdTagEnd::Heading => (
            RendererView { heading_level: 0, ..f },
            if f.heading_level <= 2 {
                acts.push(RenderActionView::HeadingRule).push(RenderActionView::Space)
            } else {
                acts.push(RenderActionView::Space)
            },
        ),
        MdTagEnd::BlockQuote => (
            RendererView {
                blockquote_depth: if f.blockquote_depth > 0 {
                    (f.blockquote_depth - 1) as usize
                } else {
                    0
                },
                ..f
            },
            acts,
        ),
        MdTagEnd::CodeBlock => (
            RendererView { in_code_block: false, code_block_content: seq![], ..s },
            seq![RenderActionView::CodeBlock(s.code_block_content), RenderActionView::Space],
        ),
        MdTagEnd::List => (
            RendererView {
                list_depth: if f.list_depth > 0 {
                    (f.list_depth - 1) as usize
                } else {
                    0
                },
                ordered_list_index: None,
                ..f
            },
            acts,
        ),
        MdTagEnd::Item => (
            RendererView {
                ordered_list_index: match f.ordered_list_index {
                    Some(i) => Some((i + 1) as u64),
                    None => None,
                },
                ..f
            },
            acts,
        ),
        MdTagEnd::Emphasis => (RendererView { italic: false, ..s }, seq![]),
        MdTagEnd::Strong => (RendererView { bold: false, ..s }, seq![]),
        MdTagEnd::Strikethrough => (RendererView { strikethrough: false, ..s }, seq![]),
        MdTagEnd::Table => {
            let (t, tacts) = table_spec(s);
            (RendererView { in_table: false, ..t }, tacts)
        },
        MdTagEnd::TableHead => (close_row(RendererView { in_table_head: false, ..s }), seq![]),
        MdTagEnd::TableRow => (close_row(s), seq![]),
        MdTagEnd::TableCell => (
            RendererView {
                current_row: s.current_row.push(s.current_cell),
                current_cell: seq![],
                ..s
            },
            seq![],
        ),
        MdTagEnd::Other => (s, seq![]),
    }
}

/// What one event does, `blocks` being the math that placeholders stand for.
pub open spec fn event_spec(s: RendererView, ev: MdEventView, blocks: Seq<BlockView>) -> (
    RendererView,
    Seq<RenderActionView>,
) {
    match ev {
        MdEventView::Start(tag) => start_spec(s, tag),
        MdEventView::End(tag) => end_spec(s, tag),
        MdEventView::Text(t) => {
            let text = restored(t, blocks);
            if s.in_code_block {
                (RendererView { code_block_content: s.code_block_content + text, ..s }, seq![])
            } else if s.in_table {
                (RendererView { current_cell: s.current_cell + text, ..s }, seq![])
            } else {
                (
                    RendererView {
                        pending_text: s.pending_text.push(span_in_style(s, text, s.code)),
                        ..s
                    },
                    seq![],
                )
            }
        },
        MdEventView::Code(code) => (
            RendererView { pending_text: s.pending_text.push(span_in_style(s, code, true)), ..s },
            seq![],
        ),
        MdEventView::SoftBreak => (
            RendererView { pending_text: s.pending_text.push(span_in_style(s, seq![' '], s.code)), ..s },
            seq![],
        ),
        MdEventView::HardBreak => flush_spec(s),
        MdEventView::Rule => {
            let (f, acts) = flush_spec(s);
            (f, acts.push(RenderActionView::Separator))
        },
        MdEventView::Other => (s, seq![]),
    }
}

/// The events on which the renderer would overflow a counter: a quote or
/// list nested past `usize::MAX`, or an ordered list numbered past `u64::MAX`.
pub open spec fn event_ok(s: RendererView, ev: MdEventView) -> bool {
    match ev {
        MdEventView::Start(MdTagView::BlockQuote) => s.blockquote_depth < usize::MAX,
        MdEventView::Start(MdTagView::List(_)) => s.list_depth < usize::MAX,
        MdEventView::End(MdTagEnd::Item) => s.ordered_list_index != Some(u64::MAX),
        _ => true,
    }
}

/// The marker of a list item.
pub fn list_marker_string(index: Option<u64>) -> (r: String)
    ensures
        r@ == list_marker(index),
{
    let mut m = String::new();
    match index {
        Some(i) => {
            push_decimal(&mut m, i);
            m.push('.');
        },
        None => {
            m.push('\u{2022}');
        },
    }
    m
}

/// `s` trimmed.
fn trim_string(s: &String) -> (r: String)
    ensures
        r@ == trim(s@),
{
    let c = chars_of(s.as_str());
    let (a, b) = trim_bounds(&c, 0, c.len());
    assert(c@.subrange(0, c@.len() as int) =~= c@);
    string_of_range(&c, a, b)
}

fn trim_rows(rows: &Vec<Vec<String>>) -> (r: Vec<Vec<String>>)
    ensures
        r.deep_view() == trimmed_rows(rows.deep_view()),
{
    let mut out: Vec<Vec<String>> = Vec::new();
    let mut i: usize = 0;
    while i < rows.len()
        invariant
            i <= rows@.len(),
            out.deep_view() == trimmed_rows(rows.deep_view().take(i as int)),
        decreases rows.len() - i,
    {
        let row = &rows[i];
        let mut cells: Vec<String> = Vec::new();
        let mut j: usize = 0;
        while j < row.len()
            invariant
                j <= row@.len(),
                cells.deep_view() == trimmed_cells(row.deep_view().take(j as int)),
            decreases row.len() - j,
        {
            let t = trim_string(&row[j]);
            let ghost c0 = cells.deep_view();
            let ghost tv = t@;
            cells.push(t);
            assert(cells.deep_view() =~= c0.push(tv));
            assert(trimmed_cells(row.deep_view().take(j + 1)) =~= trimmed_cells(
                row.deep_view().take(j as int),
            ).push(trim(row.deep_view()[j as int])));
            j = j + 1;
        }
        let ghost o0 = out.deep_view();
        let ghost cv = cells.deep_view();
        out.push(cells);
        assert(row.deep_view().take(row@.len() as int) =~= row.deep_view());
        assert(out.deep_view() =~= o0.push(cv));
        assert(trimmed_rows(rows.deep_view().take(i + 1)) =~= trimmed_rows(
            rows.deep_view().take(i as int),
        ).push(trimmed_cells(rows.deep_view()[i as int])));
        i = i + 1;
    }
    assert(rows.deep_view().take(rows@.len() as int) =~= rows.deep_view());
    out
}

fn max_row_len_exec(rows: &Vec<Vec<String>>) -> (r: usize)
    ensures
        r as nat == max_row_len(rows.deep_view()),
{
    let mut m: usize = 0;
    let mut i: usize = 0;
    while i < rows.len()
        invariant
            i <= rows@.len(),
            m as nat == max_row_len(rows.deep_view().take(i as int)),
        decreases rows.len() - i,
    {
        let l = rows[i].len();
        proof {
            assert(rows.deep_view().take(i + 1).drop_last() =~= rows.deep_view().take(i as int));
            assert(rows.deep_view().take(i + 1).last().len() == l);
        }
        if l > m {
            m = l;
        }
        i = i + 1;
    }
    assert(rows.deep_view().take(rows@.len() as int) =~= rows.deep_view());
    m
}

impl MarkdownRenderer {
    pub fn new() -> (r: MarkdownRenderer)
        ensures
            r@ == initial_renderer(),
    {
        let r = MarkdownRenderer {
            bold: false,
            italic: false,
            code: false,
            strikethrough: false,
            heading_level: 0,
            list_depth: 0,
            ordered_list_index: None,
            blockquote_depth: 0,
            in_code_block: false,
            code_block_content: String::new(),
            code_block_lang: None,
            in_table: false,
            in_table_head: false,
            table_rows: Vec::new(),
            current_row: Vec::new(),
            current_cell: String::new(),
            pending_text: Vec::new(),
        };
        assert(r@.table_rows =~= seq![]);
        assert(r@.current_row =~= seq![]);
        assert(r@.pending_text =~= seq![]);
        r
    }

    /// Draws the pending text, if any.
    pub fn flush_text(&mut self) -> (r: Vec<RenderAction>)
        ensures
            (final(self)@, r.deep_view()) == flush_spec(old(self)@),
    {
        let mut acts: Vec<RenderAction> = Vec::new();
        if self.pending_text.len() == 0 {
            assert(acts.deep_view() =~= seq![]);
            return acts;
        }
        let mut spans: Vec<TextSpan> = Vec::new();
        std::mem::swap(&mut spans, &mut self.pending_text);
        let list_marker = if self.list_depth > 0 {
            Some(list_marker_string(self.ordered_list_index))
        } else {
            None
        };
        acts.push(
            RenderAction::Paragraph {
                spans,
                heading_level: self.heading_level,
                list_marker,
                list_depth: self.list_depth,
                blockquote_depth: self.blockquote_depth,
            },
        );
        assert(self@.pending_text =~= seq![]);
        assert(acts.deep_view() =~= flush_spec(old(self)@).1);
        acts
    }

    fn render_table(&mut self) -> (r: Vec<RenderAction>)
        ensures
            (final(self)@, r.deep_view()) == table_spec(old(self)@),
    {
        let mut acts: Vec<RenderAction> = Vec::new();
        if self.table_rows.len() == 0 {
            assert(acts.deep_view() =~= seq![]);
            return acts;
        }
        let mut rows: Vec<Vec<String>> = Vec::new();
        std::mem::swap(&mut rows, &mut self.table_rows);
        assert(self@.table_rows =~= seq![]);
        let num_cols = max_row_len_exec(&rows);
        if num_cols == 0 {
            assert(acts.deep_view() =~= seq![]);
            return acts;
        }
        let trimmed = trim_rows(&rows);
        acts.push(RenderAction::Table { rows: trimmed, num_cols });
        acts.push(RenderAction::Space);
        assert(acts.deep_view() =~= table_spec(old(self)@).1);
        acts
    }

    fn push_span(&mut self, text: String, code: bool)
        ensures
            final(self)@ == (RendererView {
                pending_text: old(self)@.pending_text.push(span_in_style(old(self)@, text@, code)),
                ..old(self)@
            }),
    {
        let span = TextSpan {
            text,
            bold: self.bold,
            italic: self.italic,
            code,
            strikethrough: self.strikethrough,
        };
        self.pending_text.push(span);
        assert(self@.pending_text =~= old(self)@.pending_text.push(
            span_in_style(old(self)@, span@.text, code),
        ));
    }
}

impl MarkdownRenderer {
    /// What the start of an element does.
    pub fn start_tag(&mut self, tag: MdTag) -> (r: Vec<RenderAction>)
        requires
            tag is BlockQuote ==> old(self).blockquote_depth < usize::MAX,
            tag is List ==> old(self).list_depth < usize::MAX,
        ensures
            (final(self)@, r.deep_view()) == start_spec(old(self)@, tag@),
    {
        let ghost t = tag@;
        match tag {
            MdTag::Paragraph => self.flush_text(),
            MdTag::Heading(level) => {
                let acts = self.flush_text();
                self.heading_level = level;
                acts
            },
            MdTag::BlockQuote => {
                let acts = self.flush_text();
                self.blockquote_depth = self.blockquote_depth + 1;
                acts
            },
            MdTag::CodeBlock { fenced, lang } => {
                let acts = self.flush_text();
                self.in_code_block = true;
                self.code_block_content = String::new();
                let lang_len = chars_of(lang.as_str()).len();
                self.code_block_lang = if fenced && lang_len > 0 {
                    Some(lang)
                } else {
                    None
                };
                acts
            },
            MdTag::List(start) => {
                let acts = self.flush_text();
                self.list_depth = self.list_depth + 1;
                self.ordered_list_index = start;
                acts
            },
            MdTag::Item => self.flush_text(),
            MdTag::Emphasis => {
                self.italic = true;
                Vec::new()
            },
            MdTag::Strong => {
                self.bold = true;
                Vec::new()
            },
            MdTag::Strikethrough => {
                self.strikethrough = true;
                Vec::new()
            },
            MdTag::Table => {
                let acts = self.flush_text();
                self.in_table = true;
                self.table_rows = Vec::new();
                assert(self@.table_rows =~= seq![]);
                acts
            },
            MdTag::TableHead => {
                self.in_table_head = true;
                self.current_row = Vec::new();
                assert(self@.current_row =~= seq![]);
                Vec::new()
            },
            MdTag::TableRow => {
                self.current_row = Vec::new();
                assert(self@.current_row =~= seq![]);
                Vec::new()
            },
            MdTag::TableCell => {
                self.current_cell = String::new();
                Vec::new()
            },
            MdTag::Other => Vec::new(),
        }
    }

    fn close_row(&mut self)
        ensures
            final(self)@ == close_row(old(self)@),
    {
        if self.current_row.len() > 0 {
            let mut row: Vec<String> = Vec::new();
            std::mem::swap(&mut row, &mut self.current_row);
            let ghost rv = row.deep_view();
            self.table_rows.push(row);
            assert(self@.current_row =~= seq![]);
            assert(self@.table_rows =~= old(self)@.table_rows.push(rv));
        }
    }

    /// What the end of an element does.
    #[verifier::rlimit(60)]
    pub fn end_tag(&mut self, tag: MdTagEnd) -> (r: Vec<RenderAction>)
        requires
            tag is Item ==> old(self).ordered_list_index != Some(u64::MAX),
        ensures
            (final(self)@, r.deep_view()) == end_spec(old(self)@, tag),
    {
        match tag {
            MdTagEnd::Paragraph => {
                let mut acts = self.flush_text();
                let ghost a0 = acts.deep_view();
                acts.push(RenderAction::Space);
                assert(acts.deep_view() =~= a0.push(RenderActionView::Space));
                acts
            },
            MdTagEnd::Heading => {
                let mut acts = self.flush_text();
                let ghost a0 = acts.deep_view();
                if self.heading_level <= 2 {
                    acts.push(RenderAction::HeadingRule);
                    acts.push(RenderAction::Space);
                    assert(acts.deep_view() =~= a0.push(RenderActionView::HeadingRule).push(
                        RenderActionView::Space,
                    ));
                } else {
                    acts.push(RenderAction::Space);
                    assert(acts.deep_view() =~= a0.push(RenderActionView::Space));
                }
                self.heading_level = 0;
                acts
            },
            MdTagEnd::BlockQuote => {
                let acts = self.flush_text();
                self.blockquote_depth = if self.blockquote_depth > 0 {
                    self.blockquote_depth - 1
                } else {
                    0
                };
                acts
            },
            MdTagEnd::CodeBlock => {
                let mut code = String::new();
                std::mem::swap(&mut code, &mut self.code_block_content);
                let ghost cv = code@;
                let mut acts: Vec<RenderAction> = Vec::new();
                acts.push(RenderAction::CodeBlock(code));
                acts.push(RenderAction::Space);
                self.in_code_block = false;
                assert(acts.deep_view() =~= seq![
                    RenderActionView::CodeBlock(cv),
                    RenderActionView::Space,
                ]);
                acts
            },
            MdTagEnd::List => {
                let acts = self.flush_text();
                self.list_depth = if self.list_depth > 0 {
                    self.list_depth - 1
                } else {
                    0
                };
                self.ordered_list_index = None;
                acts
            },
            MdTagEnd::Item => {
                let acts = self.flush_text();
                self.ordered_list_index = match self.ordered_list_index {
                    Some(i) => Some(i + 1),
                    None => None,
                };
                acts
            },
            MdTagEnd::Emphasis => {
                self.italic = false;
                Vec::new()
            },
            MdTagEnd::Strong => {
                self.bold = false;
                Vec::new()
            },
            MdTagEnd::Strikethrough => {
                self.strikethrough = false;
                Vec::new()
            },
            MdTagEnd::Table => {
                let acts = self.render_table();
                self.in_table = false;
                acts
            },
            MdTagEnd::TableHead => {
                self.in_table_head = false;
                self.close_row();
                Vec::new()
            },
            MdTagEnd::TableRow => {
                self.close_row();
                Vec::new()
            },
            MdTagEnd::TableCell => {
                let mut cell = String::new();
                std::mem::swap(&mut cell, &mut self.current_cell);
                let ghost cv = cell@;
                self.current_row.push(cell);
                assert(self@.current_row =~= old(self)@.current_row.push(cv));
                Vec::new()
            },
            MdTagEnd::Other => Vec::new(),
        }
    }

    /// Whether handling `ev` keeps every counter in range.
    pub fn accepts(&self, ev: &MdEvent) -> (r: bool)
        ensures
            r == event_ok(self@, ev@),
    {
        match ev {
            MdEvent::Start(MdTag::BlockQuote) => self.blockquote_depth < usize::MAX,
            MdEvent::Start(MdTag::List(_)) => self.list_depth < usize::MAX,
            MdEvent::End(MdTagEnd::Item) => match self.ordered_list_index {
                Some(i) => i < u64::MAX,
                None => true,
            },
            _ => true,
        }
    }

    /// Handles one markdown event; `blocks` are the math blocks that the
    /// placeholders in text events stand for.
    pub fn handle_event(&mut self, ev: MdEvent, blocks: &[(String, String)]) -> (r: Vec<RenderAction>)
        requires
            event_ok(old(self)@, ev@),
        ensures
            (final(self)@, r.deep_view()) == event_spec(old(self)@, ev@, blocks.deep_view()),
    {
        match ev {
            MdEvent::Start(tag) => self.start_tag(tag),
            MdEvent::End(tag) => self.end_tag(tag),
            MdEvent::Text(t) => {
                let text = restore_math(t.as_str(), blocks);
                if self.in_code_block {
                    push_str_chars(&mut self.code_block_content, text.as_str());
                } else if self.in_table {
                    push_str_chars(&mut self.current_cell, text.as_str());
                } else {
                    let code = self.code;
                    self.push_span(text, code);
                }
                Vec::new()
            },
            MdEvent::Code(code) => {
                self.push_span(code, true);
                Vec::new()
            },
            MdEvent::SoftBreak => {
                let mut sp = String::new();
                sp.push(' ');
                let code = self.code;
                self.push_span(sp, code);
                Vec::new()
            },
            MdEvent::HardBreak => self.flush_text(),
            MdEvent::Rule => {
                let mut acts = self.flush_text();
                let ghost a0 = acts.deep_view();
                acts.push(RenderAction::Separator);
                assert(acts.deep_view() =~= a0.push(RenderActionView::Separator));
                acts
            },
            MdEvent::Other => Vec::new(),
        }
    }

    /// Draws whatever text is still pending after the last event.
    pub fn finish(&mut self) -> (r: Vec<RenderAction>)
        ensures
            (final(self)@, r.deep_view()) == flush_spec(old(self)@),
    {
        self.flush_text()
    }
}

/// Running the renderer from state `s` over `evs`: the final state and the
/// steps drawn, or `None` when some event would overflow a counter.
pub open spec fn run_events(s: RendererView, evs: Seq<MdEventView>, blocks: Seq<BlockView>) -> Option<
    (RendererView, Seq<RenderActionView>),
>
    decreases evs.len(),
{
    if evs.len() == 0 {
        Some((s, seq![]))
    } else if !event_ok(s, evs[0]) {
        None
    } else {
        let (s1, a1) = event_spec(s, evs[0], blocks);
        match run_events(s1, evs.drop_first(), blocks) {
            Some((s2, a2)) => Some((s2, a1 + a2)),
            None => None,
        }
    }
}

/// `run` with `acc` drawn before it.
pub open spec fn after(acc: Seq<RenderActionView>, run: Option<(RendererView, Seq<RenderActionView>)>) -> Option<
    (RendererView, Seq<RenderActionView>),
> {
    match run {
        Some((s, a)) => Some((s, acc + a)),
        None => None,
    }
}

/// The steps that draw a message: its math protected, the markdown parsed,
/// every event handed to a fresh renderer with the math blocks, and the
/// text left pending drawn at the end; `None` when some event would
/// overflow a counter.
pub open spec fn rendered(content: Seq<char>) -> Option<Seq<RenderActionView>> {
    let (text, blocks) = protected(content);
    match run_events(initial_renderer(), md_events(text), blocks) {
        Some((s, a)) => Some(a + flush_spec(s).1),
        None => None,
    }
}

/// The drawing steps for a message's markdown content.
pub fn render_actions(content: &str) -> (r: Option<Vec<RenderAction>>)
    ensures
        match r {
            Some(acts) => rendered(content@) == Some(acts.deep_view()),
            None => rendered(content@) is None,
        },
{
    let (processed, blocks) = protect_math(content);
    let mut events = markdown_events(processed.as_str());
    let ghost evs = events.deep_view();
    let ghost bv = blocks.deep_view();
    let mut renderer = MarkdownRenderer::new();
    let mut acts: Vec<RenderAction> = Vec::new();
    let mut i: usize = 0;
    proof {
        assert(evs.subrange(0, evs.len() as int) =~= evs);
        assert(after(acts.deep_view(), run_events(renderer@, evs, bv)) == run_events(renderer@, evs, bv)) by {
            match run_events(renderer@, evs, bv) {
                Some((s, a)) => { assert(acts.deep_view() + a =~= a); },
                None => {},
            }
        }
    }
    let n = events.len();
    while i < n
        invariant
            n == evs.len(),
            i <= n,
            evs == md_events(processed@),
            (processed@, bv) == protected(content@),
            events.deep_view() == evs.subrange(i as int, n as int),
            bv == blocks.deep_view(),
            run_events(initial_renderer(), evs, bv) == after(
                acts.deep_view(),
                run_events(renderer@, evs.subrange(i as int, n as int), bv),
            ),
        decreases n - i,
    {
        let ev = events.remove(0);
        let ghost rest = evs.subrange(i as int, n as int);
        proof {
            assert(rest[0] == ev@);
            assert(rest.drop_first() =~= evs.subrange(i + 1, n as int));
            assert(events.deep_view() =~= evs.subrange(i + 1, n as int));
        }
        if !renderer.accepts(&ev) {
            proof {
                assert(run_events(renderer@, rest, bv) is None);
            }
            return None;
        }
        let ghost s0 = renderer@;
        let ghost a0 = acts.deep_view();
        let step = renderer.handle_event(ev, blocks.as_slice());
        let ghost sv = step.deep_view();
        let mut step = step;
        acts.append(&mut step);
        proof {
            assert(acts.deep_view() =~= a0 + sv);
            match run_events(renderer@, evs.subrange(i + 1, n as int), bv) {
                Some((s2, a2)) => {
                    assert(a0 + (sv + a2) =~= (a0 + sv) + a2);
                },
                None => {},
            }
        }
        i = i + 1;
    }
    let ghost s_end = renderer@;
    let ghost a_end = acts.deep_view();
    let last = renderer.finish();
    let ghost lv = last.deep_view();
    let mut last = last;
    acts.append(&mut last);
    proof {
        assert(evs.subrange(n as int, n as int) =~= Seq::<MdEventView>::empty());
        assert(a_end + Seq::<RenderActionView>::empty() =~= a_end);
        assert(acts.deep_view() =~= a_end + lv);
    }
    Some(acts)
}

/// Text inside an emphasis element is italic, inside a strong element bold,
/// inside a strikethrough element struck through: after the start tag, a
/// text event outside code blocks and tables adds one span holding the
/// text with its math put back, with that style on and the others as they
/// were, and draws nothing.
pub proof fn lemma_text_takes_open_style(s: RendererView, t: Seq<char>, blocks: Seq<BlockView>)
    requires
        !s.in_code_block,
        !s.in_table,
    ensures
        ({
            let s1 = event_spec(s, MdEventView::Start(MdTagView::Emphasis), blocks);
            let s2 = event_spec(s1.0, MdEventView::Text(t), blocks);
            &&& s1.1.len() == 0 && s2.1.len() == 0
            &&& s2.0.pending_text.len() == s.pending_text.len() + 1
            &&& s2.0.pending_text.last().text == restored(t, blocks)
            &&& s2.0.pending_text.last().italic
            &&& s2.0.pending_text.last().bold == s.bold
            &&& s2.0.pending_text.last().strikethrough == s.strikethrough
            &&& s2.0.pending_text.last().code == s.code
        }),
        ({
            let s1 = event_spec(s, MdEventView::Start(MdTagView::Strong), blocks);
            let s2 = event_spec(s1.0, MdEventView::Text(t), blocks);
            &&& s1.1.len() == 0 && s2.1.len() == 0
            &&& s2.0.pending_text.len() == s.pending_text.len() + 1
            &&& s2.0.pending_text.last().text == restored(t, blocks)
            &&& s2.0.pending_text.last().bold
            &&& s2.0.pending_text.last().italic == s.italic
            &&& s2.0.pending_text.last().strikethrough == s.strikethrough
            &&& s2.0.pending_text.last().code == s.code
        }),
        ({
            let s1 = event_spec(s, MdEventView::Start(MdTagView::Strikethrough), blocks);
            let s2 = event_spec(s1.0, MdEventView::Text(t), blocks);
            &&& s1.1.len() == 0 && s2.1.len() == 0
            &&& s2.0.pending_text.len() == s.pending_text.len() + 1
            &&& s2.0.pending_text.last().text == restored(t, blocks)
            &&& s2.0.pending_text.last().strikethrough
            &&& s2.0.pending_text.last().italic == s.italic
            &&& s2.0.pending_text.last().bold == s.bold
            &&& s2.0.pending_text.last().code == s.code
        }),
{
}

/// A paragraph drawn outside headings, lists and quotes, holding `spans`.
pub open spec fn plain_paragraph(spans: Seq<TextSpanView>) -> RenderActionView {
    RenderActionView::Paragraph {
        spans: spans,
        heading_level: 0,
        list_marker: None,
        list_depth: 0,
        blockquote_depth: 0,
    }
}

/// A paragraph holding only emphasized text (`*t*`) is drawn as one
/// paragraph with a single italic span of the text, math put back, then a
/// space, and leaves the renderer as it started; strong text (`**t**`) in
/// the same way with a single bold span.
pub proof fn lemma_styled_paragraph_drawn(t: Seq<char>, blocks: Seq<BlockView>)
    ensures
        run_events(
            initial_renderer(),
            seq![
                MdEventView::Start(MdTagView::Paragraph),
                MdEventView::Start(MdTagView::Emphasis),
                MdEventView::Text(t),
                MdEventView::End(MdTagEnd::Emphasis),
                MdEventView::End(MdTagEnd::Paragraph),
            ],
            blocks,
        ) == Some(
            (
                initial_renderer(),
                seq![
                    plain_paragraph(
                        seq![
                            TextSpanView {
                                text: restored(t, blocks),
                                bold: false,
                                italic: true,
                                code: false,
                                strikethrough: false,
                            },
                        ],
                    ),
                    RenderActionView::Space,
                ],
            ),
        ),
        run_events(
            initial_renderer(),
            seq![
                MdEventView::Start(MdTagView::Paragraph),
                MdEventView::Start(MdTagView::Strong),
                MdEventView::Text(t),
                MdEventView::End(MdTagEnd::Strong),
                MdEventView::End(MdTagEnd::Paragraph),
            ],
            blocks,
        ) == Some(
            (
                initial_renderer(),
                seq![
                    plain_paragraph(
                        seq![
                            TextSpanView {
                                text: restored(t, blocks),
                                bold: true,
                                italic: false,
                                code: false,
                                strikethrough: false,
                            },
                        ],
                    ),
                    RenderActionView::Space,
                ],
            ),
        ),
{
    reveal_with_fuel(run_events, 6);
    let i = initial_renderer();
    let e1 = seq![
        MdEventView::Start(MdTagView::Paragraph),
        MdEventView::Start(MdTagView::Emphasis),
        MdEventView::Text(t),
        MdEventView::End(MdTagEnd::Emphasis),
        MdEventView::End(MdTagEnd::Paragraph),
    ];
    assert(e1.drop_first().drop_first().drop_first().drop_first().drop_first() =~= Seq::<MdEventView>::empty());
    let e2 = seq![
        MdEventView::Start(MdTagView::Paragraph),
        MdEventView::Start(MdTagView::Strong),
        MdEventView::Text(t),
        MdEventView::End(MdTagEnd::Strong),
        MdEventView::End(MdTagEnd::Paragraph),
    ];
    assert(e2.drop_first().drop_first().drop_first().drop_first().drop_first() =~= Seq::<MdEventView>::empty());
    assert(e1.drop_first()[0] == MdEventView::Start(MdTagView::Emphasis));
    assert(e1.drop_first().drop_first()[0] == MdEventView::Text(t));
    assert(e1.drop_first().drop_first().drop_first()[0] == MdEventView::End(MdTagEnd::Emphasis));
    assert(e1.drop_first().drop_first().drop_first().drop_first()[0] == MdEventView::End(MdTagEnd::Paragraph));
    assert(e2.drop_first()[0] == MdEventView::Start(MdTagView::Strong));
    assert(e2.drop_first().drop_first()[0] == MdEventView::Text(t));
    assert(e2.drop_first().drop_first().drop_first()[0] == MdEventView::End(MdTagEnd::Strong));
    assert(e2.drop_first().drop_first().drop_first().drop_first()[0] == MdEventView::End(MdTagEnd::Paragraph));
    assert(run_events(i, e1, blocks) =~~= Some((i, seq![
        plain_paragraph(seq![TextSpanView { text: restored(t, blocks), bold: false, italic: true, code: false, strikethrough: false }]),
        RenderActionView::Space,
    ])));
    assert(run_events(i, e2, blocks) =~~= Some((i, seq![
        plain_paragraph(seq![TextSpanView { text: restored(t, blocks), bold: true, italic: false, code: false, strikethrough: false }]),
        RenderActionView::Space,
    ])));
}

/// Closing an emphasis, strong or strikethrough element that was opened in
/// a style without it gives the state back as it was, and neither event
/// draws anything.
pub proof fn lemma_inline_style_undone(s: RendererView)
    ensures
        !s.italic ==> end_spec(start_spec(s, MdTagView::Emphasis).0, MdTagEnd::Emphasis) == (
            s,
            Seq::<RenderActionView>::empty(),
        ),
        !s.bold ==> end_spec(start_spec(s, MdTagView::Strong).0, MdTagEnd::Strong) == (
            s,
            Seq::<RenderActionView>::empty(),
        ),
        !s.strikethrough ==> end_spec(
            start_spec(s, MdTagView::Strikethrough).0,
            MdTagEnd::Strikethrough,
        ) == (s, Seq::<RenderActionView>::empty()),
        start_spec(s, MdTagView::Emphasis).1.len() == 0,
        start_spec(s, MdTagView::Strong).1.len() == 0,
        start_spec(s, MdTagView::Strikethrough).1.len() == 0,
{
}

/// Opening and closing a block quote or a list leaves the nesting depth as
/// it was, with no text left pending. Closing a list forgets the numbering
/// of any list around it.
pub proof fn lemma_nesting_restored(s: RendererView, start: Option<u64>)
    requires
        s.blockquote_depth < usize::MAX,
        s.list_depth < usize::MAX,
    ensures
        ({
            let q = end_spec(start_spec(s, MdTagView::BlockQuote).0, MdTagEnd::BlockQuote).0;
            q.blockquote_depth == s.blockquote_depth && q.list_depth == s.list_depth
                && q.pending_text.len() == 0
        }),
        ({
            let l = end_spec(start_spec(s, MdTagView::List(start)).0, MdTagEnd::List).0;
            l.list_depth == s.list_depth && l.blockquote_depth == s.blockquote_depth
                && l.ordered_list_index is None && l.pending_text.len() == 0
        }),
{
}

} // verus!
