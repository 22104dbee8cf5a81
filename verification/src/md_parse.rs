//! Markdown parsing with pulldown-cmark, its events told apart as far as
//! the renderer needs.

use vstd::prelude::*;
use crate::md_renderer::{MdEvent, MdEventView, MdTag, MdTagEnd, MdTagView};
use pulldown_cmark::{CodeBlockKind, DefaultBrokenLinkCallback, Event, Parser, Tag, TagEnd};

verus! {

/// `pulldown_cmark::Parser`, the iterator over a text's markdown events.
#[verifier::external_type_specification]
#[verifier::external_body]
#[verifier::reject_recursive_types(F)]
pub struct ExParser<'a, F>(Parser<'a, F>);

/// `pulldown_cmark::DefaultBrokenLinkCallback`, the parser's default link
/// callback, which resolves no broken link.
#[verifier::external_type_specification]
#[verifier::external_body]
pub struct ExDefaultBrokenLinkCallback(DefaultBrokenLinkCallback);

/// `pulldown_cmark::Event`, one markdown event.
#[verifier::external_type_specification]
#[verifier::external_body]
pub struct ExEvent<'a>(Event<'a>);

/// `pulldown_cmark::Tag`, the element that a start event opens.
#[verifier::external_type_specification]
#[verifier::external_body]
pub struct ExTag<'a>(Tag<'a>);

/// `pulldown_cmark::TagEnd`, the element that an end event closes.
#[verifier::external_type_specification]
#[verifier::external_body]
pub struct ExTagEnd(TagEnd);

/// The name for the events that `Parser::new` yields for a text, each told
/// apart as far as `MdEvent` does.
pub uninterp spec fn md_events(text: Seq<char>) -> Seq<MdEventView>;

/// The name for the events that a parser has still to yield.
pub uninterp spec fn events_left(p: Parser) -> Seq<MdEventView>;

/// The name for what an event is, told apart as far as `MdEvent` does.
pub uninterp spec fn event_view(e: Event) -> MdEventView;

/// The name for what a start tag is, told apart as far as `MdTag` does.
pub uninterp spec fn tag_view(t: Tag) -> MdTagView;

/// The name for what an end tag is, told apart as far as `MdTagEnd` does.
pub uninterp spec fn tag_end_view(t: TagEnd) -> MdTagEnd;

/// The name for what an end tag is among the inline and table elements,
/// every other element counting as `Other`.
pub uninterp spec fn inline_end_view(t: TagEnd) -> MdTagEnd;

/// `Parser::new(text)`, with default options: a parser that has the text's
/// events still to yield.
#[verifier::external_body]
fn parser_new<'a>(text: &'a str) -> (r: Parser<'a>)
    ensures
        events_left(r) == md_events(text@),
{
    Parser::new(text)
}

/// `Iterator::next` on a parser: the first event it has left, which it no
/// longer has after the call, or `None` when none is left.
#[verifier::external_body]
fn parser_next<'a>(p: &mut Parser<'a>) -> (r: Option<Event<'a>>)
    ensures
        match r {
            None => events_left(*old(p)).len() == 0,
            Some(e) => {
                &&& events_left(*old(p)).len() > 0
                &&& event_view(e) == events_left(*old(p))[0]
                &&& events_left(*final(p)) == events_left(*old(p)).drop_first()
            },
        },
{
    p.next()
}

/// An event with its start or end tag still to be told apart.
enum SortedEvent<'a> {
    Start(Tag<'a>),
    End(TagEnd),
    Plain(MdEvent),
}

/// An `Event` told apart by its variant: a start or end event keeps its tag,
/// text and inline code become strings, soft and hard breaks and rules keep
/// their kind, and every other event is `Other`.
#[verifier::external_body]
fn sort_event<'a>(e: Event<'a>) -> (r: SortedEvent<'a>)
    ensures
        match r {
            SortedEvent::Start(t) => event_view(e) == MdEventView::Start(tag_view(t)),
            SortedEvent::End(t) => event_view(e) == MdEventView::End(tag_end_view(t)),
            SortedEvent::Plain(m) => event_view(e) == m@ && !(m is Start) && !(m is End),
        },
{
    match e {
        Event::Start(t) => SortedEvent::Start(t),
        Event::End(t) => SortedEvent::End(t),
        Event::Text(s) => SortedEvent::Plain(MdEvent::Text(s.to_string())),
        Event::Code(s) => SortedEvent::Plain(MdEvent::Code(s.to_string())),
        Event::SoftBreak => SortedEvent::Plain(MdEvent::SoftBreak),
        Event::HardBreak => SortedEvent::Plain(MdEvent::HardBreak),
        Event::Rule => SortedEvent::Plain(MdEvent::Rule),
        _ => SortedEvent::Plain(MdEvent::Other),
    }
}

/// A start tag told apart by the fields the renderer reads.
enum SortedTag {
    Heading(u8),
    /// A code block, with the info string when it is fenced.
    CodeBlock(Option<String>),
    List(Option<u64>),
    /// Any other tag, by the end tag that closes it.
    ByEnd(TagEnd),
}

/// The start tag that an end tag closes, for the tags with no field the
/// renderer reads.
pub open spec fn start_of_end(t: MdTagEnd) -> MdTagView {
    match t {
        MdTagEnd::Paragraph => MdTagView::Paragraph,
        MdTagEnd::BlockQuote => MdTagView::BlockQuote,
        MdTagEnd::Item => MdTagView::Item,
        MdTagEnd::Emphasis => MdTagView::Emphasis,
        MdTagEnd::Strong => MdTagView::Strong,
        MdTagEnd::Strikethrough => MdTagView::Strikethrough,
        MdTagEnd::Table => MdTagView::Table,
        MdTagEnd::TableHead => MdTagView::TableHead,
        MdTagEnd::TableRow => MdTagView::TableRow,
        MdTagEnd::TableCell => MdTagView::TableCell,
        _ => MdTagView::Other,
    }
}

/// A `Tag` told apart: a heading keeps its level as a number, a code block
/// its fenced info string, a list the number of its first item; any other
/// tag goes by `Tag::to_end`, the end tag that closes it.
#[verifier::external_body]
fn sort_tag<'a>(t: Tag<'a>) -> (r: SortedTag)
    ensures
        match r {
            SortedTag::Heading(l) => tag_view(t) == MdTagView::Heading(l),
            SortedTag::CodeBlock(Some(lang)) => tag_view(t) == (MdTagView::CodeBlock {
                fenced: true,
                lang: lang@,
            }),
            SortedTag::CodeBlock(None) => tag_view(t) == (MdTagView::CodeBlock {
                fenced: false,
                lang: Seq::<char>::empty(),
            }),
            SortedTag::List(s) => tag_view(t) == MdTagView::List(s),
            SortedTag::ByEnd(e) => tag_view(t) == start_of_end(tag_end_view(e)),
        },
{
    match t {
        Tag::Heading { level, .. } => SortedTag::Heading(level as u8),
        Tag::CodeBlock(CodeBlockKind::Fenced(lang)) => SortedTag::CodeBlock(Some(lang.to_string())),
        Tag::CodeBlock(CodeBlockKind::Indented) => SortedTag::CodeBlock(None),
        Tag::List(start) => SortedTag::List(start),
        t => SortedTag::ByEnd(t.to_end()),
    }
}

/// An end tag told apart among the block elements.
enum SortedEnd {
    Known(MdTagEnd),
    /// Not a block element the renderer tells apart.
    Rest(TagEnd),
}

/// A `TagEnd` told apart among paragraphs, headings, block quotes, code
/// blocks, lists and items; any other end tag is handed on as it is.
#[verifier::external_body]
fn sort_block_end(t: TagEnd) -> (r: SortedEnd)
    ensures
        match r {
            SortedEnd::Known(m) => tag_end_view(t) == m,
            SortedEnd::Rest(u) => tag_end_view(t) == inline_end_view(u),
        },
{
    match t {
        TagEnd::Paragraph => SortedEnd::Known(MdTagEnd::Paragraph),
        TagEnd::Heading(_) => SortedEnd::Known(MdTagEnd::Heading),
        TagEnd::BlockQuote(_) => SortedEnd::Known(MdTagEnd::BlockQuote),
        TagEnd::CodeBlock => SortedEnd::Known(MdTagEnd::CodeBlock),
        TagEnd::List(_) => SortedEnd::Known(MdTagEnd::List),
        TagEnd::Item => SortedEnd::Known(MdTagEnd::Item),
        u => SortedEnd::Rest(u),
    }
}

/// A `TagEnd` told apart among emphasis, strong, strikethrough and the
/// table elements; any other end tag is `Other`.
#[verifier::external_body]
fn sort_inline_end(t: TagEnd) -> (r: MdTagEnd)
    ensures
        r == inline_end_view(t),
{
    match t {
        TagEnd::Emphasis => MdTagEnd::Emphasis,
        TagEnd::Strong => MdTagEnd::Strong,
        TagEnd::Strikethrough => MdTagEnd::Strikethrough,
        TagEnd::Table => MdTagEnd::Table,
        TagEnd::TableHead => MdTagEnd::TableHead,
        TagEnd::TableRow => MdTagEnd::TableRow,
        TagEnd::TableCell => MdTagEnd::TableCell,
        _ => MdTagEnd::Other,
    }
}

fn end_tag_of(t: TagEnd) -> (r: MdTagEnd)
    ensures
        r == tag_end_view(t),
{
    match sort_block_end(t) {
        SortedEnd::Known(m) => m,
        SortedEnd::Rest(u) => sort_inline_end(u),
    }
}

fn start_tag_of<'a>(t: Tag<'a>) -> (r: MdTag)
    ensures
        r@ == tag_view(t),
{
    match sort_tag(t) {
        SortedTag::Heading(l) => MdTag::Heading(l),
        SortedTag::CodeBlock(Some(lang)) => MdTag::CodeBlock { fenced: true, lang },
        SortedTag::CodeBlock(None) => MdTag::CodeBlock { fenced: false, lang: String::new() },
        SortedTag::List(s) => MdTag::List(s),
        SortedTag::ByEnd(e) => match end_tag_of(e) {
            MdTagEnd::Paragraph => MdTag::Paragraph,
            MdTagEnd::BlockQuote => MdTag::BlockQuote,
            MdTagEnd::Item => MdTag::Item,
            MdTagEnd::Emphasis => MdTag::Emphasis,
            MdTagEnd::Strong => MdTag::Strong,
            MdTagEnd::Strikethrough => MdTag::Strikethrough,
            MdTagEnd::Table => MdTag::Table,
            MdTagEnd::TableHead => MdTag::TableHead,
            MdTagEnd::TableRow => MdTag::TableRow,
            MdTagEnd::TableCell => MdTag::TableCell,
            _ => MdTag::Other,
        },
    }
}

fn event_of<'a>(e: Event<'a>) -> (r: MdEvent)
    ensures
        r@ == event_view(e),
{
    match sort_event(e) {
        SortedEvent::Start(t) => MdEvent::Start(start_tag_of(t)),
        SortedEvent::End(t) => MdEvent::End(end_tag_of(t)),
        SortedEvent::Plain(m) => m,
    }
}

/// The markdown events of a text.
pub fn markdown_events(text: &str) -> (r: Vec<MdEvent>)
    ensures
        r.deep_view() == md_events(text@),
{
    let mut p = parser_new(text);
    let mut out: Vec<MdEvent> = Vec::new();
    loop
        invariant
            out.deep_view() + events_left(p) == md_events(text@),
        decreases events_left(p).len(),
    {
        let ghost before = events_left(p);
        match parser_next(&mut p) {
            Some(e) => {
                let ghost o = out.deep_view();
                let m = event_of(e);
                out.push(m);
                proof {
                    assert(out.deep_view() =~= o.push(m@));
                    assert(o + before =~= out.deep_view() + events_left(p));
                }
            },
            None => {
                proof {
                    assert(out.deep_view() + before =~= out.deep_view());
                }
                return out;
            },
        }
    }
}

} // verus!
