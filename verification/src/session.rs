//! The chat window's decisions that do not touch the screen, the database or
//! the network: titles and labels, what is sent to the model, and what each
//! streamed token does to the conversation.

use vstd::prelude::*;
use crate::bedrock::StreamToken;
use crate::message::{next_version, role_name, ChatMessage, Conversation, ModelEntry, Role};
use crate::text::{
    chars_of, contains_seq, contains_str, count_char, count_chars, lowercase, prefix,
    prefix_string, push_str_chars, str_eq, to_lowercase,
};

verus! {

/// The title a conversation gets from its first message: its first 50 characters.
pub open spec fn title_of(text: Seq<char>) -> Seq<char> {
    prefix(text, 50)
}

pub fn conversation_title(text: &str) -> (r: String)
    ensures
        r@ == title_of(text@),
{
    prefix_string(text, 50)
}

pub open spec fn ellipsis() -> Seq<char> {
    seq!['.', '.', '.']
}

/// `s` when it has at most `max` characters, else its first `keep`
/// characters followed by `...`.
pub open spec fn ellipsized(s: Seq<char>, max: int, keep: int) -> Seq<char> {
    if s.len() > max {
        prefix(s, keep) + ellipsis()
    } else {
        s
    }
}

/// Shortens a label for display, as the sidebar (28, 25) and the search
/// results (80, 77) do.
pub fn ellipsize(s: &str, max: usize, keep: usize) -> (r: String)
    ensures
        r@ == ellipsized(s@, max as int, keep as int),
{
    let n = chars_of(s).len();
    if n > max {
        let mut r = prefix_string(s, keep);
        r.push('.');
        r.push('.');
        r.push('.');
        r
    } else {
        let mut r = String::new();
        push_str_chars(&mut r, s);
        r
    }
}

/// The number of text rows of the input box: one more than its line
/// breaks, between 1 and 8.
pub open spec fn rows_for(input: Seq<char>) -> nat {
    if count_char(input, '\n') + 1 > 8 {
        8
    } else {
        count_char(input, '\n') + 1
    }
}

pub fn input_rows(input: &str) -> (r: usize)
    ensures
        r as nat == rows_for(input@),
        1 <= r <= 8,
{
    let breaks = count_chars(input, '\n');
    if breaks >= 8 {
        8
    } else {
        breaks + 1
    }
}

/// Whether a model is listed under the picker's filter: always for an empty
/// filter, else when the lowercased filter occurs in the lowercased name or
/// provider.
pub open spec fn filter_shows(name: Seq<char>, provider: Seq<char>, filter: Seq<char>) -> bool {
    let f = lowercase(filter);
    f.len() == 0 || contains_seq(lowercase(name), f) || contains_seq(lowercase(provider), f)
}

pub fn model_filter_matches(name: &str, provider: &str, filter: &str) -> (r: bool)
    ensures
        r == filter_shows(name@, provider@, filter@),
{
    let f = to_lowercase(filter);
    if chars_of(f.as_str()).len() == 0 {
        return true;
    }
    let n = to_lowercase(name);
    if contains_str(n.as_str(), f.as_str()) {
        return true;
    }
    let p = to_lowercase(provider);
    contains_str(p.as_str(), f.as_str())
}

/// A row of the model picker.
pub enum PickerRow {
    /// A provider's name above its models; `separator` asks for a line
    /// above it, which every heading but the first gets.
    Header { provider: &'static str, separator: bool },
    /// The model at this index of the table.
    Model(usize),
}

pub enum PickerRowView {
    Header { provider: Seq<char>, separator: bool },
    Model(usize),
}

impl View for PickerRow {
    type V = PickerRowView;

    open spec fn view(&self) -> PickerRowView {
        match self {
            PickerRow::Header { provider, separator } => PickerRowView::Header {
                provider: provider@,
                separator: *separator,
            },
            PickerRow::Model(i) => PickerRowView::Model(*i),
        }
    }
}

impl DeepView for PickerRow {
    type V = PickerRowView;

    open spec fn deep_view(&self) -> PickerRowView {
        self@
    }
}

/// The picker rows for the models from index `i` on, `last` being the
/// provider of the heading shown last (empty before any): every model the
/// filter shows, under a heading whenever its provider differs from the
/// previous heading's.
pub open spec fn picker_from(models: Seq<ModelEntry>, filter: Seq<char>, i: int, last: Seq<char>) -> Seq<PickerRowView>
    decreases models.len() - i,
{
    if i < 0 || i >= models.len() {
        seq![]
    } else {
        let m = models[i];
        if !filter_shows(m.name@, m.provider@, filter) {
            picker_from(models, filter, i + 1, last)
        } else if m.provider@ != last {
            seq![
                PickerRowView::Header { provider: m.provider@, separator: last.len() > 0 },
                PickerRowView::Model(i as usize),
            ] + picker_from(models, filter, i + 1, m.provider@)
        } else {
            seq![PickerRowView::Model(i as usize)] + picker_from(models, filter, i + 1, last)
        }
    }
}

/// The rows of the model picker under the filter.
pub fn model_picker_rows(models: &[ModelEntry], filter: &str) -> (r: Vec<PickerRow>)
    ensures
        r.deep_view() == picker_from(models@, filter@, 0, Seq::<char>::empty()),
{
    let mut out: Vec<PickerRow> = Vec::new();
    let mut last: &'static str = "";
    proof {
        reveal_strlit("");
        assert(last@ =~= Seq::<char>::empty());
        assert(out.deep_view() + picker_from(models@, filter@, 0, last@) =~= picker_from(
            models@,
            filter@,
            0,
            last@,
        ));
    }
    let mut i: usize = 0;
    while i < models.len()
        invariant
            i <= models@.len(),
            picker_from(models@, filter@, 0, Seq::<char>::empty()) == out.deep_view()
                + picker_from(models@, filter@, i as int, last@),
        decreases models.len() - i,
    {
        let ghost o = out.deep_view();
        let ghost l = last@;
        let m = &models[i];
        if model_filter_matches(m.name, m.provider, filter) {
            if !str_eq(m.provider, last) {
                let separator = chars_of(last).len() > 0;
                out.push(PickerRow::Header { provider: m.provider, separator });
                last = m.provider;
            }
            out.push(PickerRow::Model(i));
            proof {
                if m.provider@ != l {
                    assert(out.deep_view() =~= o + seq![
                        PickerRowView::Header { provider: m.provider@, separator: l.len() > 0 },
                        PickerRowView::Model(i),
                    ]);
                } else {
                    assert(out.deep_view() =~= o + seq![PickerRowView::Model(i)]);
                }
            }
        }
        i = i + 1;
    }
    out
}

/// The first index at which `id` is a model's id.
pub fn model_position(models: &[ModelEntry], id: &str) -> (r: Option<usize>)
    ensures
        r matches Some(i) ==> i < models@.len() && models@[i as int].id@ == id@ && forall|j: int|
            0 <= j < i ==> #[trigger] models@[j].id@ != id@,
        r is None ==> forall|j: int| 0 <= j < models@.len() ==> #[trigger] models@[j].id@ != id@,
{
    let mut i: usize = 0;
    while i < models.len()
        invariant
            i <= models@.len(),
            forall|j: int| 0 <= j < i ==> #[trigger] models@[j].id@ != id@,
        decreases models.len() - i,
    {
        if str_eq(models[i].id, id) {
            return Some(i);
        }
        i = i + 1;
    }
    None
}

/// The first index at which `name` occurs in `names`.
pub fn name_position(names: &[&str], name: &str) -> (r: Option<usize>)
    ensures
        r matches Some(i) ==> i < names@.len() && names@[i as int]@ == name@ && forall|j: int|
            0 <= j < i ==> #[trigger] names@[j]@ != name@,
        r is None ==> forall|j: int| 0 <= j < names@.len() ==> #[trigger] names@[j]@ != name@,
{
    let mut i: usize = 0;
    while i < names.len()
        invariant
            i <= names@.len(),
            forall|j: int| 0 <= j < i ==> #[trigger] names@[j]@ != name@,
        decreases names.len() - i,
    {
        if str_eq(names[i], name) {
            return Some(i);
        }
        i = i + 1;
    }
    None
}

/// The (role, content) pairs sent to the model: every message with content,
/// in order.
pub open spec fn history_of(msgs: Seq<ChatMessage>) -> Seq<(Seq<char>, Seq<char>)>
    decreases msgs.len(),
{
    if msgs.len() == 0 {
        seq![]
    } else {
        let m = msgs.last();
        let rest = history_of(msgs.drop_last());
        if m.content@.len() == 0 {
            rest
        } else {
            rest.push((role_name(m.role), m.content@))
        }
    }
}

fn copy_str(s: &str) -> (r: String)
    ensures
        r@ == s@,
{
    let mut r = String::new();
    push_str_chars(&mut r, s);
    r
}

pub fn stream_history(messages: &[ChatMessage]) -> (r: Vec<(String, String)>)
    ensures
        r.deep_view() == history_of(messages@),
{
    let mut out: Vec<(String, String)> = Vec::new();
    let mut i: usize = 0;
    while i < messages.len()
        invariant
            i <= messages@.len(),
            out.deep_view() == history_of(messages@.take(i as int)),
        decreases messages.len() - i,
    {
        let m = &messages[i];
        assert(messages@.take(i + 1).drop_last() =~= messages@.take(i as int));
        if chars_of(m.content.as_str()).len() > 0 {
            let role = copy_str(m.role.as_str());
            let content = copy_str(m.content.as_str());
            let ghost o = out.deep_view();
            let ghost pv = (role@, content@);
            out.push((role, content));
            assert(out.deep_view() =~= o.push(pv));
        }
        i = i + 1;
    }
    assert(messages@.take(messages@.len() as int) =~= messages@);
    out
}

/// The label of a role in the compaction prompt.
pub open spec fn role_label(r: Role) -> Seq<char> {
    match r {
        Role::User => "User"@,
        Role::Assistant => "Assistant"@,
    }
}

/// The instruction that opens the compaction prompt.
pub open spec fn compaction_header() -> Seq<char> {
    "Summarize the following conversation concisely, preserving all key facts, decisions, and context so it can be used as the starting context for a continuation. Output ONLY the summary, no preamble.\n\n"@
}

/// The transcript part of the compaction prompt: `Role: content` and a
/// blank line for every message with content.
pub open spec fn transcript_of(msgs: Seq<ChatMessage>) -> Seq<char>
    decreases msgs.len(),
{
    if msgs.len() == 0 {
        seq![]
    } else {
        let m = msgs.last();
        let rest = transcript_of(msgs.drop_last());
        if m.content@.len() == 0 {
            rest
        } else {
            rest + role_label(m.role) + ": "@ + m.content@ + "\n\n"@
        }
    }
}

/// The prompt that asks the model to summarize a conversation.
pub fn compaction_prompt(messages: &[ChatMessage]) -> (r: String)
    ensures
        r@ == compaction_header() + transcript_of(messages@),
{
    let mut prompt = String::new();
    push_str_chars(
        &mut prompt,
        "Summarize the following conversation concisely, preserving all key facts, decisions, and context so it can be used as the starting context for a continuation. Output ONLY the summary, no preamble.\n\n",
    );
    let mut i: usize = 0;
    while i < messages.len()
        invariant
            i <= messages@.len(),
            prompt@ == compaction_header() + transcript_of(messages@.take(i as int)),
        decreases messages.len() - i,
    {
        let m = &messages[i];
        assert(messages@.take(i + 1).drop_last() =~= messages@.take(i as int));
        if chars_of(m.content.as_str()).len() > 0 {
            let ghost p0 = prompt@;
            let label = match m.role {
                Role::User => "User",
                Role::Assistant => "Assistant",
            };
            push_str_chars(&mut prompt, label);
            push_str_chars(&mut prompt, ": ");
            push_str_chars(&mut prompt, m.content.as_str());
            push_str_chars(&mut prompt, "\n\n");
            assert(prompt@ =~= p0 + role_label(m.role) + ": "@ + m.content@ + "\n\n"@);
        }
        i = i + 1;
    }
    assert(messages@.take(messages@.len() as int) =~= messages@);
    prompt
}

/// The content of the message that replaces a compacted conversation.
pub open spec fn compacted_text(summary: Seq<char>) -> Seq<char> {
    "[Compacted context]\n\n"@ + summary
}

pub fn compacted_content(summary: &str) -> (r: String)
    ensures
        r@ == compacted_text(summary@),
{
    let mut r = String::new();
    push_str_chars(&mut r, "[Compacted context]\n\n");
    push_str_chars(&mut r, summary);
    r
}

/// How a stream goes on after a token.
pub enum StreamStatus {
    /// More tokens may come.
    Continue,
    /// The stream is over, with the error it ended on, if any.
    Finished(Option<String>),
}

/// Applies a streamed answer token to the conversation: a delta is appended
/// to the last message (the answer being written), `Done` ends the stream,
/// and an error ends it with that error.
pub fn apply_stream_token(messages: &mut Vec<ChatMessage>, token: StreamToken) -> (r: StreamStatus)
    ensures
        match token {
            StreamToken::Delta(t) => {
                &&& r is Continue
                &&& final(messages)@.len() == old(messages)@.len()
                &&& old(messages)@.len() > 0 ==> {
                    let last = old(messages)@.len() - 1;
                    &&& forall|i: int| 0 <= i < last ==> final(messages)@[i] == old(messages)@[i]
                    &&& final(messages)@[last].content@ == old(messages)@[last].content@ + t@
                    &&& final(messages)@[last].version == next_version(old(messages)@[last].version)
                    &&& final(messages)@[last].id == old(messages)@[last].id
                    &&& final(messages)@[last].conversation_id == old(messages)@[last].conversation_id
                    &&& final(messages)@[last].role == old(messages)@[last].role
                    &&& final(messages)@[last].created_at == old(messages)@[last].created_at
                }
            },
            StreamToken::Done => r matches StreamStatus::Finished(None) && final(messages)@
                == old(messages)@,
            StreamToken::Error(e) => (r matches StreamStatus::Finished(Some(m)) && m@ == e@)
                && final(messages)@ == old(messages)@,
        },
{
    match token {
        StreamToken::Delta(t) => {
            match messages.pop() {
                Some(mut last) => {
                    last.append_token(t.as_str());
                    messages.push(last);
                },
                None => {},
            }
            StreamStatus::Continue
        },
        StreamToken::Done => StreamStatus::Finished(None),
        StreamToken::Error(e) => StreamStatus::Finished(Some(e)),
    }
}

/// Applies a token of the summary stream: deltas add to the summary, `Done`
/// ends it, and an error ends it with `Compact error: ` and the error.
pub fn apply_compact_token(summary: &mut String, token: StreamToken) -> (r: StreamStatus)
    ensures
        match token {
            StreamToken::Delta(t) => r is Continue && final(summary)@ == old(summary)@ + t@,
            StreamToken::Done => r matches StreamStatus::Finished(None) && final(summary)@ == old(
                summary,
            )@,
            StreamToken::Error(e) => (r matches StreamStatus::Finished(Some(m)) && m@
                == "Compact error: "@ + e@) && final(summary)@ == old(summary)@,
        },
{
    match token {
        StreamToken::Delta(t) => {
            push_str_chars(summary, t.as_str());
            StreamStatus::Continue
        },
        StreamToken::Done => StreamStatus::Finished(None),
        StreamToken::Error(e) => {
            let mut m = String::new();
            push_str_chars(&mut m, "Compact error: ");
            push_str_chars(&mut m, e.as_str());
            StreamStatus::Finished(Some(m))
        },
    }
}

/// Whether a conversation is other than the one with id `id`.
pub open spec fn keeps(id: Seq<char>) -> spec_fn(Conversation) -> bool {
    |c: Conversation| c.id@ != id
}

/// Takes the conversation with id `id` out of the sidebar list, keeping the
/// others in order.
pub fn remove_conversation(convs: &mut Vec<Conversation>, id: &str)
    ensures
        final(convs)@ == old(convs)@.filter(keeps(id@)),
{
    let mut kept: Vec<Conversation> = Vec::new();
    let mut i: usize = 0;
    while i < convs.len()
        invariant
            i <= convs@.len(),
            convs@ == old(convs)@,
            kept@ == old(convs)@.take(i as int).filter(keeps(id@)),
        decreases convs.len() - i,
    {
        if !str_eq(convs[i].id.as_str(), id) {
            kept.push(convs[i].clone());
        }
        proof {
            reveal(Seq::filter);
            assert(old(convs)@.take(i + 1).drop_last() =~= old(convs)@.take(i as int));
        }
        i = i + 1;
    }
    assert(old(convs)@.take(convs@.len() as int) =~= old(convs)@);
    *convs = kept;
}

/// The most tokens an answer may have.
pub const MAX_ANSWER_TOKENS: i32 = 4096;

/// The system prompt as it is sent with a request: only when it is not
/// empty.
pub fn system_block(system_prompt: &str) -> (r: Option<String>)
    ensures
        r is Some <==> system_prompt@.len() > 0,
        r matches Some(s) ==> s@ == system_prompt@,
{
    if chars_of(system_prompt).len() > 0 {
        Some(copy_str(system_prompt))
    } else {
        None
    }
}

/// Whether a conversation can be compacted now: it has messages and no
/// answer or summary is streaming.
pub fn compact_allowed(has_messages: bool, is_streaming: bool, is_compacting: bool) -> (r: bool)
    ensures
        r == (has_messages && !is_streaming && !is_compacting),
{
    has_messages && !is_streaming && !is_compacting
}

/// Puts the model and region picked in the top bar into the conversation.
pub fn apply_picked_settings(conv: &mut Conversation, model_id: &str, region: &str)
    ensures
        final(conv).model_id@ == model_id@,
        final(conv).region@ == region@,
        final(conv).id == old(conv).id,
        final(conv).title == old(conv).title,
        final(conv).system_prompt == old(conv).system_prompt,
        final(conv).created_at == old(conv).created_at,
        final(conv).updated_at == old(conv).updated_at,
{
    if !str_eq(conv.model_id.as_str(), model_id) || !str_eq(conv.region.as_str(), region) {
        conv.model_id = copy_str(model_id);
        conv.region = copy_str(region);
    }
}

} // verus!
