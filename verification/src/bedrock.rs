//! The decisions of the Bedrock streaming task: which token each event of
//! the response stream becomes, and when the stream is over.

use vstd::prelude::*;

verus! {

/// Events sent from the background streaming task to the UI
pub enum StreamToken {
    Delta(String),
    Done,
    Error(String),
}

/// What the response stream yields, as far as the task tells it apart.
pub enum StreamEvent {
    /// A content delta carrying text.
    TextDelta(String),
    /// A content delta carrying something other than text.
    OtherDelta,
    /// The model finished its message.
    MessageStop,
    /// Any other event of the stream.
    Other,
    /// The stream ended without more events.
    End,
    /// Receiving failed, with the error's text.
    Failed(String),
}

/// What the task does with one stream event: the token to send, if any,
/// and whether the stream is over.
pub fn on_stream_event(ev: StreamEvent) -> (r: (Option<StreamToken>, bool))
    ensures
        match ev {
            StreamEvent::TextDelta(t) => r.1 == false && (r.0 matches Some(StreamToken::Delta(d))
                && d@ == t@),
            StreamEvent::OtherDelta => r.1 == false && r.0 is None,
            StreamEvent::Other => r.1 == false && r.0 is None,
            StreamEvent::MessageStop => r.1 == true && (r.0 matches Some(StreamToken::Done)),
            StreamEvent::End => r.1 == true && (r.0 matches Some(StreamToken::Done)),
            StreamEvent::Failed(e) => r.1 == true && (r.0 matches Some(StreamToken::Error(m))
                && m@ == e@),
        },
{
    match ev {
        StreamEvent::TextDelta(t) => (Some(StreamToken::Delta(t)), false),
        StreamEvent::OtherDelta => (None, false),
        StreamEvent::Other => (None, false),
        StreamEvent::MessageStop => (Some(StreamToken::Done), true),
        StreamEvent::End => (Some(StreamToken::Done), true),
        StreamEvent::Failed(e) => (Some(StreamToken::Error(e)), true),
    }
}

} // verus!
