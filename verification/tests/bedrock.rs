use bedrock_chat::bedrock::{on_stream_event, StreamEvent, StreamToken};

#[test]
fn stream_events_become_tokens() {
    match on_stream_event(StreamEvent::TextDelta("hi".into())) {
        (Some(StreamToken::Delta(t)), false) => assert_eq!(t, "hi"),
        _ => panic!("expected a delta"),
    }
    assert!(matches!(on_stream_event(StreamEvent::OtherDelta), (None, false)));
    assert!(matches!(on_stream_event(StreamEvent::Other), (None, false)));
    assert!(matches!(on_stream_event(StreamEvent::MessageStop), (Some(StreamToken::Done), true)));
    assert!(matches!(on_stream_event(StreamEvent::End), (Some(StreamToken::Done), true)));
    match on_stream_event(StreamEvent::Failed("bad".into())) {
        (Some(StreamToken::Error(e)), true) => assert_eq!(e, "bad"),
        _ => panic!("expected an error"),
    }
}
