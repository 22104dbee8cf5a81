use bedrock_chat::session::{apply_picked_settings, compact_allowed, system_block, MAX_ANSWER_TOKENS};
use bedrock_chat::bedrock::StreamToken;
use bedrock_chat::message::{ChatMessage, Conversation, ModelEntry, Role};
use bedrock_chat::session::{
    apply_compact_token, apply_stream_token, compacted_content, compaction_prompt, conversation_title,
    ellipsize, input_rows, model_filter_matches, model_position, name_position, remove_conversation,
    stream_history, model_picker_rows, PickerRow, StreamStatus,
};

#[test]
fn title_is_first_fifty_characters() {
    let long: String = "é".repeat(60);
    assert_eq!(conversation_title(&long).chars().count(), 50);
    assert_eq!(conversation_title("short"), "short");
}

#[test]
fn labels_are_ellipsized() {
    let t = "a".repeat(29);
    assert_eq!(ellipsize(&t, 28, 25), format!("{}...", "a".repeat(25)));
    let t = "b".repeat(28);
    assert_eq!(ellipsize(&t, 28, 25), t);
    assert_eq!(ellipsize(&"c".repeat(81), 80, 77).chars().count(), 80);
}

#[test]
fn input_rows_follow_line_breaks() {
    assert_eq!(input_rows(""), 1);
    assert_eq!(input_rows("a\nb"), 2);
    assert_eq!(input_rows(&"\n".repeat(20)), 8);
}

#[test]
fn model_filter_is_case_insensitive() {
    assert!(model_filter_matches("Command R", "Cohere", ""));
    assert!(model_filter_matches("Command R", "Cohere", "COMMAND"));
    assert!(model_filter_matches("Nova Pro", "Amazon", "amaz"));
    assert!(!model_filter_matches("Nova Pro", "Amazon", "llama"));
}

#[test]
fn positions_find_the_first_match() {
    let models = [
        ModelEntry { name: "A", id: "a", provider: "P" },
        ModelEntry { name: "B", id: "b", provider: "P" },
        ModelEntry { name: "B2", id: "b", provider: "Q" },
    ];
    assert_eq!(model_position(&models, "b"), Some(1));
    assert_eq!(model_position(&models, "z"), None);
    let regions = ["us-east-1", "eu-west-1"];
    assert_eq!(name_position(&regions, "eu-west-1"), Some(1));
    assert_eq!(name_position(&regions, "ap-south-1"), None);
}

#[test]
fn history_skips_empty_messages() {
    let msgs = vec![
        ChatMessage::new("c", Role::User, "hi").unwrap(),
        ChatMessage::new("c", Role::Assistant, "").unwrap(),
        ChatMessage::new("c", Role::Assistant, "hello").unwrap(),
    ];
    let h = stream_history(&msgs);
    assert_eq!(
        h,
        vec![("user".to_string(), "hi".to_string()), ("assistant".to_string(), "hello".to_string())]
    );
}

#[test]
fn compaction_prompt_lists_the_conversation() {
    let msgs = vec![ChatMessage::new("c", Role::User, "q").unwrap(), ChatMessage::new("c", Role::Assistant, "a").unwrap()];
    let p = compaction_prompt(&msgs);
    assert!(p.starts_with("Summarize the following conversation concisely"));
    assert!(p.ends_with("no preamble.\n\nUser: q\n\nAssistant: a\n\n"));
    assert_eq!(compacted_content("S"), "[Compacted context]\n\nS");
}

#[test]
fn stream_tokens_build_the_answer() {
    let mut msgs = vec![ChatMessage::new("c", Role::User, "q").unwrap(), ChatMessage::new("c", Role::Assistant, "").unwrap()];
    assert!(matches!(apply_stream_token(&mut msgs, StreamToken::Delta("Hel".into())), StreamStatus::Continue));
    assert!(matches!(apply_stream_token(&mut msgs, StreamToken::Delta("lo".into())), StreamStatus::Continue));
    assert_eq!(msgs[1].content, "Hello");
    assert_eq!(msgs[0].content, "q");
    assert!(matches!(apply_stream_token(&mut msgs, StreamToken::Done), StreamStatus::Finished(None)));
    match apply_stream_token(&mut msgs, StreamToken::Error("boom".into())) {
        StreamStatus::Finished(Some(e)) => assert_eq!(e, "boom"),
        _ => panic!("expected an error"),
    }
    let mut none: Vec<ChatMessage> = Vec::new();
    assert!(matches!(apply_stream_token(&mut none, StreamToken::Delta("x".into())), StreamStatus::Continue));
    assert!(none.is_empty());
}

#[test]
fn compaction_tokens_build_the_summary() {
    let mut s = String::new();
    apply_compact_token(&mut s, StreamToken::Delta("ab".into()));
    apply_compact_token(&mut s, StreamToken::Delta("c".into()));
    assert_eq!(s, "abc");
    match apply_compact_token(&mut s, StreamToken::Error("x".into())) {
        StreamStatus::Finished(Some(e)) => assert_eq!(e, "Compact error: x"),
        _ => panic!("expected an error"),
    }
}

#[test]
fn removing_a_conversation_keeps_the_others_in_order() {
    let a = Conversation::new("a", "m", "r").unwrap();
    let b = Conversation::new("b", "m", "r").unwrap();
    let c = Conversation::new("c", "m", "r").unwrap();
    let b_id = b.id.clone();
    let mut convs = vec![a.clone(), b, c.clone()];
    remove_conversation(&mut convs, &b_id);
    let titles: Vec<&str> = convs.iter().map(|x| x.title.as_str()).collect();
    assert_eq!(titles, vec!["a", "c"]);
    remove_conversation(&mut convs, "no such id");
    assert_eq!(convs.len(), 2);
    assert_eq!(convs[0].id, a.id);
    assert_eq!(convs[1].id, c.id);
}

fn show_rows(rows: &[PickerRow]) -> Vec<String> {
    rows.iter()
        .map(|r| match r {
            PickerRow::Header { provider, separator } => format!("{}{}", if *separator { "-" } else { "" }, provider),
            PickerRow::Model(i) => i.to_string(),
        })
        .collect()
}

#[test]
fn model_picker_groups_models_under_providers() {
    let models = [
        ModelEntry { name: "Mistral Large", id: "a", provider: "Mistral" },
        ModelEntry { name: "Mistral Small", id: "b", provider: "Mistral" },
        ModelEntry { name: "Nova Pro", id: "c", provider: "Amazon" },
        ModelEntry { name: "Llama", id: "d", provider: "Meta" },
        ModelEntry { name: "Mistral Tiny", id: "e", provider: "Mistral" },
    ];
    assert_eq!(
        show_rows(&model_picker_rows(&models, "")),
        vec!["Mistral", "0", "1", "-Amazon", "2", "-Meta", "3", "-Mistral", "4"]
    );
    assert_eq!(show_rows(&model_picker_rows(&models, "MISTRAL")), vec!["Mistral", "0", "1", "4"]);
    assert_eq!(show_rows(&model_picker_rows(&models, "ama")), vec!["Amazon", "2", "-Meta", "3"]);
    assert_eq!(show_rows(&model_picker_rows(&models, "nova")), vec!["Amazon", "2"]);
    assert!(model_picker_rows(&models, "gpt").is_empty());
}

#[test]
fn request_and_compaction_decisions() {
    assert_eq!(system_block(""), None);
    assert_eq!(system_block("Be brief."), Some("Be brief.".to_string()));
    assert_eq!(MAX_ANSWER_TOKENS, 4096);
    assert!(compact_allowed(true, false, false));
    assert!(!compact_allowed(false, false, false));
    assert!(!compact_allowed(true, true, false));
    assert!(!compact_allowed(true, false, true));
    let mut c = Conversation::new("t", "m1", "us-east-1").unwrap();
    let id = c.id.clone();
    apply_picked_settings(&mut c, "m2", "eu-west-1");
    assert_eq!((c.model_id.as_str(), c.region.as_str(), c.id.as_str()), ("m2", "eu-west-1", id.as_str()));
}
