use bedrock_chat::message::{timestamp_from_epoch, ChatMessage, Conversation, Role, Timestamp, TokenUsage};

fn is_v4_uuid(s: &str) -> bool {
    let c: Vec<char> = s.chars().collect();
    c.len() == 36
        && c.iter().enumerate().all(|(i, ch)| {
            if [8, 13, 18, 23].contains(&i) { *ch == '-' } else { ch.is_ascii_hexdigit() && !ch.is_ascii_uppercase() }
        })
        && c[14] == '4'
        && "89ab".contains(c[19])
}

#[test]
fn role_names_round_trip() {
    assert_eq!(Role::User.as_str(), "user");
    assert_eq!(Role::Assistant.as_str(), "assistant");
    for r in [Role::User, Role::Assistant] {
        assert_eq!(Role::from_str(r.as_str()), r);
    }
}

#[test]
fn unknown_role_names_are_the_user() {
    assert_eq!(Role::from_str("system"), Role::User);
    assert_eq!(Role::from_str("Assistant"), Role::User);
    assert_eq!(Role::from_str(""), Role::User);
}

#[test]
fn new_message_has_fresh_id_and_version_zero() {
    let a = ChatMessage::new("conv", Role::User, "hi").unwrap();
    let b = ChatMessage::new("conv", Role::User, "hi").unwrap();
    assert!(is_v4_uuid(&a.id));
    assert_ne!(a.id, b.id);
    assert_eq!(a.conversation_id, "conv");
    assert_eq!(a.content, "hi");
    assert_eq!(a.role, Role::User);
    assert_eq!(a.version, 0);
}

#[test]
fn append_token_extends_content_and_bumps_version() {
    let mut m = ChatMessage::new("c", Role::Assistant, "").unwrap();
    m.append_token("Hel");
    m.append_token("lo");
    assert_eq!(m.content, "Hello");
    assert_eq!(m.version, 2);
}

#[test]
fn version_wraps_around() {
    let mut m = ChatMessage::new("c", Role::Assistant, "").unwrap();
    m.version = u64::MAX;
    m.append_token("x");
    assert_eq!(m.version, 0);
}

#[test]
fn new_conversation_fields() {
    let c = Conversation::new("New Chat", "model-x", "us-east-1").unwrap();
    assert!(is_v4_uuid(&c.id));
    assert_eq!(c.title, "New Chat");
    assert_eq!(c.system_prompt, "");
    assert_eq!(c.model_id, "model-x");
    assert_eq!(c.region, "us-east-1");
    assert_eq!(c.created_at, c.updated_at);
    let copy = c.clone();
    assert_eq!(copy.id, c.id);
}

#[test]
fn token_usage_defaults_to_zero() {
    let u = TokenUsage::default();
    assert_eq!((u.input_tokens, u.output_tokens, u.total_tokens), (0, 0, 0));
}

#[test]
fn creation_time_is_a_valid_utc_reading() {
    let m = ChatMessage::new("c", Role::User, "x").unwrap();
    assert!(m.created_at.secs > 1_600_000_000);
    assert!(m.created_at.nanos < 1_000_000_000);
    let c = Conversation::new("t", "m", "r").unwrap();
    assert!(c.created_at.secs >= m.created_at.secs);
}

#[test]
fn ids_come_from_the_random_bytes_with_version_and_variant_set() {
    let t = Timestamp { secs: 5, nanos: 7 };
    let m = ChatMessage::from_parts("c", Role::User, "x", [0u8; 16], t);
    assert_eq!(m.id, "00000000-0000-4000-8000-000000000000");
    assert_eq!(m.created_at, t);
    assert_eq!(m.version, 0);
    let c = Conversation::from_parts("t", "m", "r", [0xffu8; 16], t);
    assert_eq!(c.id, "ffffffff-ffff-4fff-bfff-ffffffffffff");
    let bytes: [u8; 16] = [0x12, 0x34, 0x56, 0x78, 0x9a, 0xbc, 0xde, 0xf0, 0x01, 0x23, 0x45, 0x67, 0x89, 0xab, 0xcd, 0xef];
    let m = ChatMessage::from_parts("c", Role::Assistant, "", bytes, t);
    assert_eq!(m.id, "12345678-9abc-4ef0-8123-456789abcdef");
    assert_eq!(c.created_at, c.updated_at);
}

#[test]
fn epoch_readings_become_timestamps() {
    assert_eq!(timestamp_from_epoch(Some((12, 34))), Some(Timestamp { secs: 12, nanos: 34 }));
    assert_eq!(timestamp_from_epoch(Some((i64::MAX as u64, 0))), Some(Timestamp { secs: i64::MAX, nanos: 0 }));
    assert_eq!(timestamp_from_epoch(Some((i64::MAX as u64 + 1, 0))), None);
    assert_eq!(timestamp_from_epoch(None), None);
}
