use bedrock_chat::keychain::decode_api_key;

#[test]
fn stored_key_is_decoded() {
    assert_eq!(decode_api_key(Some(b"abc-123".to_vec())), Some("abc-123".to_string()));
    assert_eq!(decode_api_key(Some("clé".as_bytes().to_vec())), Some("clé".to_string()));
    assert_eq!(decode_api_key(None), None);
}

#[test]
fn invalid_utf8_is_no_key() {
    assert_eq!(decode_api_key(Some(vec![0xff, 0xfe])), None);
}
