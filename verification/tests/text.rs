use bedrock_chat::text::trim_str;

#[test]
fn trimming_twice_is_trimming_once() {
    for s in ["  a b  ", "\t\n x\u{3000}", "", "   ", "plain"] {
        let once = trim_str(s);
        assert_eq!(trim_str(&once), once);
        assert_eq!(once, s.trim());
    }
}
