use bedrock_chat::md_render::{protect_math, restore_math};

const OBJ: char = '\u{FFFC}';

fn ph(k: usize, kind: char) -> String {
    format!("{}MATH{}{}{}", OBJ, k, kind, OBJ)
}

#[test]
fn inline_dollar_math_is_protected() {
    let (text, blocks) = protect_math("a $x$ b");
    assert_eq!(text, format!("a {} b", ph(0, 'I')));
    assert_eq!(blocks, vec![(ph(0, 'I'), "$x$".to_string())]);
}

#[test]
fn display_math_is_protected() {
    let (text, blocks) = protect_math("$$E=mc^2$$");
    assert_eq!(text, ph(0, 'D'));
    assert_eq!(blocks, vec![(ph(0, 'D'), "$$E=mc^2$$".to_string())]);
}

#[test]
fn paren_math_becomes_dollar_math() {
    let (text, blocks) = protect_math("see \\(a+b\\) here");
    assert_eq!(text, format!("see {} here", ph(0, 'I')));
    assert_eq!(blocks, vec![(ph(0, 'I'), "$a+b$".to_string())]);
}

#[test]
fn blank_inline_math_stays_as_text() {
    let (text, blocks) = protect_math("$ $ x");
    assert_eq!(text, "$ $ x");
    assert!(blocks.is_empty());
}

#[test]
fn blank_paren_math_is_dropped() {
    let (text, blocks) = protect_math("\\( \\) y");
    assert_eq!(text, " y");
    assert!(blocks.is_empty());
}

#[test]
fn unclosed_openers_stay() {
    assert_eq!(protect_math("cost $5").0, "cost $5");
    assert_eq!(protect_math("$$x").0, "$$x");
    assert_eq!(protect_math("\\(x").0, "\\(x");
    assert_eq!(protect_math("$a\nb$").0, "$a\nb$");
}

#[test]
fn placeholders_are_numbered_in_order() {
    let (text, blocks) = protect_math("$a$ and $$b$$ and \\(c\\)");
    assert_eq!(text, format!("{} and {} and {}", ph(0, 'I'), ph(1, 'D'), ph(2, 'I')));
    assert_eq!(blocks.len(), 3);
    assert_eq!(blocks[1].1, "$$b$$");
    assert_eq!(blocks[2].1, "$c$");
}

#[test]
fn many_blocks_get_two_digit_numbers() {
    let src: String = (0..12).map(|i| format!("${}$ ", i)).collect();
    let (text, blocks) = protect_math(&src);
    assert_eq!(blocks.len(), 12);
    assert_eq!(blocks[11].0, ph(11, 'I'));
    assert!(text.contains(&ph(10, 'I')));
}

#[test]
fn restore_puts_math_back() {
    let src = "x $a$ y $$b$$ z";
    let (text, blocks) = protect_math(src);
    assert_eq!(restore_math(&text, &blocks), src);
}

#[test]
fn restore_without_blocks_is_identity() {
    assert_eq!(restore_math("nothing here", &[]), "nothing here");
}

#[test]
fn restore_replaces_every_occurrence() {
    let blocks = vec![("P".to_string(), "$q$".to_string())];
    assert_eq!(restore_math("P and P", &blocks), "$q$ and $q$");
}

#[test]
fn restore_with_empty_placeholder_matches_std_replace() {
    let blocks = vec![(String::new(), "-".to_string())];
    assert_eq!(restore_math("ab", &blocks), "ab".replace("", "-"));
}

#[test]
fn plain_text_is_unchanged() {
    let (text, blocks) = protect_math("no math at all");
    assert_eq!(text, "no math at all");
    assert!(blocks.is_empty());
}

#[test]
fn placeholders_are_pairwise_distinct() {
    let (_, blocks) = protect_math("$a$ $a$ $$a$$ \\(a\\) $b$ $1$ $11$");
    for i in 0..blocks.len() {
        for j in (i + 1)..blocks.len() {
            assert_ne!(blocks[i].0, blocks[j].0);
        }
    }
    assert_eq!(blocks.len(), 7);
}

#[test]
fn round_trip_holds_with_math_words_away_from_math() {
    for src in ["MATH5 and $a$", "$a$ MATH0I $b$", "x $$y$$ MATH1D"] {
        let (text, blocks) = protect_math(src);
        assert_eq!(restore_math(&text, &blocks), src);
    }
}

#[test]
fn round_trip_holds_unless_a_placeholder_is_spelled_again() {
    for src in ["x$MATH1", "$a$MATH0I$c$", "$a$ $b$MATH1I$c$"] {
        let (text, blocks) = protect_math(src);
        assert_eq!(restore_math(&text, &blocks), src);
    }
    let src = "$a$ $b$MATH0I$c$";
    let (text, blocks) = protect_math(src);
    assert_ne!(restore_math(&text, &blocks), src);
}
