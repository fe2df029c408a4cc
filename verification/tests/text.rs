//! Text that is shown, stored and spoken.

use pocket_voice::text::{decimal, display_name, is_white_space, joined, joined3, trim};
use pocket_voice::text::{normalize_agent_tts_text, MAX_TTS_TEXT_LEN};

#[test]
fn assistant_text_truncation_is_unicode_safe_before_voice_routing() {
    let input = "🦀".repeat(MAX_TTS_TEXT_LEN + 1);
    let output = normalize_agent_tts_text(input);
    assert_eq!(
        output.chars().count(),
        MAX_TTS_TEXT_LEN + "... message truncated.".chars().count()
    );
    assert!(output.ends_with("... message truncated."));
}

#[test]
fn assistant_text_that_fits_is_spoken_unchanged() {
    let text = "A newly submitted assistant reply.".to_string();
    assert_eq!(normalize_agent_tts_text(text.clone()), text);
    let longest = "é".repeat(MAX_TTS_TEXT_LEN);
    assert_eq!(normalize_agent_tts_text(longest.clone()), longest);
    assert_eq!(normalize_agent_tts_text(String::new()), "");
}

#[test]
fn white_space_is_the_unicode_property() {
    for code in 0..=0x10_ffff_u32 {
        if let Some(c) = char::from_u32(code) {
            assert_eq!(is_white_space(c), c.is_whitespace(), "{code:x}");
        }
    }
}

#[test]
fn trimming_removes_white_space_at_both_ends_only() {
    for text in ["", " ", "\u{3000}\t\n", " a b ", "a", "\u{a0}é 🦀\u{2003}", "x "] {
        assert_eq!(trim(text), text.trim());
    }
}

#[test]
fn names_come_from_the_stem() {
    assert_eq!(display_name(Some("  Marius \u{3000}")), "Marius");
    assert_eq!(display_name(Some("My voice")), "My voice");
    assert_eq!(display_name(Some(" \t")), "Imported voice");
    assert_eq!(display_name(Some("")), "Imported voice");
    assert_eq!(display_name(None), "Imported voice");
    let long = "🦀é".repeat(50);
    assert_eq!(display_name(Some(&long)), "🦀é".repeat(40));
    assert_eq!(display_name(Some(&"x".repeat(80))), "x".repeat(80));
}

#[test]
fn numbers_are_written_in_decimal() {
    for n in [0, 7, 9, 10, 99, 100, 1234567890, u64::MAX] {
        assert_eq!(decimal(n), n.to_string());
    }
}

#[test]
fn texts_are_joined_in_order() {
    assert_eq!(joined("é", "b"), "éb");
    assert_eq!(joined3("a", "", "c"), "ac");
}
