//! Parts and comparison of texts.

use docext::text::{same_text, substring};

/// The part of a text between two character boundaries, given in bytes.
#[test]
fn takes_parts_by_byte_offsets() {
    let text = "aé $x$ ∑";
    assert_eq!(substring(text, 0, text.len()), text);
    assert_eq!(substring(text, 0, 0), "");
    assert_eq!(substring(text, 0, 3), "aé");
    assert_eq!(substring(text, 4, 7), "$x$");
    assert_eq!(substring(text, 8, 11), "∑");
    assert_eq!(substring(text, 11, 11), "");
}

/// Two texts are the same where they hold the same characters.
#[test]
fn compares_texts() {
    assert!(same_text("", ""));
    assert!(same_text("png", "png"));
    assert!(same_text("é∑", "é∑"));
    assert!(!same_text("png", "pn"));
    assert!(!same_text("png", "pnG"));
    assert!(!same_text("", "a"));
    assert!(!same_text("é", "e\u{301}"));
}
