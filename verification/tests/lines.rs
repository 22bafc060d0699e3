//! Blank lines and white space.

use docext::lines::{contains_blank_line, is_whitespace_char};

fn std_has_blank_line(text: &str) -> bool {
    text.lines().any(|line| line.trim().is_empty())
}

/// White space is what the language knows as white space.
#[test]
fn whitespace_is_unicode_whitespace() {
    for code in 0..=0x10ffffu32 {
        if let Some(c) = char::from_u32(code) {
            assert_eq!(is_whitespace_char(c), c.is_whitespace(), "{:?}", c);
        }
    }
}

/// Texts with and without a blank line.
#[test]
fn finds_blank_lines() {
    assert!(!contains_blank_line(""));
    assert!(!contains_blank_line("a"));
    assert!(!contains_blank_line("a\n"));
    assert!(!contains_blank_line("a\nb"));
    assert!(!contains_blank_line("a\r\nb\r\n"));
    assert!(!contains_blank_line("$$\n x \n$$"));
    assert!(contains_blank_line("\n"));
    assert!(contains_blank_line(" "));
    assert!(contains_blank_line("a\n\nb"));
    assert!(contains_blank_line("a\n \t \nb"));
    assert!(contains_blank_line("a\n\r\nb"));
    assert!(contains_blank_line("a\n\u{a0}\u{3000}\nb"));
    assert!(contains_blank_line("\na"));
    assert!(contains_blank_line("a\n "));
    assert!(contains_blank_line("a\n\n"));
    assert!(contains_blank_line("$$1\n -\n 2\\newline\n \\pi\n\n $$"));
}

/// A text has a blank line where one of its lines, trimmed, is empty.
#[test]
fn agrees_with_lines_and_trim() {
    let alphabet = ['a', ' ', '\n', '\r', '\u{2003}'];
    // Every text of up to six characters over the alphabet.
    for length in 0..=6usize {
        let count = alphabet.len().pow(length as u32);
        for mut code in 0..count {
            let mut text = String::new();
            for _ in 0..length {
                text.push(alphabet[code % alphabet.len()]);
                code /= alphabet.len();
            }
            assert_eq!(
                contains_blank_line(&text),
                std_has_blank_line(&text),
                "{:?}",
                text
            );
        }
    }
}
