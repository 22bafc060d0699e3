//! Code and images, as the Markdown structure of a text has them.

use docext::markdown::{classify, classify_events, ImageRef, Markup};

/// A code span is a code range, backticks included.
#[test]
fn finds_code_spans() {
    assert_eq!(classify("a `b` c"), (vec![2..5], vec![]));
    assert_eq!(classify("`a` and ``b``"), (vec![0..3, 8..13], vec![]));
}

/// A code block is a code range: a fenced one with its fences, an
/// indented one from its first character on.
#[test]
fn finds_code_blocks() {
    assert_eq!(classify("```\ncode\n```\n"), (vec![0..12], vec![]));
    assert_eq!(classify("    code\n"), (vec![4..9], vec![]));
    assert_eq!(
        classify("text\n\n~~~rust\nlet a = `b`;\n~~~\n"),
        (vec![6..30], vec![])
    );
}

/// An image reference has its target and the range of the whole
/// reference; a link has none.
#[test]
fn finds_image_references() {
    assert_eq!(
        classify("![alt](img/a.png) and ![r](https://x.org/b.png \"t\")"),
        (
            vec![],
            vec![
                ImageRef { target: "img/a.png".to_string(), range: 0..17 },
                ImageRef { target: "https://x.org/b.png".to_string(), range: 22..51 },
            ]
        )
    );
    assert_eq!(classify("[link](img/a.png)"), (vec![], vec![]));
    assert_eq!(
        classify("![a][ref]\n\n[ref]: img/r.png\n"),
        (vec![], vec![ImageRef { target: "img/r.png".to_string(), range: 0..9 }])
    );
}

/// An image in a code span is code, not an image.
#[test]
fn code_hides_images() {
    assert_eq!(classify("`![a](b.png)`"), (vec![0..13], vec![]));
}

/// Plain text has neither code nor images.
#[test]
fn plain_text_has_no_structure() {
    assert_eq!(classify(""), (vec![], vec![]));
    assert_eq!(classify("just $x$ text"), (vec![], vec![]));
}

/// The events are sorted into code ranges and image references, each in
/// the order of their starts.
#[test]
fn sorts_events() {
    let events = vec![
        Markup::Other,
        Markup::Image("b.png".to_string(), 9..12),
        Markup::CodeBlock(20..30),
        Markup::CodeSpan(3..5),
        Markup::Other,
        Markup::Image("a.png".to_string(), 1..2),
        Markup::CodeSpan(40..41),
        Markup::CodeBlock(7..8),
    ];
    assert_eq!(
        classify_events(&events),
        (
            vec![3..5, 7..8, 20..30, 40..41],
            vec![
                ImageRef { target: "a.png".to_string(), range: 1..2 },
                ImageRef { target: "b.png".to_string(), range: 9..12 },
            ]
        )
    );
    assert_eq!(classify_events(&vec![]), (vec![], vec![]));
}

/// Events that start at the same place keep their order.
#[test]
fn keeps_the_order_of_equal_starts() {
    let events = vec![
        Markup::CodeSpan(5..9),
        Markup::Image("first.png".to_string(), 2..4),
        Markup::CodeBlock(5..6),
        Markup::Image("second.png".to_string(), 2..3),
        Markup::CodeSpan(5..7),
        Markup::CodeSpan(1..2),
    ];
    assert_eq!(
        classify_events(&events),
        (
            vec![1..2, 5..9, 5..6, 5..7],
            vec![
                ImageRef { target: "first.png".to_string(), range: 2..4 },
                ImageRef { target: "second.png".to_string(), range: 2..3 },
            ]
        )
    );
}
