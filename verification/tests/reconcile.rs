//! Math against code, and images against math.

use docext::error::Error;
use docext::markdown::ImageRef;
use docext::parser::{parse_math, Event};
use docext::reconcile::{
    image_is_eligible, is_within_any, reconcile, select_images, settle_events,
};

fn image(target: &str, start: usize, end: usize) -> ImageRef {
    ImageRef { target: target.to_string(), range: start..end }
}

/// A range lies within ranges if one of them holds both of its ends.
#[test]
fn within_any_range() {
    let ranges = vec![2..5, 10..20];
    assert!(is_within_any(&ranges, &(2..5)));
    assert!(is_within_any(&ranges, &(3..4)));
    assert!(is_within_any(&ranges, &(10..11)));
    assert!(is_within_any(&ranges, &(4..4)));
    assert!(!is_within_any(&ranges, &(1..5)));
    assert!(!is_within_any(&ranges, &(2..6)));
    assert!(!is_within_any(&ranges, &(4..11)));
    assert!(!is_within_any(&ranges, &(6..9)));
    assert!(!is_within_any(&vec![], &(0..0)));
}

/// Math inside of code becomes text as it was written; other math stays
/// math.
#[test]
fn math_in_code_is_text() {
    let text = "`$a$` and $b$";
    let events = parse_math(text);
    assert_eq!(
        settle_events(&events, &vec![0..5]),
        Ok((
            vec![
                Event::Text("`"),
                Event::Text("$a$"),
                Event::Text("` and "),
                Event::Math("$b$", 10..13),
            ],
            vec![10..13],
        ))
    );
}

/// Math that only overlaps code, or holds it, is not inside of it.
#[test]
fn math_across_code_is_math() {
    let events = parse_math("ab $c d$ e");
    assert_eq!(
        settle_events(&events, &vec![0..5, 6..20, 4..7]),
        Ok((
            vec![Event::Text("ab "), Event::Math("$c d$", 3..8), Event::Text(" e")],
            vec![3..8],
        ))
    );
}

/// Math outside of code with a blank line is rejected, with the range of
/// the first such expression.
#[test]
fn blank_line_in_math_is_rejected() {
    let events = parse_math("a $b$ $$c\n\nd$$ $e\n \nf$");
    assert_eq!(
        settle_events(&events, &vec![]),
        Err(Error::InvalidMathBlock { range: 6..14 })
    );
    assert_eq!(
        reconcile(&events, &vec![], &vec![]),
        Err(Error::InvalidMathBlock { range: 6..14 })
    );
    // Inside of code the first is no math; the second is rejected.
    assert_eq!(
        reconcile(&events, &vec![5..15], &vec![]),
        Err(Error::InvalidMathBlock { range: 15..22 })
    );
}

/// Math inside of code may hold a blank line.
#[test]
fn blank_line_in_code_is_accepted() {
    let events = parse_math("```\n$$a\n\nb$$\n```");
    assert_eq!(
        settle_events(&events, &vec![0..16]),
        Ok((
            vec![Event::Text("```\n"), Event::Text("$$a\n\nb$$"), Event::Text("\n```")],
            vec![],
        ))
    );
}

/// A blank line in literal text is no failure.
#[test]
fn blank_line_in_text_is_accepted() {
    let events = parse_math("a\n\nb $c$\n\nd");
    assert_eq!(
        settle_events(&events, &vec![]),
        Ok((
            vec![Event::Text("a\n\nb "), Event::Math("$c$", 5..8), Event::Text("\n\nd")],
            vec![5..8],
        ))
    );
}

/// An image is embedded if it is local and not inside of rendered math.
#[test]
fn image_eligibility() {
    let math = vec![10..20];
    assert!(image_is_eligible(false, &(0..5), &math));
    assert!(image_is_eligible(false, &(9..15), &math));
    assert!(!image_is_eligible(false, &(10..20), &math));
    assert!(!image_is_eligible(false, &(12..15), &math));
    assert!(!image_is_eligible(true, &(0..5), &math));
    assert!(!image_is_eligible(true, &(12..15), &math));
}

/// Remote images are not selected, whatever their scheme; what does not
/// parse as an absolute URL is local.
#[test]
fn remote_images_are_not_selected() {
    let images = vec![
        image("img/a.png", 0, 1),
        image("https://example.org/a.png", 1, 2),
        image("http://example.org/a.png", 2, 3),
        image("/abs/b.png", 3, 4),
        image("file:///c.png", 4, 5),
        image("data:image/png;base64,AAAA", 5, 6),
        image("../d.png", 6, 7),
        image("e.png", 7, 8),
        image("", 8, 9),
    ];
    assert_eq!(
        select_images(&images, &vec![]),
        vec![
            image("img/a.png", 0, 1),
            image("/abs/b.png", 3, 4),
            image("../d.png", 6, 7),
            image("e.png", 7, 8),
            image("", 8, 9),
        ]
    );
}

/// Images inside of rendered math are not selected; repeated references
/// are all kept.
#[test]
fn images_in_math_are_not_selected() {
    let images = vec![
        image("a.png", 0, 10),
        image("b.png", 12, 18),
        image("a.png", 30, 40),
        image("c.png", 19, 21),
    ];
    assert_eq!(
        select_images(&images, &vec![11..20]),
        vec![image("a.png", 0, 10), image("a.png", 30, 40), image("c.png", 19, 21)]
    );
}

/// Images inside of math that is code are embedded: such math is not
/// rendered.
#[test]
fn images_in_code_math_are_selected() {
    let text = "$![a](a.png)$ `$![b](b.png)$`";
    let events = parse_math(text);
    let images = vec![image("a.png", 1, 12), image("b.png", 16, 27)];
    assert_eq!(
        reconcile(&events, &vec![14..29], &images),
        Ok((
            vec![
                Event::Math("$![a](a.png)$", 0..13),
                Event::Text(" `"),
                Event::Text("$![b](b.png)$"),
                Event::Text("`"),
            ],
            vec![image("b.png", 16, 27)],
        ))
    );
}
