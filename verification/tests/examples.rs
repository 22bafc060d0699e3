//! The documented examples of the library, prepared.

use docext::error::Error;
use docext::pipeline::{collect_doc, prepare, Prepared};

/// The documentation of an item as its attributes hold it: each line of
/// the comment, with the space behind the slashes.
fn doc(lines: &[&str]) -> String {
    let lines: Vec<String> = lines.iter().map(|line| line.to_string()).collect();
    collect_doc(&lines).unwrap()
}

fn prepared(segments: &[&str], images: &[&str]) -> Result<Prepared, Error> {
    Ok(Prepared {
        segments: segments.iter().map(|segment| segment.to_string()).collect(),
        images: images.iter().map(|image| image.to_string()).collect(),
    })
}

#[test]
fn broken_example() {
    let text = doc(&[
        " Is rejected: a blank line stands in the math, before its end.",
        "",
        " $$1",
        " -",
        " 2\\newline",
        " \\pi",
        "",
        " $$",
    ]);
    assert_eq!(prepare(&text), Err(Error::InvalidMathBlock { range: 65..92 }));
}

#[test]
fn broken_example_2() {
    let text = doc(&[" Renders as \"{ -x\".", "", " $$", " \\{", " - x", " $$"]);
    assert_eq!(
        prepare(&text),
        prepared(
            &[
                " Renders as \"{ -x\".\n\n ",
                "\\$\\$\n \\\\\\{\n \\- x\n \\$\\$",
                "\n",
            ],
            &[]
        )
    );
}

#[test]
fn broken_example_3() {
    let text = doc(&[" Renders as \"-x\".", "", " $$", " {", " - x", " }", " $$"]);
    assert_eq!(
        prepare(&text),
        prepared(
            &[
                " Renders as \"-x\".\n\n ",
                "\\$\\$\n \\{\n \\- x\n \\}\n \\$\\$",
                "\n",
            ],
            &[]
        )
    );
}

#[test]
fn intentionally_invalid_tex() {
    let text = doc(&[" Is not math, because the brace is not closed.", "", " $$", " {", " - x", " $$"]);
    assert_eq!(prepare(&text), prepared(&[text.as_str()], &[]));
}

#[test]
fn backslash_as_newline() {
    let text = doc(&[" Holds a line break.", "", " $$", " a", " \\\\", " b", " $$"]);
    assert_eq!(
        prepare(&text),
        prepared(
            &[
                " Holds a line break.\n\n ",
                "\\$\\$\n a\n \\\\\\\\\n b\n \\$\\$",
                "\n",
            ],
            &[]
        )
    );
}

#[test]
fn link_gone_wrong() {
    let text = doc(&[
        " Hey $\\pi$ there",
        "",
        " Is not rendered as a link:",
        "",
        " $$",
        " [a](b)",
        " $$",
        "",
        " _Inline_:",
        "",
        " Hello $[a](b)$ world.",
        "",
        " Hello $\\int_0^{\\infty}, \\sigma = \\pi$ world.",
    ]);
    assert_eq!(
        prepare(&text),
        prepared(
            &[
                " Hey ",
                "\\$\\\\pi\\$",
                " there\n\n Is not rendered as a link:\n\n ",
                "\\$\\$\n \\[a\\]\\(b\\)\n \\$\\$",
                "\n\n _Inline_:\n\n Hello ",
                "\\$\\[a\\]\\(b\\)\\$",
                " world.\n\n Hello ",
                "\\$\\\\int\\_0\\^\\{\\\\infty\\}\\, \\\\sigma \\= \\\\pi\\$",
                " world.\n",
            ],
            &[]
        )
    );
}

#[test]
fn image() {
    let text = doc(&[" Hey there", "", " ![pepega](img/pepega.png)", "", " Bye there"]);
    assert_eq!(prepare(&text), prepared(&[text.as_str()], &["img/pepega.png"]));
}

#[test]
fn images() {
    let text = doc(&[
        " Hey there",
        "",
        " ![pepega](img/pepega.png)",
        " ![pepega](img/pepega.png)",
        " ![pepega2](img/pepega2.png)",
        "",
        " Bye there",
        "",
        " Some $math$ text.",
    ]);
    assert_eq!(
        prepare(&text),
        prepared(
            &[
                " Hey there\n\n ![pepega](img/pepega.png)\n ![pepega](img/pepega.png)\n ![pepega2](img/pepega2.png)\n\n Bye there\n\n Some ",
                "\\$math\\$",
                " text.\n",
            ],
            &["img/pepega.png", "img/pepega2.png"]
        )
    );
}

#[test]
fn broken_image_in_tex() {
    let text = doc(&[
        " Hey there",
        "",
        " $$",
        " ![pepega](img/pepegas.png)",
        " $$",
        "",
        " $$",
        " ![pepega](img/pepega.png)",
        " $$",
        "",
        " Bye there",
    ]);
    assert_eq!(
        prepare(&text),
        prepared(
            &[
                " Hey there\n\n ",
                "\\$\\$\n \\!\\[pepega\\]\\(img\\/pepegas\\.png\\)\n \\$\\$",
                "\n\n ",
                "\\$\\$\n \\!\\[pepega\\]\\(img\\/pepega\\.png\\)\n \\$\\$",
                "\n\n Bye there\n",
            ],
            &[]
        )
    );
}

#[test]
fn trait_with_items() {
    let text = doc(&[" Hey there", "", " $$", " x = y = z", " $$", "", " Bye there"]);
    assert_eq!(
        prepare(&text),
        prepared(
            &[" Hey there\n\n ", "\\$\\$\n x \\= y \\= z\n \\$\\$", "\n\n Bye there\n"],
            &[]
        )
    );
    assert_eq!(
        prepare(&doc(&[" Some $a$."])),
        prepared(&[" Some ", "\\$a\\$", ".\n"], &[])
    );
}

#[test]
fn broken_italics() {
    let text = doc(&[
        " Hey there $what$ the hell",
        "",
        " What is this $\\mathrm{AB}_{16}$ and also $\\mathrm{CD}_{16}$ and some",
        " $\\mathrm{EF}_{16}$.",
    ]);
    assert_eq!(
        prepare(&text),
        prepared(
            &[
                " Hey there ",
                "\\$what\\$",
                " the hell\n\n What is this ",
                "\\$\\\\mathrm\\{AB\\}\\_\\{16\\}\\$",
                " and also ",
                "\\$\\\\mathrm\\{CD\\}\\_\\{16\\}\\$",
                " and some\n ",
                "\\$\\\\mathrm\\{EF\\}\\_\\{16\\}\\$",
                ".\n",
            ],
            &[]
        )
    );
}

#[test]
fn math_in_code() {
    let text = doc(&[
        " Math in code block:",
        " ```text",
        " $$",
        " This stays as it is.",
        " $$",
        " ```",
        " Math in inline code: `$This, too.$`",
        " Math outside code block: $\\pi$",
    ]);
    assert_eq!(
        prepare(&text),
        prepared(
            &[
                " Math in code block:\n ```text\n ",
                "$$\n This stays as it is.\n $$",
                "\n ```\n Math in inline code: `",
                "$This, too.$",
                "`\n Math outside code block: ",
                "\\$\\\\pi\\$",
                "\n",
            ],
            &[]
        )
    );
}
