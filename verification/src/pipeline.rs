//! The whole preparation of a documentation text, up to the point where
//! the image files are read.

use crate::assemble::{display_segments, display_texts, lemma_code_is_verbatim};
use crate::error::Error;
use crate::image::{distinct, image_targets, targets, text_views};
use crate::markdown::{
    classify, code_ranges, image_ref_views, image_refs, markdown_events, renderer_extensions,
    ImageRef,
};
use crate::parser::{lemma_events_cover, math_events, parse_math, payloads};
use crate::reconcile::{
    eligible_images, is_first_invalid, is_invalid, is_rendered, math_range, math_ranges,
    reconcile, settle_all,
};
use crate::text::push_char;
use std::ops::Range;
use vstd::prelude::*;
use vstd::string::*;

verus! {

/// The documentation that the lines make up: each line with a line feed
/// behind it.
pub open spec fn doc_text(lines: Seq<Seq<char>>) -> Seq<char> {
    lines.map_values(|line: Seq<char>| line.push('\n')).flatten()
}

/// Joins the lines of documentation of an item into one text, each line
/// with a line feed behind it.
///
/// Fails with `MissingDocumentation` where the item has no line of
/// documentation at all.
pub fn collect_doc(lines: &Vec<String>) -> (result: Result<String, Error>)
    ensures
        match result {
            Ok(doc) => lines@.len() > 0 && doc@ == doc_text(text_views(lines@)),
            Err(error) => lines@.len() == 0 && error == Error::MissingDocumentation,
        },
{
    if lines.len() == 0 {
        return Err(Error::MissingDocumentation);
    }
    let ghost texts = text_views(lines@);
    let mut doc = String::new();
    let mut i: usize = 0;
    assert(doc_text(texts.take(0)) =~= Seq::<char>::empty());
    while i < lines.len()
        invariant
            i <= lines@.len(),
            texts == text_views(lines@),
            doc@ == doc_text(texts.take(i as int)),
        decreases lines@.len() - i,
    {
        proof {
            let done = texts.take(i as int).map_values(|line: Seq<char>| line.push('\n'));
            done.lemma_flatten_push(texts[i as int].push('\n'));
            assert(texts.take(i + 1).map_values(|line: Seq<char>| line.push('\n')) =~= done.push(
                texts[i as int].push('\n'),
            ));
        }
        doc.append(lines[i].as_str());
        push_char(&mut doc, '\n');
        i += 1;
    }
    assert(texts.take(lines@.len() as int) =~= texts);
    Ok(doc)
}

/// A documentation text whose math is settled: the display text of its
/// segments, and the targets of the local images that are to be embedded.
#[derive(Debug, PartialEq, Eq)]
pub struct Prepared {
    /// The display text of the segments, in the order of the text.
    pub segments: Vec<String>,
    /// The targets of the images to embed, each once, in the order in
    /// which they first occur.
    pub images: Vec<String>,
}

/// The display text of the segments of a documentation, given the code
/// ranges of its Markdown structure.
pub open spec fn prepared_segments(doc: Seq<char>, code: Seq<Range<usize>>) -> Seq<Seq<char>> {
    display_texts(settle_all(math_events(doc), code))
}

/// The targets of the images of a documentation that are embedded, given
/// the code ranges and the image references of its Markdown structure.
pub open spec fn prepared_images(
    doc: Seq<char>,
    code: Seq<Range<usize>>,
    images: Seq<crate::markdown::ImageRefView>,
) -> Seq<Seq<char>> {
    distinct(targets(eligible_images(images, math_ranges(settle_all(math_events(doc), code)))))
}

/// A documentation without rendered math is displayed as it was written:
/// where every math expression lies inside of code, the segments join to
/// the documentation itself.
pub proof fn lemma_verbatim_without_math(doc: Seq<char>, code: Seq<Range<usize>>)
    requires
        doc.len() <= usize::MAX,
        forall|k: int|
            0 <= k < math_events(doc).len() ==> !is_rendered(#[trigger] math_events(doc)[k], code),
    ensures
        prepared_segments(doc, code).flatten() == doc,
{
    let events = math_events(doc);
    assert forall|k: int| 0 <= k < events.len() implies prepared_segments(doc, code)[k]
        == payloads(events)[k] by {
        lemma_code_is_verbatim(events[k], code);
    }
    assert(prepared_segments(doc, code) =~= payloads(events));
    lemma_events_cover(doc);
}

/// Prepares a documentation text whose Markdown structure is known: scans
/// it for math, settles the math against the code ranges, writes the
/// display text, and lists the images to embed.
///
/// Fails with `InvalidMathBlock` on the first math expression outside of
/// code that holds a blank line.
pub fn prepare_classified(doc: &str, code: &Vec<Range<usize>>, images: &Vec<ImageRef>) -> (result:
    Result<Prepared, Error>)
    ensures
        match result {
            Ok(prepared) => {
                &&& forall|k: int|
                    0 <= k < math_events(doc@).len() ==> !is_invalid(
                        #[trigger] math_events(doc@)[k],
                        code@,
                    )
                &&& text_views(prepared.segments@) == prepared_segments(doc@, code@)
                &&& text_views(prepared.images@) == prepared_images(
                    doc@,
                    code@,
                    image_ref_views(images@),
                )
                &&& text_views(prepared.images@).no_duplicates()
            },
            Err(error) => exists|at: int|
                {
                    &&& #[trigger] is_first_invalid(math_events(doc@), code@, at)
                    &&& error matches Error::InvalidMathBlock { range }
                    &&& math_range(math_events(doc@)[at]) == Some(range)
                },
        },
{
    let events = parse_math(doc);
    match reconcile(&events, code, images) {
        Err(error) => Err(error),
        Ok((settled, selected)) => {
            let segments = display_segments(&settled);
            let images = image_targets(&selected);
            Ok(Prepared { segments, images })
        },
    }
}

/// Prepares a documentation text: finds its Markdown code and images,
/// scans it for math, settles the math against the code, writes the
/// display text, and lists the images to embed.
///
/// Fails with `InvalidMathBlock` on the first math expression outside of
/// code that holds a blank line.
pub fn prepare(doc: &str) -> (result: Result<Prepared, Error>)
    ensures
        match result {
            Ok(prepared) => {
                let structure = markdown_events(doc@, renderer_extensions());
                &&& forall|k: int|
                    0 <= k < math_events(doc@).len() ==> !is_invalid(
                        #[trigger] math_events(doc@)[k],
                        code_ranges(structure),
                    )
                &&& text_views(prepared.segments@) == prepared_segments(
                    doc@,
                    code_ranges(structure),
                )
                &&& text_views(prepared.images@) == prepared_images(
                    doc@,
                    code_ranges(structure),
                    image_refs(structure),
                )
                &&& text_views(prepared.images@).no_duplicates()
            },
            Err(error) => exists|at: int|
                {
                    &&& #[trigger] is_first_invalid(
                        math_events(doc@),
                        code_ranges(markdown_events(doc@, renderer_extensions())),
                        at,
                    )
                    &&& error matches Error::InvalidMathBlock { range }
                    &&& math_range(math_events(doc@)[at]) == Some(range)
                },
        },
{
    let (code, images) = classify(doc);
    prepare_classified(doc, &code, &images)
}

} // verus!
