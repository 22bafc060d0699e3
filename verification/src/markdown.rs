//! The structural classifier: where a text holds Markdown code and where it
//! refers to images.
//!
//! The Markdown grammar is not this library's: an outside parser reads the
//! text, with the extensions that the renderer of the documentation uses,
//! and reports its events with the bytes of the text that each covers.

use crate::order::{
    ascending, lemma_ordered, lemma_ordered_of_ascending, lemma_rank_is, ordered, placed,
};
use pulldown_cmark::{Event, Options, Parser, Tag};
use std::ops::Range;
use vstd::prelude::*;

verus! {

/// The extensions to CommonMark that the parser is to accept.
#[derive(Clone, Copy, Debug, PartialEq, Eq, Structural)]
pub struct Extensions {
    pub tables: bool,
    pub footnotes: bool,
    pub strikethrough: bool,
    pub tasklists: bool,
    pub smart_punctuation: bool,
}

/// The extensions that the renderer of the documentation accepts.  Code
/// and images must be found under the same extensions, or they are found in
/// other places than the renderer will show them in.
pub open spec fn renderer_extensions() -> Extensions {
    Extensions {
        tables: true,
        footnotes: true,
        strikethrough: true,
        tasklists: true,
        smart_punctuation: true,
    }
}

/// What the parser reports of one event of the Markdown structure, as far
/// as this library reads it.
#[derive(Debug, PartialEq, Eq)]
pub enum Markup {
    /// A code span, over the given bytes.
    CodeSpan(Range<usize>),
    /// The start of a fenced or indented code block, which covers the
    /// given bytes.
    CodeBlock(Range<usize>),
    /// The start of an image, with its target, which covers the given
    /// bytes.
    Image(String, Range<usize>),
    /// Any other event.
    Other,
}

/// What a [`Markup`] stands for.
pub enum MarkupView {
    CodeSpan(Range<usize>),
    CodeBlock(Range<usize>),
    Image(Seq<char>, Range<usize>),
    Other,
}

impl View for Markup {
    type V = MarkupView;

    open spec fn view(&self) -> MarkupView {
        match self {
            Markup::CodeSpan(range) => MarkupView::CodeSpan(*range),
            Markup::CodeBlock(range) => MarkupView::CodeBlock(*range),
            Markup::Image(target, range) => MarkupView::Image(target@, *range),
            Markup::Other => MarkupView::Other,
        }
    }
}

/// What each of the events stands for.
pub open spec fn markup_views(events: Seq<Markup>) -> Seq<MarkupView> {
    events.map_values(|event: Markup| event@)
}

/// A reference to an image: its target, and the bytes of the text that the
/// whole reference covers.
#[derive(Debug, PartialEq, Eq)]
pub struct ImageRef {
    pub target: String,
    pub range: Range<usize>,
}

/// What an [`ImageRef`] stands for.
pub struct ImageRefView {
    pub target: Seq<char>,
    pub range: Range<usize>,
}

impl View for ImageRef {
    type V = ImageRefView;

    open spec fn view(&self) -> ImageRefView {
        ImageRefView { target: self.target@, range: self.range }
    }
}

/// What each of the image references stands for.
pub open spec fn image_ref_views(images: Seq<ImageRef>) -> Seq<ImageRefView> {
    images.map_values(|image: ImageRef| image@)
}

/// The events that the Markdown parser reports of a text under the given
/// extensions, in the order in which it reports them.
pub uninterp spec fn markdown_events(text: Seq<char>, extensions: Extensions) -> Seq<MarkupView>;

/// Runs the Markdown parser of `pulldown_cmark` on the text, with the
/// given extensions switched on and all others off, and hands out its
/// events with their byte ranges: `Parser::new_ext`, then
/// `into_offset_iter`.  The contract claims that the events depend on the
/// text and the extensions alone, and nothing of what they are.
#[verifier::external_body]
fn parse_markdown(text: &str, extensions: Extensions) -> (events: Vec<Markup>)
    ensures
        markup_views(events@) == markdown_events(text@, extensions),
{
    let mut options = Options::empty();
    options.set(Options::ENABLE_TABLES, extensions.tables);
    options.set(Options::ENABLE_FOOTNOTES, extensions.footnotes);
    options.set(Options::ENABLE_STRIKETHROUGH, extensions.strikethrough);
    options.set(Options::ENABLE_TASKLISTS, extensions.tasklists);
    options.set(Options::ENABLE_SMART_PUNCTUATION, extensions.smart_punctuation);
    Parser::new_ext(text, options).into_offset_iter().map(|(event, range)| match event {
        Event::Code(_) => Markup::CodeSpan(range),
        Event::Start(Tag::CodeBlock(_)) => Markup::CodeBlock(range),
        Event::Start(Tag::Image { dest_url, .. }) => Markup::Image(dest_url.into_string(), range),
        _ => Markup::Other,
    }).collect()
}

/// The code range of an event: the range of a code span or of a code
/// block.
pub open spec fn code_range(event: MarkupView) -> Option<Range<usize>> {
    match event {
        MarkupView::CodeSpan(range) => Some(range),
        MarkupView::CodeBlock(range) => Some(range),
        _ => None,
    }
}

/// The image reference of an event: that of the start of an image.
pub open spec fn image_ref(event: MarkupView) -> Option<ImageRefView> {
    match event {
        MarkupView::Image(target, range) => Some(ImageRefView { target, range }),
        _ => None,
    }
}

/// The key by which code ranges are put in order: where they start.
pub open spec fn range_start() -> spec_fn(Range<usize>) -> int {
    |range: Range<usize>| range.start as int
}

/// The key by which image references are put in order: where they start.
pub open spec fn image_start() -> spec_fn(ImageRefView) -> int {
    |image: ImageRefView| image.range.start as int
}

/// The code ranges among the events, in the order of their starts.
pub open spec fn code_ranges(events: Seq<MarkupView>) -> Seq<Range<usize>> {
    ordered(events.filter_map(|event: MarkupView| code_range(event)), range_start())
}

/// The image references among the events, in the order of their starts.
pub open spec fn image_refs(events: Seq<MarkupView>) -> Seq<ImageRefView> {
    ordered(events.filter_map(|event: MarkupView| image_ref(event)), image_start())
}

/// The code ranges and the image references of a Markdown structure are
/// sorted by their starts, and they are those that the events hold: each
/// as often as it is reported.  Where the parser reports them in the order
/// of their starts, they stand in the order of the events.
pub proof fn lemma_classified_in_order(events: Seq<MarkupView>)
    ensures
        ascending(code_ranges(events), range_start()),
        ascending(image_refs(events), image_start()),
        code_ranges(events).to_multiset() == events.filter_map(
            |event: MarkupView| code_range(event),
        ).to_multiset(),
        image_refs(events).to_multiset() == events.filter_map(
            |event: MarkupView| image_ref(event),
        ).to_multiset(),
        ascending(events.filter_map(|event: MarkupView| code_range(event)), range_start())
            ==> code_ranges(events) == events.filter_map(|event: MarkupView| code_range(event)),
        ascending(events.filter_map(|event: MarkupView| image_ref(event)), image_start())
            ==> image_refs(events) == events.filter_map(|event: MarkupView| image_ref(event)),
{
    let code = events.filter_map(|event: MarkupView| code_range(event));
    let images = events.filter_map(|event: MarkupView| image_ref(event));
    lemma_ordered(code, range_start());
    lemma_ordered(images, image_start());
    if ascending(code, range_start()) {
        lemma_ordered_of_ascending(code, range_start());
    }
    if ascending(images, image_start()) {
        lemma_ordered_of_ascending(images, image_start());
    }
}

/// Puts a code range in its place among code ranges in order.
fn place_range(ranges: &mut Vec<Range<usize>>, range: Range<usize>)
    ensures
        final(ranges)@ == placed(old(ranges)@, range, range_start()),
{
    let mut at: usize = ranges.len();
    while at > 0 && ranges[at - 1].start > range.start
        invariant
            at <= ranges@.len(),
            forall|k: int| at <= k < ranges@.len() ==> ranges@[k].start > range.start,
        decreases at,
    {
        at -= 1;
    }
    proof {
        lemma_rank_is(ranges@, range, range_start(), at as int);
    }
    ranges.insert(at, range);
}

/// Puts an image reference in its place among image references in order.
fn place_image(images: &mut Vec<ImageRef>, image: ImageRef)
    ensures
        image_ref_views(final(images)@) == placed(image_ref_views(old(images)@), image@, image_start()),
{
    let ghost before = image_ref_views(images@);
    let mut at: usize = images.len();
    while at > 0 && images[at - 1].range.start > image.range.start
        invariant
            at <= images@.len(),
            before == image_ref_views(images@),
            forall|k: int| at <= k < before.len() ==> before[k].range.start > image.range.start,
        decreases at,
    {
        assert(before[at - 1] == images@[at - 1]@);
        at -= 1;
    }
    proof {
        if at > 0 {
            assert(before[at - 1] == images@[at - 1]@);
        }
        lemma_rank_is(before, image@, image_start(), at as int);
    }
    let ghost view = image@;
    images.insert(at, image);
    assert(image_ref_views(images@) =~= before.insert(at as int, view));
}

/// Sorts the events of a Markdown structure into the code ranges and the
/// image references among them, each in the order of their starts; those
/// that start at the same place keep the order of the events.
pub fn classify_events(events: &Vec<Markup>) -> (found: (Vec<Range<usize>>, Vec<ImageRef>))
    ensures
        found.0@ == code_ranges(markup_views(events@)),
        image_ref_views(found.1@) == image_refs(markup_views(events@)),
{
    let ghost views = markup_views(events@);
    let ghost code_of = |event: MarkupView| code_range(event);
    let ghost image_of = |event: MarkupView| image_ref(event);
    let mut code: Vec<Range<usize>> = Vec::new();
    let mut images: Vec<ImageRef> = Vec::new();
    let mut i: usize = 0;
    while i < events.len()
        invariant
            i <= events@.len(),
            views == markup_views(events@),
            code_of == |event: MarkupView| code_range(event),
            image_of == |event: MarkupView| image_ref(event),
            code@ == ordered(views.take(i as int).filter_map(code_of), range_start()),
            image_ref_views(images@) == ordered(
                views.take(i as int).filter_map(image_of),
                image_start(),
            ),
        decreases events@.len() - i,
    {
        proof {
            views.lemma_filter_map_take_succ(code_of, i as int);
            views.lemma_filter_map_take_succ(image_of, i as int);
        }
        let ghost code_before = views.take(i as int).filter_map(code_of);
        let ghost images_before = views.take(i as int).filter_map(image_of);
        match &events[i] {
            Markup::CodeSpan(range) => {
                assert((code_before + seq![*range]).drop_last() =~= code_before);
                place_range(&mut code, range.start..range.end);
            },
            Markup::CodeBlock(range) => {
                assert((code_before + seq![*range]).drop_last() =~= code_before);
                place_range(&mut code, range.start..range.end);
            },
            Markup::Image(target, range) => {
                let ghost view = ImageRefView { target: target@, range: *range };
                assert((images_before + seq![view]).drop_last() =~= images_before);
                place_image(
                    &mut images,
                    ImageRef { target: target.clone(), range: range.start..range.end },
                );
            },
            Markup::Other => {},
        }
        i += 1;
    }
    assert(views.take(events@.len() as int) =~= views);
    (code, images)
}

/// Finds the Markdown code and the image references of a text: the ranges
/// of its code spans and code blocks, and its image references, each in
/// the order of their starts.
pub fn classify(text: &str) -> (found: (Vec<Range<usize>>, Vec<ImageRef>))
    ensures
        found.0@ == code_ranges(markdown_events(text@, renderer_extensions())),
        image_ref_views(found.1@) == image_refs(markdown_events(text@, renderer_extensions())),
{
    let extensions = Extensions {
        tables: true,
        footnotes: true,
        strikethrough: true,
        tasklists: true,
        smart_punctuation: true,
    };
    let events = parse_markdown(text, extensions);
    classify_events(&events)
}

} // verus!
