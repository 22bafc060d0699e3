//! The segment reconciler: what the scanner found, held against what the
//! Markdown structure says.
//!
//! Math inside of Markdown code is not math: it passes through as the text
//! that it is.  Math outside of code is rendered, and must not hold a blank
//! line.  An image reference inside of rendered math is math that the
//! Markdown parser misread, and a reference to a remote image needs no
//! file: neither is embedded.

use crate::error::Error;
use crate::lines::{contains_blank_line, has_blank_line};
use crate::markdown::{image_ref_views, ImageRef, ImageRefView};
use crate::parser::{event_views, Event, EventView};
use std::ops::Range;
use vstd::prelude::*;
use vstd::string::*;

verus! {

/// Whether `inner` lies in `outer` with both of its ends.
pub open spec fn contains(outer: Range<usize>, inner: Range<usize>) -> bool {
    outer.start <= inner.start && inner.end <= outer.end
}

/// Whether `inner` lies in one of the ranges with both of its ends.
pub open spec fn within_any(ranges: Seq<Range<usize>>, inner: Range<usize>) -> bool {
    exists|i: int| 0 <= i < ranges.len() && contains(#[trigger] ranges[i], inner)
}

/// Tells whether `inner` lies in one of the ranges with both of its ends.
pub fn is_within_any(ranges: &Vec<Range<usize>>, inner: &Range<usize>) -> (within: bool)
    ensures
        within == within_any(ranges@, *inner),
{
    let mut i: usize = 0;
    while i < ranges.len()
        invariant
            i <= ranges@.len(),
            forall|k: int| 0 <= k < i ==> !contains(#[trigger] ranges@[k], *inner),
        decreases ranges@.len() - i,
    {
        if ranges[i].start <= inner.start && inner.end <= ranges[i].end {
            return true;
        }
        i += 1;
    }
    false
}

/// Whether the event is math that is rendered: math outside of all code.
pub open spec fn is_rendered(event: EventView, code: Seq<Range<usize>>) -> bool {
    event matches EventView::Math(_, range) && !within_any(code, range)
}

/// Whether the event is rendered math that holds a blank line.
pub open spec fn is_invalid(event: EventView, code: Seq<Range<usize>>) -> bool {
    is_rendered(event, code) && has_blank_line(event.payload())
}

/// The event as it leaves the reconciler: math inside of code becomes the
/// literal text that it is, and every other event stays as it is.
pub open spec fn settled(event: EventView, code: Seq<Range<usize>>) -> EventView {
    match event {
        EventView::Math(math, range) => if within_any(code, range) {
            EventView::Text(math)
        } else {
            event
        },
        EventView::Text(_) => event,
    }
}

/// The events as they leave the reconciler.
pub open spec fn settle_all(events: Seq<EventView>, code: Seq<Range<usize>>) -> Seq<EventView> {
    events.map_values(|event: EventView| settled(event, code))
}

/// The range of a math event.
pub open spec fn math_range(event: EventView) -> Option<Range<usize>> {
    match event {
        EventView::Math(_, range) => Some(range),
        EventView::Text(_) => None,
    }
}

/// The ranges of the math events, in their order.
pub open spec fn math_ranges(events: Seq<EventView>) -> Seq<Range<usize>> {
    events.filter_map(|event: EventView| math_range(event))
}

/// Whether `target` parses as an absolute URL, and so names a remote image.
pub uninterp spec fn is_absolute_url(target: Seq<char>) -> bool;

/// Asks `url::Url::parse` whether the target parses as an absolute URL.
/// The contract claims that the answer depends on the target alone.
#[verifier::external_body]
fn parses_as_url(target: &str) -> (absolute: bool)
    ensures
        absolute == is_absolute_url(target@),
{
    url::Url::parse(target).is_ok()
}

/// Whether the image is embedded: its target is no absolute URL, and the
/// reference does not lie in rendered math.
pub open spec fn is_eligible(absolute: bool, range: Range<usize>, math: Seq<Range<usize>>) -> bool {
    !absolute && !within_any(math, range)
}

/// The image references that are embedded, in their order.
pub open spec fn eligible_images(images: Seq<ImageRefView>, math: Seq<Range<usize>>) -> Seq<
    ImageRefView,
> {
    images.filter(
        |image: ImageRefView| is_eligible(is_absolute_url(image.target), image.range, math),
    )
}

/// Which images are embedded: a reference to a remote image never is; a
/// reference that lies in rendered math never is; every other reference
/// is.
pub proof fn lemma_eligible_images(images: Seq<ImageRefView>, math: Seq<Range<usize>>)
    ensures
        forall|image: ImageRefView|
            eligible_images(images, math).contains(image) <==> {
                &&& images.contains(image)
                &&& !is_absolute_url(image.target)
                &&& !within_any(math, image.range)
            },
{
    let pred = |image: ImageRefView| is_eligible(is_absolute_url(image.target), image.range, math);
    let kept = images.filter(pred);
    assert forall|image: ImageRefView| kept.contains(image) <==> {
        &&& images.contains(image)
        &&& !is_absolute_url(image.target)
        &&& !within_any(math, image.range)
    } by {
        if kept.contains(image) {
            let i = choose|i: int| 0 <= i < kept.len() && kept[i] == image;
            images.lemma_filter_pred(pred, i);
            images.lemma_filter_contains_rev(pred, image);
        }
        if images.contains(image) && pred(image) {
            let i = choose|i: int| 0 <= i < images.len() && images[i] == image;
            images.lemma_filter_contains(pred, i);
        }
    }
}

/// Decides whether an image is embedded, from whether its target is an
/// absolute URL, the range of the reference, and the ranges of the
/// rendered math.
pub fn image_is_eligible(absolute: bool, range: &Range<usize>, math: &Vec<Range<usize>>) -> (eligible:
    bool)
    ensures
        eligible == is_eligible(absolute, *range, math@),
{
    !absolute && !is_within_any(math, range)
}

/// Whether `at` is the first of the events that is rendered math with a
/// blank line.
pub open spec fn is_first_invalid(events: Seq<EventView>, code: Seq<Range<usize>>, at: int) -> bool {
    &&& 0 <= at < events.len()
    &&& is_invalid(events[at], code)
    &&& forall|k: int| 0 <= k < at ==> !is_invalid(#[trigger] events[k], code)
}

/// Settles the events against the code ranges.
///
/// Fails on the first math expression outside of code that holds a blank
/// line.  Otherwise hands out the events, math inside of code turned into
/// literal text, and the ranges of the math that is left, which is the
/// math that is rendered.
pub fn settle_events<'a>(events: &Vec<Event<'a>>, code: &Vec<Range<usize>>) -> (result: Result<
    (Vec<Event<'a>>, Vec<Range<usize>>),
    Error,
>)
    ensures
        match result {
            Ok((settled, math)) => {
                &&& forall|k: int|
                    0 <= k < events@.len() ==> !is_invalid(
                        #[trigger] event_views(events@)[k],
                        code@,
                    )
                &&& event_views(settled@) == settle_all(event_views(events@), code@)
                &&& math@ == math_ranges(settle_all(event_views(events@), code@))
            },
            Err(error) => exists|at: int|
                {
                    &&& #[trigger] is_first_invalid(event_views(events@), code@, at)
                    &&& error matches Error::InvalidMathBlock { range }
                    &&& math_range(event_views(events@)[at]) == Some(range)
                },
        },
{
    let ghost views = event_views(events@);
    let ghost goal = settle_all(views, code@);
    let mut settled: Vec<Event<'a>> = Vec::new();
    let mut math: Vec<Range<usize>> = Vec::new();
    let mut i: usize = 0;
    while i < events.len()
        invariant
            i <= events@.len(),
            views == event_views(events@),
            goal == settle_all(views, code@),
            forall|k: int| 0 <= k < i ==> !is_invalid(#[trigger] views[k], code@),
            event_views(settled@) == goal.take(i as int),
            math@ == math_ranges(goal.take(i as int)),
        decreases events@.len() - i,
    {
        proof {
            goal.lemma_filter_map_take_succ(|event: EventView| math_range(event), i as int);
        }
        let ghost before = event_views(settled@);
        match &events[i] {
            Event::Text(text) => {
                settled.push(Event::Text(*text));
            },
            Event::Math(payload, range) => {
                if is_within_any(code, range) {
                    settled.push(Event::Text(*payload));
                } else {
                    if contains_blank_line(*payload) {
                        assert(is_first_invalid(views, code@, i as int));
                        return Err(Error::InvalidMathBlock { range: range.start..range.end });
                    }
                    math.push(range.start..range.end);
                    settled.push(Event::Math(*payload, range.start..range.end));
                }
            },
        }
        assert(event_views(settled@) =~= before.push(goal[i as int]));
        assert(goal.take(i + 1) =~= goal.take(i as int).push(goal[i as int]));
        i += 1;
    }
    assert(goal.take(events@.len() as int) =~= goal);
    Ok((settled, math))
}

/// Picks the image references that are embedded: those whose target is no
/// absolute URL and that do not lie in rendered math.
pub fn select_images(images: &Vec<ImageRef>, math: &Vec<Range<usize>>) -> (selected: Vec<ImageRef>)
    ensures
        image_ref_views(selected@) == eligible_images(image_ref_views(images@), math@),
{
    let ghost views = image_ref_views(images@);
    let ghost pred = |image: ImageRefView|
        is_eligible(is_absolute_url(image.target), image.range, math@);
    let mut selected: Vec<ImageRef> = Vec::new();
    let mut i: usize = 0;
    proof {
        reveal(Seq::filter);
        assert(views.take(0).filter(pred) =~= Seq::<ImageRefView>::empty());
    }
    while i < images.len()
        invariant
            i <= images@.len(),
            views == image_ref_views(images@),
            pred == |image: ImageRefView|
                is_eligible(is_absolute_url(image.target), image.range, math@),
            image_ref_views(selected@) == views.take(i as int).filter(pred),
        decreases images@.len() - i,
    {
        let image = &images[i];
        proof {
            views.take(i as int).lemma_filter_push(views[i as int], pred);
            assert(views.take(i + 1) =~= views.take(i as int).push(views[i as int]));
        }
        let ghost before = image_ref_views(selected@);
        let absolute = parses_as_url(image.target.as_str());
        if image_is_eligible(absolute, &image.range, math) {
            selected.push(
                ImageRef { target: image.target.clone(), range: image.range.start..image.range.end },
            );
            assert(image_ref_views(selected@) =~= before.push(views[i as int]));
        }
        i += 1;
    }
    assert(views.take(images@.len() as int) =~= views);
    selected
}

/// Reconciles the events of the scanner with the Markdown structure.
///
/// Fails with `InvalidMathBlock` on the first math expression outside of
/// code that holds a blank line.  Otherwise hands out the events, math
/// inside of code turned into literal text, and the image references that
/// are embedded.
pub fn reconcile<'a>(
    events: &Vec<Event<'a>>,
    code: &Vec<Range<usize>>,
    images: &Vec<ImageRef>,
) -> (result: Result<(Vec<Event<'a>>, Vec<ImageRef>), Error>)
    ensures
        match result {
            Ok((settled, selected)) => {
                &&& forall|k: int|
                    0 <= k < events@.len() ==> !is_invalid(
                        #[trigger] event_views(events@)[k],
                        code@,
                    )
                &&& event_views(settled@) == settle_all(event_views(events@), code@)
                &&& image_ref_views(selected@) == eligible_images(
                    image_ref_views(images@),
                    math_ranges(settle_all(event_views(events@), code@)),
                )
            },
            Err(error) => exists|at: int|
                {
                    &&& #[trigger] is_first_invalid(event_views(events@), code@, at)
                    &&& error matches Error::InvalidMathBlock { range }
                    &&& math_range(event_views(events@)[at]) == Some(range)
                },
        },
{
    match settle_events(events, code) {
        Ok((settled, math)) => {
            let selected = select_images(images, &math);
            Ok((settled, selected))
        },
        Err(error) => Err(error),
    }
}

} // verus!
