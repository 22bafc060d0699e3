//! The display text of the events, and the output assembler.
//!
//! The prepared documentation is the display text of its segments, then a
//! fragment that loads the math typesetter and lets it render what stands
//! between `$ … $` and `$$ … $$`, then, where images are embedded, one
//! marker element for each and a script that puts their data into the
//! image elements of the page.

use crate::escape::{escape_for_display, escaped, lemma_unescaped_escaped, unescaped};
use crate::image::{text_views, EncodedImage, EncodedImageView};
use crate::parser::{event_views, Event, EventView};
use crate::reconcile::{is_rendered, settled};
use std::ops::Range;
use vstd::prelude::*;
use vstd::string::*;

verus! {

/// Loads the math typesetter, pinned to one version by the hashes of its
/// files, and renders the math of the element that holds the fragment.
pub const RENDER_BOOTSTRAP: &'static str = r#"
<link rel="stylesheet" href="https://cdn.jsdelivr.net/npm/katex@0.16.8/dist/katex.min.css" integrity="sha384-GvrOXuhMATgEsSwCs4smul74iXGOixntILdUW9XmUC6+HX0sLNAK3q71HotJqlAn" crossorigin="anonymous">
<script src="https://cdn.jsdelivr.net/npm/katex@0.16.8/dist/katex.min.js" integrity="sha384-cpW21h6RZv/phavutF+AuVYrr+dA8xD9zs6FwLpaCct6O9ctzYFfFr4dgmgccOTx" crossorigin="anonymous"></script>
<script src="https://cdn.jsdelivr.net/npm/katex@0.16.8/dist/contrib/auto-render.min.js" integrity="sha384-+VBxd3r6XgURycqtZ117nYw44OOcIax56Z4dCRWbxyPt0Koah1uHoK0o4+/RRE05" crossorigin="anonymous"></script>
<script>
(function() {
    var parent = document.currentScript.parentElement;
    document.addEventListener("DOMContentLoaded", function() {
        renderMathInElement(parent, {
            delimiters:[
                { left: "$$", right: "$$", display: true },
                { left: "$", right: "$", display: false }
            ]
        })
    });
})()
</script>"#;

/// Puts the data of each marker element into the image elements that
/// refer to its target.
pub const IMAGE_BOOTSTRAP: &'static str = r#"
<script>
(function() {
    var elem = document.currentScript.parentElement;
    document.addEventListener("DOMContentLoaded", function() {
        elem.querySelectorAll(".docext-img").forEach(function(e) {
            elem.querySelectorAll("img[src='" + e.getAttribute("data-src") + "']").forEach(function(i) {
                i.src = e.getAttribute("data-img");
            });
        });
    });
})()
</script>"#;

/// The marker element up to the target of the image.
pub const MARKER_TARGET: &'static str = "\n<span class=\"docext-img\" data-src=\"";

/// The marker element between the target and the MIME type.
pub const MARKER_MIME: &'static str = "\" data-img=\"data:";

/// The marker element between the MIME type and the data.
pub const MARKER_DATA: &'static str = ";base64,";

/// The end of the marker element.
pub const MARKER_END: &'static str = "\"></span>";

/// The display text of an event: literal text as it is, math escaped.
pub open spec fn display_text(event: EventView) -> Seq<char> {
    match event {
        EventView::Text(text) => text,
        EventView::Math(math, _) => escaped(math),
    }
}

/// The display text of each event.
pub open spec fn display_texts(events: Seq<EventView>) -> Seq<Seq<char>> {
    events.map_values(|event: EventView| display_text(event))
}

/// What is not rendered is displayed as it was written: literal text, and
/// math inside of Markdown code, which is not escaped.
pub proof fn lemma_code_is_verbatim(event: EventView, code: Seq<Range<usize>>)
    requires
        !is_rendered(event, code),
    ensures
        display_text(settled(event, code)) == event.payload(),
{
}

/// Rendered math is escaped, and escaped once: its display text is the
/// escaped expression, which a Markdown renderer reads as the expression
/// that was written.
pub proof fn lemma_math_is_escaped_once(event: EventView, code: Seq<Range<usize>>)
    requires
        is_rendered(event, code),
    ensures
        settled(event, code) == event,
        display_text(settled(event, code)) == escaped(event.payload()),
        unescaped(display_text(settled(event, code))) == event.payload(),
{
    lemma_unescaped_escaped(event.payload());
}

/// Writes the display text of each event: literal text as it is, math
/// with its punctuation escaped.  The events themselves keep the math as
/// it was written.
pub fn display_segments(events: &Vec<Event<'_>>) -> (segments: Vec<String>)
    ensures
        text_views(segments@) == display_texts(event_views(events@)),
{
    let mut segments: Vec<String> = Vec::new();
    let mut i: usize = 0;
    while i < events.len()
        invariant
            i <= events@.len(),
            text_views(segments@) == display_texts(event_views(events@)).take(i as int),
        decreases events@.len() - i,
    {
        let ghost before = text_views(segments@);
        let segment = match &events[i] {
            Event::Text(text) => (*text).to_owned(),
            Event::Math(math, _) => escape_for_display(*math),
        };
        segments.push(segment);
        assert(text_views(segments@) =~= before.push(
            display_texts(event_views(events@))[i as int],
        ));
        assert(display_texts(event_views(events@)).take(i + 1) =~= before.push(
            display_texts(event_views(events@))[i as int],
        ));
        i += 1;
    }
    assert(display_texts(event_views(events@)).take(events@.len() as int) =~= display_texts(
        event_views(events@),
    ));
    segments
}

/// The marker element of an embedded image: a line break, then an element
/// that holds the target of the image and its data as a `data:` URL.
pub open spec fn marker(image: EncodedImageView) -> Seq<char> {
    MARKER_TARGET@ + image.target + MARKER_MIME@ + image.mime + MARKER_DATA@ + image.data_base64
        + MARKER_END@
}

/// The marker elements of the images, in their order.
pub open spec fn markers(images: Seq<EncodedImageView>) -> Seq<char> {
    images.map_values(|image: EncodedImageView| marker(image)).flatten()
}

/// What each of the images stands for.
pub open spec fn image_views(images: Seq<EncodedImage>) -> Seq<EncodedImageView> {
    images.map_values(|image: EncodedImage| image@)
}

/// The prepared documentation: the segments, the fragment that renders
/// the math and, only where images are embedded, their marker elements
/// and the fragment that puts them in place.
pub open spec fn assembled(segments: Seq<Seq<char>>, images: Seq<EncodedImageView>) -> Seq<char> {
    segments.flatten() + RENDER_BOOTSTRAP@ + if images.len() > 0 {
        markers(images) + IMAGE_BOOTSTRAP@
    } else {
        seq![]
    }
}

/// Assembles the prepared documentation from the display text of its
/// segments and the images that are embedded.  The segments are taken as
/// they are: nothing is escaped here.
pub fn assemble(segments: &Vec<String>, images: &Vec<EncodedImage>) -> (text: String)
    ensures
        text@ == assembled(text_views(segments@), image_views(images@)),
{
    let ghost texts = text_views(segments@);
    let ghost views = image_views(images@);
    let mut text = String::new();
    let mut i: usize = 0;
    assert(texts.take(0).flatten() =~= Seq::<char>::empty());
    while i < segments.len()
        invariant
            i <= segments@.len(),
            texts == text_views(segments@),
            text@ == texts.take(i as int).flatten(),
        decreases segments@.len() - i,
    {
        proof {
            texts.take(i as int).lemma_flatten_push(texts[i as int]);
            assert(texts.take(i + 1) =~= texts.take(i as int).push(texts[i as int]));
        }
        text.append(segments[i].as_str());
        i += 1;
    }
    assert(texts.take(segments@.len() as int) =~= texts);
    text.append(RENDER_BOOTSTRAP);
    let ghost head = text@;
    let mut j: usize = 0;
    assert(markers(views.take(0)) =~= Seq::<char>::empty());
    while j < images.len()
        invariant
            j <= images@.len(),
            views == image_views(images@),
            text@ == head + markers(views.take(j as int)),
        decreases images@.len() - j,
    {
        proof {
            let done = views.take(j as int).map_values(|image: EncodedImageView| marker(image));
            done.lemma_flatten_push(marker(views[j as int]));
            assert(views.take(j + 1).map_values(|image: EncodedImageView| marker(image))
                =~= done.push(marker(views[j as int])));
        }
        let image = &images[j];
        text.append(MARKER_TARGET);
        text.append(image.target.as_str());
        text.append(MARKER_MIME);
        text.append(image.mime.as_str());
        text.append(MARKER_DATA);
        text.append(image.data_base64.as_str());
        text.append(MARKER_END);
        assert(text@ =~= head + (markers(views.take(j as int)) + marker(views[j as int])));
        j += 1;
    }
    assert(views.take(images@.len() as int) =~= views);
    if images.len() > 0 {
        text.append(IMAGE_BOOTSTRAP);
    }
    text
}

} // verus!
