//! The delimiter scanner: splits a text into literal and math segments.
//!
//! The grammar of the scanner is written once, over the marks that it sees
//! in a text: `$`, `{`, `}`, `\`, or anything else.  What the library
//! promises is said of the characters of a text.  What runs walks the
//! UTF-8 bytes of the text; that both come to the same is proved in
//! [`crate::characters`].

use crate::characters::{
    event_of_bytes, events_of_bytes, lemma_events_of_bytes, lemma_well_placed_on_boundaries,
};
use crate::text::{offset, substring};
use std::ops::Range;
use vstd::prelude::*;
use vstd::string::*;
use vstd::utf8::*;

verus! {

/// The byte of `$`, which delimits math.
pub const DOLLAR: u8 = 0x24;

/// The byte of `{`, which opens a brace group.
pub const OPEN_BRACE: u8 = 0x7b;

/// The byte of `}`, which closes a brace group.
pub const CLOSE_BRACE: u8 = 0x7d;

/// The byte of `\`, which escapes what stands behind it.
pub const BACKSLASH: u8 = 0x5c;

/// What the scanner sees in one place of a text: one of the four
/// characters that it reacts to, or anything else.
#[derive(Clone, Copy, Debug, PartialEq, Eq, Structural)]
pub enum Mark {
    /// `$`, which delimits math.
    Dollar,
    /// `{`, which opens a brace group.
    Open,
    /// `}`, which closes a brace group.
    Close,
    /// `\`, which escapes what stands behind it.
    Backslash,
    /// Anything else.
    Other,
}

/// What the scanner sees in a byte.
pub open spec fn mark_of_byte(byte: u8) -> Mark {
    if byte == DOLLAR {
        Mark::Dollar
    } else if byte == OPEN_BRACE {
        Mark::Open
    } else if byte == CLOSE_BRACE {
        Mark::Close
    } else if byte == BACKSLASH {
        Mark::Backslash
    } else {
        Mark::Other
    }
}

/// What the scanner sees in a character.
pub open spec fn mark_of_char(c: char) -> Mark {
    if c == '$' {
        Mark::Dollar
    } else if c == '{' {
        Mark::Open
    } else if c == '}' {
        Mark::Close
    } else if c == '\\' {
        Mark::Backslash
    } else {
        Mark::Other
    }
}

/// What the scanner sees in each byte of a text.
pub open spec fn byte_marks(text: Seq<u8>) -> Seq<Mark> {
    text.map_values(|byte: u8| mark_of_byte(byte))
}

/// What the scanner sees in each character of a text.
pub open spec fn char_marks(text: Seq<char>) -> Seq<Mark> {
    text.map_values(|c: char| mark_of_char(c))
}

/// The delimiter that opens a math segment, and must close it.
#[derive(Clone, Copy, Debug, PartialEq, Eq, Structural)]
pub enum DelimiterKind {
    /// A lone `$`.
    Single,
    /// `$$`.
    Double,
}

impl DelimiterKind {
    /// The number of bytes of the delimiter.
    pub open spec fn width(self) -> int {
        match self {
            DelimiterKind::Single => 1,
            DelimiterKind::Double => 2,
        }
    }

    /// The number of bytes of the delimiter.
    pub fn len(self) -> (n: usize)
        ensures
            n == self.width(),
    {
        match self {
            DelimiterKind::Single => 1,
            DelimiterKind::Double => 2,
        }
    }
}

/// The place just behind the delimiter that closes a math segment, for a
/// scan that stands at `pos` with `depth` brace groups open; `None` where
/// the text ends before a closing delimiter.
///
/// An opening brace raises the depth and a closing brace lowers it, below
/// zero too.  What stands behind a backslash is passed over unread.  A `$`
/// at depth zero or less closes a `Single` segment; it closes a `Double`
/// segment only if a second `$` follows, and is passed over otherwise.
pub open spec fn math_end(text: Seq<Mark>, kind: DelimiterKind, pos: int, depth: int) -> Option<int>
    decreases text.len() - pos,
{
    if pos < 0 || pos >= text.len() {
        None
    } else if text[pos] == Mark::Open {
        math_end(text, kind, pos + 1, depth + 1)
    } else if text[pos] == Mark::Close {
        math_end(text, kind, pos + 1, depth - 1)
    } else if text[pos] == Mark::Backslash {
        if pos + 1 < text.len() {
            math_end(text, kind, pos + 2, depth)
        } else {
            None
        }
    } else if text[pos] == Mark::Dollar && depth <= 0 {
        if kind == DelimiterKind::Single {
            Some(pos + 1)
        } else if pos + 1 < text.len() && text[pos + 1] == Mark::Dollar {
            Some(pos + 2)
        } else {
            math_end(text, kind, pos + 1, depth)
        }
    } else {
        math_end(text, kind, pos + 1, depth)
    }
}

/// Finds the end of the math segment whose opening delimiter stands at
/// `start`: the index just behind its closing delimiter.
pub fn find_math_end(text: &[u8], kind: DelimiterKind, start: usize) -> (end: Option<usize>)
    requires
        start + kind.width() <= text@.len(),
    ensures
        match end {
            Some(e) => math_end(byte_marks(text@), kind, start + kind.width(), 0) == Some(
                e as int,
            ),
            None => math_end(byte_marks(text@), kind, start + kind.width(), 0) is None,
        },
{
    let ghost marks = byte_marks(text@);
    let n: usize = text.len();
    let mut i: usize = start + kind.len();
    // The depth is `opens - closes`; it may be negative.
    let mut opens: usize = 0;
    let mut closes: usize = 0;
    while i < n
        invariant
            n == text@.len(),
            i <= n,
            opens <= i,
            closes <= i,
            marks == byte_marks(text@),
            math_end(marks, kind, start + kind.width(), 0) == math_end(
                marks,
                kind,
                i as int,
                opens - closes,
            ),
        decreases n - i,
    {
        let c: u8 = text[i];
        if c == OPEN_BRACE {
            opens += 1;
            i += 1;
        } else if c == CLOSE_BRACE {
            closes += 1;
            i += 1;
        } else if c == BACKSLASH {
            i += 1;
            if i < n {
                i += 1;
            }
        } else if c == DOLLAR && opens <= closes {
            match kind {
                DelimiterKind::Single => {
                    return Some(i + 1);
                },
                DelimiterKind::Double => {
                    if i + 1 < n && text[i + 1] == DOLLAR {
                        return Some(i + 2);
                    }
                    i += 1;
                },
            }
        } else {
            i += 1;
        }
    }
    None
}

/// Whether a segment is literal text or math.
#[derive(Clone, Copy, Debug, PartialEq, Eq, Structural)]
pub enum SegmentKind {
    /// Literal text, which passes through unchanged.
    Text,
    /// A math expression with its two delimiters.
    Math,
}

/// A piece of the text: its kind and the bytes `start..end` that it covers.
#[derive(Clone, Copy, Debug, PartialEq, Eq, Structural)]
pub struct Segment {
    pub kind: SegmentKind,
    pub start: usize,
    pub end: usize,
}

/// The literal text segment over `start..end`.
pub open spec fn text_segment(start: int, end: int) -> Segment {
    Segment { kind: SegmentKind::Text, start: start as usize, end: end as usize }
}

/// The math segment over `start..end`.
pub open spec fn math_segment(start: int, end: int) -> Segment {
    Segment { kind: SegmentKind::Math, start: start as usize, end: end as usize }
}

/// The index of the first `$` at or behind `from`; the length of the text
/// where there is none.
pub open spec fn first_dollar(text: Seq<Mark>, from: int) -> int
    decreases text.len() - from,
{
    if from < 0 || from >= text.len() {
        text.len() as int
    } else if text[from] == Mark::Dollar {
        from
    } else {
        first_dollar(text, from + 1)
    }
}

/// The delimiter that the `$` at `open` begins: `Double` if a second `$`
/// follows it at once.
pub open spec fn opening_kind(text: Seq<Mark>, open: int) -> DelimiterKind {
    if open + 1 < text.len() && text[open + 1] == Mark::Dollar {
        DelimiterKind::Double
    } else {
        DelimiterKind::Single
    }
}

/// The segments of the text from `from` on.
///
/// The scan looks for the next `$`.  If it opens a math expression that is
/// closed, the text before it (if any) and the expression are two segments,
/// and the scan goes on behind the closing delimiter.  If there is no `$`,
/// or the expression is never closed, all that is left is one text segment.
pub open spec fn segments_from(text: Seq<Mark>, from: int) -> Seq<Segment>
    decreases text.len() - from,
{
    if from < 0 || from >= text.len() {
        seq![]
    } else {
        let open = first_dollar(text, from);
        let kind = opening_kind(text, open);
        if open >= text.len() {
            seq![text_segment(from, text.len() as int)]
        } else {
            match math_end(text, kind, open + kind.width(), 0) {
                None => seq![text_segment(from, text.len() as int)],
                Some(end) => {
                    proof {
                        lemma_first_dollar(text, from);
                        lemma_math_end(text, kind, open + kind.width(), 0);
                    }
                    let math = seq![math_segment(open, end)] + segments_from(text, end);
                    if open > from {
                        seq![text_segment(from, open)] + math
                    } else {
                        math
                    }
                },
            }
        }
    }
}

/// The segments of the whole text.
pub open spec fn segments(text: Seq<Mark>) -> Seq<Segment> {
    segments_from(text, 0)
}

/// The first `$` at or behind `from` lies in the text or at its end, and no
/// `$` stands between `from` and it.
pub proof fn lemma_first_dollar(text: Seq<Mark>, from: int)
    requires
        0 <= from <= text.len(),
    ensures
        from <= first_dollar(text, from) <= text.len(),
        first_dollar(text, from) < text.len() ==> text[first_dollar(text, from)] == Mark::Dollar,
        forall|k: int| from <= k < first_dollar(text, from) ==> text[k] != Mark::Dollar,
    decreases text.len() - from,
{
    if from < text.len() && text[from] != Mark::Dollar {
        lemma_first_dollar(text, from + 1);
    }
}

/// A math segment ends behind a `$` that lies behind the place where the
/// scan for its end began; a `Double` one ends behind two.
pub proof fn lemma_math_end(text: Seq<Mark>, kind: DelimiterKind, pos: int, depth: int)
    requires
        0 <= pos,
    ensures
        match math_end(text, kind, pos, depth) {
            Some(end) => {
                &&& pos < end <= text.len()
                &&& text[end - 1] == Mark::Dollar
                &&& kind == DelimiterKind::Double ==> pos + 2 <= end && text[end - 2]
                    == Mark::Dollar
            },
            None => true,
        },
    decreases text.len() - pos,
{
    if pos < text.len() {
        let c = text[pos];
        if c == Mark::Open {
            lemma_math_end(text, kind, pos + 1, depth + 1);
        } else if c == Mark::Close {
            lemma_math_end(text, kind, pos + 1, depth - 1);
        } else if c == Mark::Backslash {
            if pos + 1 < text.len() {
                lemma_math_end(text, kind, pos + 2, depth);
            }
        } else if c == Mark::Dollar && depth <= 0 {
            if kind == DelimiterKind::Double && !(pos + 1 < text.len() && text[pos + 1]
                == Mark::Dollar) {
                lemma_math_end(text, kind, pos + 1, depth);
            }
        } else {
            lemma_math_end(text, kind, pos + 1, depth);
        }
    }
}

/// Splits the text into its literal and math segments, from left to right.
pub fn scan(text: &[u8]) -> (found: Vec<Segment>)
    ensures
        found@ == segments(byte_marks(text@)),
{
    let ghost marks = byte_marks(text@);
    let n: usize = text.len();
    let mut found: Vec<Segment> = Vec::new();
    let mut from: usize = 0;
    while from < n
        invariant
            n == text@.len(),
            marks == byte_marks(text@),
            from <= n,
            segments(marks) == found@ + segments_from(marks, from as int),
        decreases n - from,
    {
        let mut open: usize = from;
        while open < n && text[open] != DOLLAR
            invariant
                n == text@.len(),
                marks == byte_marks(text@),
                from <= open <= n,
                first_dollar(marks, from as int) == first_dollar(marks, open as int),
            decreases n - open,
        {
            open += 1;
        }
        let ghost rest = segments_from(marks, from as int);
        if open == n {
            found.push(Segment { kind: SegmentKind::Text, start: from, end: n });
            assert(rest == seq![text_segment(from as int, n as int)]);
            from = n;
        } else {
            let kind = if open + 1 < n && text[open + 1] == DOLLAR {
                DelimiterKind::Double
            } else {
                DelimiterKind::Single
            };
            match find_math_end(text, kind, open) {
                None => {
                    found.push(Segment { kind: SegmentKind::Text, start: from, end: n });
                    assert(rest == seq![text_segment(from as int, n as int)]);
                    from = n;
                },
                Some(end) => {
                    proof {
                        lemma_math_end(marks, kind, open + kind.width(), 0);
                    }
                    if open > from {
                        found.push(Segment { kind: SegmentKind::Text, start: from, end: open });
                    }
                    found.push(Segment { kind: SegmentKind::Math, start: open, end });
                    from = end;
                },
            }
        }
    }
    found
}

/// Whether the segments, in their order, cover `from..to` of the text
/// without a gap or an overlap, none of them empty.
pub open spec fn tiles(parts: Seq<Segment>, from: int, to: int) -> bool
    decreases parts.len(),
{
    if parts.len() == 0 {
        from == to
    } else {
        &&& parts[0].start == from
        &&& from < parts[0].end <= to
        &&& tiles(parts.drop_first(), parts[0].end as int, to)
    }
}

/// The part of the text that each of the segments covers.
pub open spec fn pieces<T>(text: Seq<T>, parts: Seq<Segment>) -> Seq<Seq<T>> {
    parts.map_values(|part: Segment| text.subrange(part.start as int, part.end as int))
}

/// Whether `pos` is an end of the text or lies beside a `$`.
pub open spec fn at_edge(text: Seq<Mark>, pos: int) -> bool {
    &&& 0 <= pos <= text.len()
    &&& (pos == 0 || pos == text.len() || text[pos] == Mark::Dollar || text[pos - 1]
        == Mark::Dollar)
}

/// Whether a segment is well placed in the text: it is not empty, both of
/// its ends are ends of the text or lie beside a `$`, and a math segment
/// begins and ends with a `$`.
pub open spec fn well_placed(text: Seq<Mark>, part: Segment) -> bool {
    &&& part.start < part.end <= text.len()
    &&& at_edge(text, part.start as int)
    &&& at_edge(text, part.end as int)
    &&& part.kind == SegmentKind::Math ==> {
        &&& part.start + 2 <= part.end
        &&& text[part.start as int] == Mark::Dollar
        &&& text[part.end - 1] == Mark::Dollar
    }
}

/// The segments from `from` on cover the rest of the text, and each is
/// well placed.
pub proof fn lemma_segments_from(text: Seq<Mark>, from: int)
    requires
        text.len() <= usize::MAX,
        at_edge(text, from),
    ensures
        tiles(segments_from(text, from), from, text.len() as int),
        forall|i: int|
            0 <= i < segments_from(text, from).len() ==> well_placed(
                text,
                #[trigger] segments_from(text, from)[i],
            ),
    decreases text.len() - from,
{
    let parts = segments_from(text, from);
    let n = text.len() as int;
    if from < n {
        lemma_first_dollar(text, from);
        let open = first_dollar(text, from);
        let kind = opening_kind(text, open);
        let whole = seq![text_segment(from, n)];
        assert(whole.drop_first() =~= seq![]);
        assert(tiles(whole.drop_first(), n, n));
        assert(tiles(whole, from, n));
        if open < n {
            lemma_math_end(text, kind, open + kind.width(), 0);
            match math_end(text, kind, open + kind.width(), 0) {
                None => {
                    assert(parts == whole);
                },
                Some(end) => {
                    lemma_segments_from(text, end);
                    let rest = segments_from(text, end);
                    let math = seq![math_segment(open, end)] + rest;
                    assert(math.drop_first() =~= rest);
                    assert(tiles(math, open, n));
                    assert(well_placed(text, math_segment(open, end)));
                    if open > from {
                        let all = seq![text_segment(from, open)] + math;
                        assert(all.drop_first() =~= math);
                        assert(tiles(all, from, n));
                        assert(well_placed(text, text_segment(from, open)));
                        assert(parts == all);
                    } else {
                        assert(parts == math);
                    }
                },
            }
        } else {
            assert(parts == whole);
        }
    }
}

/// Whether `start..end` of the text holds no `$`.
pub open spec fn holds_no_dollar(text: Seq<Mark>, start: int, end: int) -> bool {
    forall|k: int| start <= k < end ==> text[k] != Mark::Dollar
}

/// Whether the segment at `at` is text that is followed by math and holds
/// no `$`, or is math, or is the last segment.
pub open spec fn leads_to_math(text: Seq<Mark>, parts: Seq<Segment>, at: int) -> bool {
    parts[at].kind == SegmentKind::Text && at + 1 < parts.len() ==> {
        &&& parts[at + 1].kind == SegmentKind::Math
        &&& holds_no_dollar(text, parts[at].start as int, parts[at].end as int)
    }
}

/// Text stands only between math: a text segment that is not the last one
/// holds no `$`, and math follows it.  So two text segments never meet, and
/// only the last segment can be text with a `$` in it.
pub proof fn lemma_text_leads_to_math(text: Seq<Mark>, from: int)
    requires
        text.len() <= usize::MAX,
        0 <= from <= text.len(),
    ensures
        forall|at: int|
            0 <= at < segments_from(text, from).len() ==> #[trigger] leads_to_math(
                text,
                segments_from(text, from),
                at,
            ),
    decreases text.len() - from,
{
    let parts = segments_from(text, from);
    let n = text.len() as int;
    if from < n {
        lemma_first_dollar(text, from);
        let open = first_dollar(text, from);
        let kind = opening_kind(text, open);
        if open < n {
            lemma_math_end(text, kind, open + kind.width(), 0);
            match math_end(text, kind, open + kind.width(), 0) {
                None => {},
                Some(end) => {
                    lemma_text_leads_to_math(text, end);
                    let rest = segments_from(text, end);
                    let lead: int = if open > from {
                        2
                    } else {
                        1
                    };
                    assert forall|at: int| 0 <= at < parts.len() implies #[trigger] leads_to_math(
                        text,
                        parts,
                        at,
                    ) by {
                        if at >= lead {
                            assert(leads_to_math(text, rest, at - lead));
                            assert(parts[at] == rest[at - lead]);
                            if at + 1 < parts.len() {
                                assert(parts[at + 1] == rest[at + 1 - lead]);
                            }
                        }
                    }
                },
            }
        }
    }
}

/// Segments that tile a stretch of the text join to that stretch.
pub proof fn lemma_tiles_join<T>(text: Seq<T>, parts: Seq<Segment>, from: int, to: int)
    requires
        0 <= from,
        to <= text.len(),
        tiles(parts, from, to),
    ensures
        from <= to,
        pieces(text, parts).flatten() == text.subrange(from, to),
    decreases parts.len(),
{
    if parts.len() == 0 {
        assert(text.subrange(from, to) =~= seq![]);
    } else {
        lemma_tiles_join(text, parts.drop_first(), parts[0].end as int, to);
        assert(pieces(text, parts).drop_first() =~= pieces(text, parts.drop_first()));
        assert(text.subrange(from, to) =~= text.subrange(from, parts[0].end as int)
            + text.subrange(parts[0].end as int, to));
    }
}

/// The segments of a text partition it: they follow one another without a
/// gap, none is empty, and each is well placed.
pub proof fn lemma_segments_partition(text: Seq<Mark>)
    requires
        text.len() <= usize::MAX,
    ensures
        tiles(segments(text), 0, text.len() as int),
        forall|i: int| 0 <= i < segments(text).len() ==> well_placed(text, #[trigger] segments(text)[i]),
{
    lemma_segments_from(text, 0);
}

/// The segments of a text cover it: their bytes, joined in order, are the
/// text, with nothing gained, lost or moved.
pub proof fn lemma_segments_cover(text: Seq<u8>)
    requires
        text.len() <= usize::MAX,
    ensures
        pieces(text, segments(byte_marks(text))).flatten() == text,
{
    lemma_segments_partition(byte_marks(text));
    lemma_tiles_join(text, segments(byte_marks(text)), 0, text.len() as int);
    assert(text.subrange(0, text.len() as int) =~= text);
}

/// A piece of a text: literal text, or a math expression with its two
/// delimiters and the bytes of the text that it covers.
#[derive(Debug, PartialEq, Eq)]
pub enum Event<'a> {
    Text(&'a str),
    Math(&'a str, Range<usize>),
}

/// What an [`Event`] stands for: its characters and, for math, its range.
pub enum EventView {
    Text(Seq<char>),
    Math(Seq<char>, Range<usize>),
}

impl<'a> View for Event<'a> {
    type V = EventView;

    open spec fn view(&self) -> EventView {
        match self {
            Event::Text(text) => EventView::Text(text@),
            Event::Math(math, range) => EventView::Math(math@, *range),
        }
    }
}

impl EventView {
    /// The characters of the event.
    pub open spec fn payload(self) -> Seq<char> {
        match self {
            EventView::Text(text) => text,
            EventView::Math(math, _) => math,
        }
    }
}

/// What each of the events stands for.
pub open spec fn event_views(events: Seq<Event>) -> Seq<EventView> {
    events.map_values(|event: Event| event@)
}

/// The event of a segment of the characters of a text: the characters that
/// the segment covers and, for math, their place among the bytes of the
/// text.
pub open spec fn event_of(text: Seq<char>, part: Segment) -> EventView {
    let payload = text.subrange(part.start as int, part.end as int);
    match part.kind {
        SegmentKind::Text => EventView::Text(payload),
        SegmentKind::Math => EventView::Math(
            payload,
            Range {
                start: offset(text, part.start as int) as usize,
                end: offset(text, part.end as int) as usize,
            },
        ),
    }
}

/// The events of a text: one for each segment of its characters.
pub open spec fn math_events(text: Seq<char>) -> Seq<EventView> {
    segments(char_marks(text)).map_values(|part: Segment| event_of(text, part))
}

/// The characters of each of the events.
pub open spec fn payloads(events: Seq<EventView>) -> Seq<Seq<char>> {
    events.map_values(|event: EventView| event.payload())
}

/// The events of a text cover it: their characters, joined in order, are
/// the text, with nothing gained, lost or moved.
pub proof fn lemma_events_cover(text: Seq<char>)
    requires
        text.len() <= usize::MAX,
    ensures
        payloads(math_events(text)).flatten() == text,
{
    let parts = segments(char_marks(text));
    lemma_segments_partition(char_marks(text));
    lemma_tiles_join(text, parts, 0, text.len() as int);
    assert(payloads(math_events(text)) =~= pieces(text, parts));
    assert(text.subrange(0, text.len() as int) =~= text);
}

/// Parses the text into a sequence of literal text and math expressions.
///
/// The events come in the order of the text and cover it; each holds its
/// part of the text unchanged.
pub fn parse_math(text: &str) -> (events: Vec<Event<'_>>)
    ensures
        event_views(events@) == math_events(text@),
{
    broadcast use encode_utf8_valid_utf8;

    let bytes = text.as_bytes();
    let parts = scan(bytes);
    let size: usize = bytes.len();
    proof {
        assert(bytes@.len() == size);
        lemma_segments_partition(byte_marks(bytes@));
    }
    let mut events: Vec<Event<'_>> = Vec::new();
    let mut i: usize = 0;
    while i < parts.len()
        invariant
            bytes@ == text.spec_bytes(),
            valid_utf8(bytes@),
            parts@ == segments(byte_marks(bytes@)),
            forall|k: int|
                0 <= k < parts@.len() ==> well_placed(byte_marks(bytes@), #[trigger] parts@[k]),
            i <= parts@.len(),
            events@.len() == i,
            forall|k: int|
                0 <= k < i ==> (#[trigger] events@[k])@ == event_of_bytes(bytes@, parts@[k]),
        decreases parts@.len() - i,
    {
        let part = parts[i];
        proof {
            lemma_well_placed_on_boundaries(bytes@, part);
        }
        let payload = substring(text, part.start, part.end);
        match part.kind {
            SegmentKind::Text => events.push(Event::Text(payload)),
            SegmentKind::Math => events.push(Event::Math(payload, part.start..part.end)),
        }
        i += 1;
    }
    proof {
        assert(event_views(events@) =~= events_of_bytes(text@));
        lemma_events_of_bytes(text@);
    }
    events
}

} // verus!
