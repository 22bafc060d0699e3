//! The scanner on bytes does what the scanner on characters would do.
//!
//! The four characters that the scanner reacts to are ASCII, and UTF-8
//! encodes an ASCII character as its own byte and every other character
//! as bytes that are not ASCII.  So the marks of the bytes of a text are
//! the marks of its characters, with further `Other` marks behind the
//! characters that take several bytes; and the scan passes over those as
//! it passes over the characters themselves.

use crate::parser::{
    at_edge, byte_marks, char_marks, event_of, first_dollar, lemma_first_dollar, lemma_math_end,
    lemma_segments_partition, mark_of_byte, mark_of_char, math_end, math_events, opening_kind,
    segments, segments_from, well_placed, DelimiterKind, EventView, Mark, Segment, SegmentKind,
    DOLLAR,
};
use crate::text::{lemma_boundary_at_ascii, lemma_boundary_behind_ascii, offset};
use std::ops::Range;
use vstd::prelude::*;
use vstd::utf8::*;

verus! {

/// The encoding of two texts in a row is the encoding of the first and
/// then that of the second.
pub proof fn lemma_encode_concat(left: Seq<char>, right: Seq<char>)
    ensures
        encode_utf8(left + right) == encode_utf8(left) + encode_utf8(right),
    decreases left.len(),
{
    if left.len() == 0 {
        assert(left + right =~= right);
        assert(encode_utf8(left) =~= seq![]);
        assert(encode_utf8(left) + encode_utf8(right) =~= encode_utf8(right));
    } else {
        lemma_encode_concat(left.drop_first(), right);
        assert((left + right).drop_first() =~= left.drop_first() + right);
        assert(encode_utf8(left + right) =~= encode_utf8(left) + encode_utf8(right));
    }
}

/// The encoding of one character.
pub proof fn lemma_encode_one(c: char)
    ensures
        encode_utf8(seq![c]) == encode_scalar(c as u32),
{
    assert(seq![c].drop_first() =~= Seq::<char>::empty());
    assert(encode_utf8(Seq::<char>::empty()) =~= seq![]);
    assert(encode_utf8(seq![c]) =~= encode_scalar(c as u32));
}

/// UTF-8 encodes an ASCII character as the one byte of its code, and any
/// other character as two to four bytes that are not ASCII.
pub proof fn lemma_encode_scalar(c: char)
    ensures
        (c as u32) < 0x80 ==> encode_scalar(c as u32) == seq![c as u8],
        (c as u32) >= 0x80 ==> {
            &&& 2 <= encode_scalar(c as u32).len() <= 4
            &&& forall|k: int|
                0 <= k < encode_scalar(c as u32).len() ==> #[trigger] encode_scalar(c as u32)[k]
                    >= 0x80
        },
{
    let scalar = c as u32;
    let bytes = encode_scalar(scalar);
    char_is_scalar(c);
    if scalar < 0x80 {
        assert(scalar as u8 == leading_byte_width_1(scalar)) by (bit_vector)
            requires
                has_width_1_encoding(scalar),
        ;
        assert(bytes =~= seq![c as u8]);
    } else {
        lemma_encode_one(c);
        encode_utf8_first_scalar(seq![c]);
        assert(length_of_first_scalar(bytes) == bytes.len());
        assert(valid_leading_and_continuation_bytes_first_codepoint(bytes));
    }
}

/// The offsets of the characters of a text ascend through its bytes, a
/// character's bytes lying between its offset and the next.
pub proof fn lemma_offset_step(text: Seq<char>, at: int)
    requires
        0 <= at < text.len(),
    ensures
        0 <= offset(text, at) < offset(text, at + 1) <= encode_utf8(text).len(),
        offset(text, at + 1) == offset(text, at) + encode_scalar(text[at] as u32).len(),
        encode_utf8(text).subrange(offset(text, at), offset(text, at + 1)) == encode_scalar(
            text[at] as u32,
        ),
{
    let head = text.take(at);
    let c = text[at];
    let tail = text.skip(at + 1);
    lemma_encode_one(c);
    lemma_encode_scalar(c);
    lemma_encode_concat(head, seq![c]);
    lemma_encode_concat(head + seq![c], tail);
    assert(text.take(at + 1) =~= head + seq![c]);
    assert(text =~= (head + seq![c]) + tail);
    assert(encode_utf8(text).subrange(offset(text, at), offset(text, at + 1)) =~= encode_scalar(
        c as u32,
    ));
}

/// The offsets of the two ends of a text are the two ends of its bytes.
pub proof fn lemma_offset_ends(text: Seq<char>)
    ensures
        offset(text, 0) == 0,
        offset(text, text.len() as int) == encode_utf8(text).len(),
{
    assert(text.take(0) =~= Seq::<char>::empty());
    assert(encode_utf8(Seq::<char>::empty()) =~= seq![]);
    assert(text.take(text.len() as int) =~= text);
}

/// The offsets of the characters of a text lie in its bytes, in the order
/// of the characters.
pub proof fn lemma_offset_order(text: Seq<char>, first: int, second: int)
    requires
        0 <= first <= second <= text.len(),
    ensures
        0 <= offset(text, first) <= offset(text, second) <= encode_utf8(text).len(),
        first < second ==> offset(text, first) < offset(text, second),
    decreases second - first,
{
    if first < second {
        lemma_offset_step(text, first);
        lemma_offset_order(text, first + 1, second);
    } else if second < text.len() {
        lemma_offset_step(text, second);
    } else {
        lemma_offset_ends(text);
    }
}

/// A character takes a byte at least: no offset is less than the number of
/// characters before it.
pub proof fn lemma_offset_at_least(text: Seq<char>, at: int)
    requires
        0 <= at <= text.len(),
    ensures
        at <= offset(text, at),
    decreases at,
{
    if at == 0 {
        lemma_offset_ends(text);
    } else {
        lemma_offset_at_least(text, at - 1);
        lemma_offset_step(text, at - 1);
    }
}

/// The bytes between two offsets encode the characters between them.
pub proof fn lemma_encode_between(text: Seq<char>, start: int, end: int)
    requires
        0 <= start <= end <= text.len(),
    ensures
        encode_utf8(text).subrange(offset(text, start), offset(text, end)) == encode_utf8(
            text.subrange(start, end),
        ),
{
    let head = text.take(start);
    let middle = text.subrange(start, end);
    let tail = text.skip(end);
    lemma_encode_concat(head, middle);
    lemma_encode_concat(head + middle, tail);
    assert(text.take(end) =~= head + middle);
    assert(text =~= (head + middle) + tail);
    assert(encode_utf8(text).subrange(offset(text, start), offset(text, end)) =~= encode_utf8(
        middle,
    ));
}

/// The mark of an ASCII character is the mark of its byte.
pub proof fn lemma_mark_of_ascii(c: char)
    requires
        (c as u32) < 0x80,
    ensures
        mark_of_byte(c as u8) == mark_of_char(c),
{
}

/// The mark of a character is the mark of its first byte, and its further
/// bytes are marks of nothing.
pub proof fn lemma_marks_of_character(text: Seq<char>, at: int)
    requires
        0 <= at < text.len(),
    ensures
        byte_marks(encode_utf8(text))[offset(text, at)] == char_marks(text)[at],
        forall|k: int|
            offset(text, at) < k < offset(text, at + 1) ==> #[trigger] byte_marks(
                encode_utf8(text),
            )[k] == Mark::Other,
{
    let bytes = encode_utf8(text);
    let c = text[at];
    let code = encode_scalar(c as u32);
    let start = offset(text, at);
    lemma_offset_step(text, at);
    lemma_encode_scalar(c);
    assert forall|k: int| start <= k < offset(text, at + 1) implies bytes[k] == code[k - start] by {
        assert(bytes.subrange(start, offset(text, at + 1))[k - start] == bytes[k]);
    }
    if (c as u32) < 0x80 {
        assert(bytes[start] == code[0]);
        lemma_mark_of_ascii(c);
    } else {
        assert(code[0] >= 0x80);
        assert forall|k: int| start < k < offset(text, at + 1) implies #[trigger] byte_marks(
            bytes,
        )[k] == Mark::Other by {
            assert(code[k - start] >= 0x80);
        }
    }
}

/// The search for the end of math passes over marks of nothing.
pub proof fn lemma_math_end_passes(
    text: Seq<Mark>,
    kind: DelimiterKind,
    from: int,
    to: int,
    depth: int,
)
    requires
        0 <= from <= to <= text.len(),
        forall|k: int| from <= k < to ==> text[k] == Mark::Other,
    ensures
        math_end(text, kind, from, depth) == math_end(text, kind, to, depth),
    decreases to - from,
{
    if from < to {
        lemma_math_end_passes(text, kind, from + 1, to, depth);
    }
}

/// The search for the next `$` passes over marks of nothing.
pub proof fn lemma_first_dollar_passes(text: Seq<Mark>, from: int, to: int)
    requires
        0 <= from <= to <= text.len(),
        forall|k: int| from <= k < to ==> text[k] == Mark::Other,
    ensures
        first_dollar(text, from) == first_dollar(text, to),
    decreases to - from,
{
    if from < to {
        lemma_first_dollar_passes(text, from + 1, to);
    }
}

/// The end of math among the bytes is the offset of its end among the
/// characters.
pub proof fn lemma_math_end_of_bytes(text: Seq<char>, kind: DelimiterKind, at: int, depth: int)
    requires
        0 <= at <= text.len(),
    ensures
        math_end(byte_marks(encode_utf8(text)), kind, offset(text, at), depth) == match math_end(
            char_marks(text),
            kind,
            at,
            depth,
        ) {
            Some(end) => Some(offset(text, end)),
            None => None,
        },
    decreases text.len() - at,
{
    let bytes = byte_marks(encode_utf8(text));
    let chars = char_marks(text);
    let here = offset(text, at);
    lemma_offset_ends(text);
    if at < text.len() {
        let next = offset(text, at + 1);
        lemma_offset_step(text, at);
        lemma_marks_of_character(text, at);
        lemma_math_end_passes(bytes, kind, here + 1, next, depth);
        lemma_math_end_passes(bytes, kind, here + 1, next, depth + 1);
        lemma_math_end_passes(bytes, kind, here + 1, next, depth - 1);
        if at + 1 < text.len() {
            lemma_offset_step(text, at + 1);
            lemma_marks_of_character(text, at + 1);
        }
        let mark = chars[at];
        if mark == Mark::Open {
            lemma_math_end_of_bytes(text, kind, at + 1, depth + 1);
        } else if mark == Mark::Close {
            lemma_math_end_of_bytes(text, kind, at + 1, depth - 1);
        } else if mark == Mark::Backslash {
            if at + 1 < text.len() {
                lemma_math_end_passes(bytes, kind, next + 1, offset(text, at + 2), depth);
                lemma_math_end_of_bytes(text, kind, at + 2, depth);
            }
        } else if mark == Mark::Dollar && depth <= 0 {
            if kind == DelimiterKind::Double && !(at + 1 < text.len() && chars[at + 1]
                == Mark::Dollar) {
                lemma_math_end_of_bytes(text, kind, at + 1, depth);
            }
        } else {
            lemma_math_end_of_bytes(text, kind, at + 1, depth);
        }
    }
}

/// The next `$` among the bytes stands at the offset of the next `$` among
/// the characters.
pub proof fn lemma_first_dollar_of_bytes(text: Seq<char>, at: int)
    requires
        0 <= at <= text.len(),
    ensures
        first_dollar(byte_marks(encode_utf8(text)), offset(text, at)) == offset(
            text,
            first_dollar(char_marks(text), at),
        ),
    decreases text.len() - at,
{
    let bytes = byte_marks(encode_utf8(text));
    lemma_offset_ends(text);
    if at < text.len() {
        lemma_offset_step(text, at);
        lemma_marks_of_character(text, at);
        if char_marks(text)[at] != Mark::Dollar {
            lemma_first_dollar_passes(bytes, offset(text, at) + 1, offset(text, at + 1));
            lemma_first_dollar_of_bytes(text, at + 1);
        }
    }
}

/// The segment of the bytes that a segment of the characters covers.
pub open spec fn bytes_of(text: Seq<char>, part: Segment) -> Segment {
    Segment {
        kind: part.kind,
        start: offset(text, part.start as int) as usize,
        end: offset(text, part.end as int) as usize,
    }
}

/// The segments of the bytes are the segments of the characters, each at
/// the offsets of its ends.
pub proof fn lemma_segments_of_bytes(text: Seq<char>, at: int)
    requires
        encode_utf8(text).len() <= usize::MAX,
        0 <= at <= text.len(),
    ensures
        segments_from(byte_marks(encode_utf8(text)), offset(text, at)) == segments_from(
            char_marks(text),
            at,
        ).map_values(|part: Segment| bytes_of(text, part)),
    decreases text.len() - at,
{
    let bytes = byte_marks(encode_utf8(text));
    let chars = char_marks(text);
    let n = text.len() as int;
    let found = segments_from(chars, at).map_values(|part: Segment| bytes_of(text, part));
    lemma_offset_ends(text);
    lemma_offset_order(text, at, n);
    lemma_offset_at_least(text, n);
    if at < n {
        lemma_first_dollar(chars, at);
        lemma_first_dollar_of_bytes(text, at);
        let open = first_dollar(chars, at);
        lemma_offset_order(text, at, open);
        lemma_offset_order(text, open, n);
        if open < n {
            let kind = opening_kind(chars, open);
            lemma_offset_step(text, open);
            lemma_marks_of_character(text, open);
            if open + 1 < n {
                lemma_offset_step(text, open + 1);
                lemma_marks_of_character(text, open + 1);
            }
            assert(opening_kind(bytes, offset(text, open)) == kind);
            assert(offset(text, open) + kind.width() == offset(text, open + kind.width()));
            lemma_math_end_of_bytes(text, kind, open + kind.width(), 0);
            lemma_math_end(chars, kind, open + kind.width(), 0);
            match math_end(chars, kind, open + kind.width(), 0) {
                None => {
                    assert(segments_from(bytes, offset(text, at)) =~= found);
                },
                Some(end) => {
                    lemma_segments_of_bytes(text, end);
                    lemma_offset_order(text, open, end);
                    lemma_offset_order(text, end, n);
                    assert(segments_from(bytes, offset(text, at)) =~= found);
                },
            }
        } else {
            assert(segments_from(bytes, offset(text, at)) =~= found);
        }
    } else {
        assert(segments_from(bytes, offset(text, at)) =~= found);
    }
}

/// The event of a segment of the bytes of a text: the characters that its
/// bytes encode and, for math, the place of the bytes.
pub open spec fn event_of_bytes(text: Seq<u8>, part: Segment) -> EventView {
    let payload = decode_utf8(text.subrange(part.start as int, part.end as int));
    match part.kind {
        SegmentKind::Text => EventView::Text(payload),
        SegmentKind::Math => EventView::Math(payload, Range { start: part.start, end: part.end }),
    }
}

/// The events of a text as its bytes give them: one for each segment of
/// its UTF-8 encoding.
pub open spec fn events_of_bytes(text: Seq<char>) -> Seq<EventView> {
    let bytes = encode_utf8(text);
    segments(byte_marks(bytes)).map_values(|part: Segment| event_of_bytes(bytes, part))
}

/// Scanning the bytes of a text gives the events of its characters.
pub proof fn lemma_events_of_bytes(text: Seq<char>)
    requires
        encode_utf8(text).len() <= usize::MAX,
    ensures
        events_of_bytes(text) == math_events(text),
{
    broadcast use encode_utf8_decode_utf8;

    let bytes = encode_utf8(text);
    let parts = segments(char_marks(text));
    lemma_offset_ends(text);
    lemma_offset_at_least(text, text.len() as int);
    lemma_segments_of_bytes(text, 0);
    lemma_segments_partition(char_marks(text));
    assert forall|i: int| 0 <= i < parts.len() implies event_of_bytes(
        bytes,
        bytes_of(text, parts[i]),
    ) == event_of(text, parts[i]) by {
        let part = parts[i];
        assert(well_placed(char_marks(text), part));
        lemma_offset_order(text, part.start as int, part.end as int);
        lemma_encode_between(text, part.start as int, part.end as int);
    }
    assert(events_of_bytes(text) =~= math_events(text));
}

/// In valid UTF-8 the ends of the text and the places beside a `$` are
/// character boundaries.
pub proof fn lemma_edge_is_boundary(text: Seq<u8>, pos: int)
    requires
        valid_utf8(text),
        at_edge(byte_marks(text), pos),
    ensures
        is_char_boundary(text, pos),
{
    if pos == 0 || pos == text.len() {
        is_char_boundary_start_end_of_seq(text);
    } else if text[pos] == DOLLAR {
        lemma_boundary_at_ascii(text, pos);
    } else {
        lemma_boundary_behind_ascii(text, pos);
    }
}

/// In valid UTF-8 both ends of a well placed segment are character
/// boundaries.
pub proof fn lemma_well_placed_on_boundaries(text: Seq<u8>, part: Segment)
    requires
        valid_utf8(text),
        well_placed(byte_marks(text), part),
    ensures
        is_char_boundary(text, part.start as int),
        is_char_boundary(text, part.end as int),
{
    lemma_edge_is_boundary(text, part.start as int);
    lemma_edge_is_boundary(text, part.end as int);
}

} // verus!
