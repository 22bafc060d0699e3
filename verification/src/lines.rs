//! Lines of a text, and whether one of them is blank.
//!
//! A Markdown renderer ends a paragraph at a blank line, so a math
//! expression that holds one would be torn in two.

use vstd::prelude::*;
use vstd::string::*;

verus! {

/// Whether the character is white space: a character with the Unicode
/// property `White_Space`.
pub open spec fn is_whitespace(c: char) -> bool {
    ||| '\u{9}' <= c <= '\u{d}'
    ||| c == ' '
    ||| c == '\u{85}'
    ||| c == '\u{a0}'
    ||| c == '\u{1680}'
    ||| '\u{2000}' <= c <= '\u{200a}'
    ||| c == '\u{2028}'
    ||| c == '\u{2029}'
    ||| c == '\u{202f}'
    ||| c == '\u{205f}'
    ||| c == '\u{3000}'
}

/// Whether the character is white space.
pub fn is_whitespace_char(c: char) -> (whitespace: bool)
    ensures
        whitespace == is_whitespace(c),
{
    ('\u{9}' <= c && c <= '\u{d}') || c == ' ' || c == '\u{85}' || c == '\u{a0}' || c
        == '\u{1680}' || ('\u{2000}' <= c && c <= '\u{200a}') || c == '\u{2028}' || c
        == '\u{2029}' || c == '\u{202f}' || c == '\u{205f}' || c == '\u{3000}'
}

/// Whether `start..end` is a line of the text: it begins at the start of
/// the text or behind a line feed, holds no line feed, and ends before a
/// line feed or at the end of the text.  What follows the last line feed
/// is a line only if it is not empty.
pub open spec fn is_line(text: Seq<char>, start: int, end: int) -> bool {
    &&& 0 <= start <= end <= text.len()
    &&& start == 0 || text[start - 1] == '\n'
    &&& forall|k: int| start <= k < end ==> text[k] != '\n'
    &&& if end < text.len() {
        text[end] == '\n'
    } else {
        start < end
    }
}

/// Whether `start..end` of the text holds nothing but white space.
pub open spec fn is_blank(text: Seq<char>, start: int, end: int) -> bool {
    forall|k: int| start <= k < end ==> is_whitespace(#[trigger] text[k])
}

/// Whether the text has a blank line: a line that is empty or holds
/// nothing but white space.
pub open spec fn has_blank_line(text: Seq<char>) -> bool {
    exists|start: int, end: int| #[trigger] is_line(text, start, end) && is_blank(text, start, end)
}

/// A line is known by its end: two lines that end at the same place begin
/// at the same place.
proof fn lemma_line_start_unique(text: Seq<char>, first: int, second: int, end: int)
    requires
        is_line(text, first, end),
        0 <= second <= end,
        second == 0 || text[second - 1] == '\n',
        forall|k: int| second <= k < end ==> text[k] != '\n',
    ensures
        first == second,
{
    if first < second {
        assert(text[second - 1] == '\n');
    } else if second < first {
        assert(text[first - 1] == '\n');
    }
}

/// Tells whether the text has a blank line.
pub fn contains_blank_line(text: &str) -> (blank: bool)
    ensures
        blank == has_blank_line(text@),
{
    // Whether all of the current line so far is white space, and whether
    // the current line is empty so far.
    let mut blank: bool = true;
    let mut empty: bool = true;
    let ghost mut line: int = 0;
    for c in it: text.chars()
        invariant
            it.seq() == text@,
            0 <= line <= it.index(),
            line == 0 || text@[line - 1] == '\n',
            forall|k: int| line <= k < it.index() ==> text@[k] != '\n',
            blank == is_blank(text@, line, it.index()),
            empty == (line == it.index()),
            forall|start: int, end: int|
                #[trigger] is_line(text@, start, end) && end < it.index() ==> !is_blank(
                    text@,
                    start,
                    end,
                ),
    {
        let ghost at = it.index();
        if c == '\n' {
            if blank {
                assert(is_line(text@, line, at) && is_blank(text@, line, at));
                return true;
            }
            assert forall|start: int, end: int| #[trigger]
                is_line(text@, start, end) && end < at + 1 implies !is_blank(text@, start, end) by {
                if end == at {
                    lemma_line_start_unique(text@, start, line, end);
                }
            }
            proof {
                line = at + 1;
            }
            blank = true;
            empty = true;
        } else {
            if !is_whitespace_char(c) {
                blank = false;
            }
            empty = false;
        }
    }
    proof {
        let n = text@.len() as int;
        if blank && !empty {
            assert(is_line(text@, line, n) && is_blank(text@, line, n));
        }
        if has_blank_line(text@) {
            let (start, end) = choose|start: int, end: int| #[trigger]
                is_line(text@, start, end) && is_blank(text@, start, end);
            assert(end == n);
            lemma_line_start_unique(text@, start, line, end);
        }
    }
    blank && !empty
}

} // verus!
