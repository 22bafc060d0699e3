//! Slices of a `str` by byte offsets, and the facts on UTF-8 that make
//! them safe.

use vstd::prelude::*;
use vstd::string::*;
use vstd::utf8::*;

verus! {

/// The byte offset of the character at `at` of a text: the number of
/// bytes that encode the characters before it.
pub open spec fn offset(text: Seq<char>, at: int) -> int {
    encode_utf8(text.take(at)).len() as int
}

/// Whether the byte stands for an ASCII character.
pub open spec fn is_ascii_byte(byte: u8) -> bool {
    byte < 0x80
}

/// In valid UTF-8 a character begins at every ASCII byte.
pub proof fn lemma_boundary_at_ascii(bytes: Seq<u8>, pos: int)
    requires
        valid_utf8(bytes),
        0 <= pos < bytes.len(),
        is_ascii_byte(bytes[pos]),
    ensures
        is_char_boundary(bytes, pos),
{
    is_char_boundary_iff_not_is_continuation_byte(bytes, pos);
}

/// In valid UTF-8 a character ends with every ASCII byte: the place behind
/// it is a boundary.
pub proof fn lemma_boundary_behind_ascii(bytes: Seq<u8>, pos: int)
    requires
        valid_utf8(bytes),
        0 < pos <= bytes.len(),
        is_ascii_byte(bytes[pos - 1]),
    ensures
        is_char_boundary(bytes, pos),
{
    if pos == bytes.len() {
        is_char_boundary_start_end_of_seq(bytes);
    } else {
        lemma_boundary_at_ascii(bytes, pos - 1);
        valid_utf8_split(bytes, pos - 1);
        let tail = bytes.subrange(pos - 1, bytes.len() as int);
        assert(tail[0] == bytes[pos - 1]);
        assert(valid_first_scalar(tail) && valid_utf8(pop_first_scalar(tail)));
        assert(length_of_first_scalar(tail) == 1);
        let rest = bytes.subrange(pos, bytes.len() as int);
        assert(pop_first_scalar(tail) =~= rest);
        assert(valid_first_scalar(rest));
        assert(rest[0] == bytes[pos]);
        assert(!is_continuation_byte(bytes[pos]));
        is_char_boundary_iff_not_is_continuation_byte(bytes, pos);
    }
}

/// A boundary of the whole text that lies in a prefix of it is a boundary
/// of the prefix.
pub proof fn lemma_boundary_in_prefix(bytes: Seq<u8>, pos: int, end: int)
    requires
        valid_utf8(bytes),
        0 <= pos <= end <= bytes.len(),
        is_char_boundary(bytes, pos),
        is_char_boundary(bytes, end),
    ensures
        valid_utf8(bytes.subrange(0, end)),
        is_char_boundary(bytes.subrange(0, end), pos),
{
    valid_utf8_split(bytes, end);
    let head = bytes.subrange(0, end);
    if pos == end {
        is_char_boundary_start_end_of_seq(head);
    } else {
        is_char_boundary_iff_not_is_continuation_byte(bytes, pos);
        assert(head[pos] == bytes[pos]);
        is_char_boundary_iff_not_is_continuation_byte(head, pos);
    }
}

/// Calls `String::push`.  The contract claims what the documentation of
/// `push` says: the character is appended to the end of the string, and
/// nothing else of it changes.
#[verifier::external_body]
pub(crate) fn push_char(text: &mut String, c: char)
    ensures
        final(text)@ == old(text)@.push(c),
{
    text.push(c);
}

/// Tells whether two texts hold the same characters.
pub fn same_text(left: &str, right: &str) -> (same: bool)
    ensures
        same == (left@ == right@),
{
    broadcast use encode_utf8_decode_utf8;

    let a = left.as_bytes();
    let b = right.as_bytes();
    if a.len() != b.len() {
        return false;
    }
    let mut i: usize = 0;
    while i < a.len()
        invariant
            a@.len() == b@.len(),
            i <= a@.len(),
            a@ == left.spec_bytes(),
            b@ == right.spec_bytes(),
            forall|k: int| 0 <= k < i ==> a@[k] == b@[k],
        decreases a@.len() - i,
    {
        if a[i] != b[i] {
            return false;
        }
        i += 1;
    }
    assert(a@ =~= b@);
    assert(decode_utf8(encode_utf8(left@)) == decode_utf8(encode_utf8(right@)));
    true
}

/// The part of the text between two character boundaries.
pub fn substring<'a>(text: &'a str, start: usize, end: usize) -> (part: &'a str)
    requires
        start <= end <= text.spec_bytes().len(),
        is_char_boundary(text.spec_bytes(), start as int),
        is_char_boundary(text.spec_bytes(), end as int),
    ensures
        part.spec_bytes() == text.spec_bytes().subrange(start as int, end as int),
        part@ == decode_utf8(text.spec_bytes().subrange(start as int, end as int)),
{
    broadcast use encode_utf8_valid_utf8, encode_utf8_decode_utf8;

    let (head, _) = text.split_at(end);
    proof {
        lemma_boundary_in_prefix(text.spec_bytes(), start as int, end as int);
    }
    let (_, part) = head.split_at(start);
    assert(part.spec_bytes() =~= text.spec_bytes().subrange(start as int, end as int));
    part
}

} // verus!
