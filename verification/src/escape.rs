//! The punctuation escaper: the display text of a math expression.
//!
//! A Markdown renderer reads a backslash before an ASCII punctuation
//! character as that character without its special meaning.  Escaping every
//! punctuation character of a math expression therefore keeps the renderer
//! from taking a `-` for a list marker or `[a](b)` for a link, while the
//! text that it hands on is the expression as it was written.

use crate::text::push_char;
use vstd::prelude::*;
use vstd::string::*;

verus! {

/// Whether the character is ASCII punctuation, as CommonMark defines it:
/// one of ``! " # $ % & ' ( ) * + , - . / : ; < = > ? @ [ \ ] ^ _ ` { | } ~``.
pub open spec fn is_ascii_punctuation(c: char) -> bool {
    ||| '!' <= c <= '/'
    ||| ':' <= c <= '@'
    ||| '[' <= c <= '`'
    ||| '{' <= c <= '~'
}

/// Whether the character is ASCII punctuation.
pub fn is_punctuation(c: char) -> (punctuation: bool)
    ensures
        punctuation == is_ascii_punctuation(c),
{
    ('!' <= c && c <= '/') || (':' <= c && c <= '@') || ('[' <= c && c <= '`') || ('{' <= c && c
        <= '~')
}

/// The display text of one character: a punctuation character behind a
/// backslash, any other character alone.
pub open spec fn escaped_char(c: char) -> Seq<char> {
    if is_ascii_punctuation(c) {
        seq!['\\', c]
    } else {
        seq![c]
    }
}

/// The display text of a math expression: the expression with a backslash
/// put before each of its ASCII punctuation characters.
pub open spec fn escaped(math: Seq<char>) -> Seq<char>
    decreases math.len(),
{
    if math.len() == 0 {
        seq![]
    } else {
        escaped_char(math[0]) + escaped(math.drop_first())
    }
}

/// Escaping goes through a text piece by piece.
pub proof fn lemma_escaped_concat(left: Seq<char>, right: Seq<char>)
    ensures
        escaped(left + right) == escaped(left) + escaped(right),
    decreases left.len(),
{
    if left.len() == 0 {
        assert(left + right =~= right);
    } else {
        lemma_escaped_concat(left.drop_first(), right);
        assert((left + right).drop_first() =~= left.drop_first() + right);
        assert(escaped(left + right) =~= escaped(left) + escaped(right));
    }
}

/// Escaping one more character appends its display text.
pub proof fn lemma_escaped_push(math: Seq<char>, c: char)
    ensures
        escaped(math.push(c)) == escaped(math) + escaped_char(c),
{
    lemma_escaped_concat(math, seq![c]);
    assert(seq![c].drop_first() =~= Seq::<char>::empty());
    assert(escaped(Seq::<char>::empty()) =~= Seq::<char>::empty());
    assert(escaped(seq![c]) =~= escaped_char(c));
    assert(math.push(c) =~= math + seq![c]);
}

/// What a Markdown renderer reads from a text with backslash escapes: a
/// backslash before an ASCII punctuation character stands for that
/// character, and every other character for itself.
pub open spec fn unescaped(display: Seq<char>) -> Seq<char>
    decreases display.len(),
{
    if display.len() == 0 {
        seq![]
    } else if display[0] == '\\' && display.len() >= 2 && is_ascii_punctuation(display[1]) {
        seq![display[1]] + unescaped(display.skip(2))
    } else {
        seq![display[0]] + unescaped(display.drop_first())
    }
}

/// The renderer reads the display text of a math expression as the
/// expression itself: none of the backslashes that escaping put in reaches
/// the math typesetter.
pub proof fn lemma_unescaped_escaped(math: Seq<char>)
    ensures
        unescaped(escaped(math)) == math,
    decreases math.len(),
{
    if math.len() > 0 {
        let c = math[0];
        let rest = escaped(math.drop_first());
        let display = escaped(math);
        lemma_unescaped_escaped(math.drop_first());
        if is_ascii_punctuation(c) {
            assert(display.skip(2) =~= rest);
        } else {
            assert(display.drop_first() =~= rest);
        }
        assert(unescaped(display) =~= seq![c] + math.drop_first());
        assert(seq![c] + math.drop_first() =~= math);
    }
}

/// Escapes the math expression for display: puts a backslash before each
/// of its ASCII punctuation characters.
pub fn escape_for_display(math: &str) -> (display: String)
    ensures
        display@ == escaped(math@),
{
    let mut display = String::new();
    for c in it: math.chars()
        invariant
            it.seq() == math@,
            display@ == escaped(math@.take(it.index())),
    {
        proof {
            lemma_escaped_push(math@.take(it.index()), c);
            assert(math@.take(it.index() + 1) =~= math@.take(it.index()).push(c));
        }
        if is_punctuation(c) {
            push_char(&mut display, '\\');
        }
        push_char(&mut display, c);
    }
    assert(math@.take(math@.len() as int) =~= math@);
    display
}

} // verus!
