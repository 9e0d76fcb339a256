//! Text as sequences of characters, and the byte offsets of its UTF-8 encoding.
//!
//! Anchors and markers are stored as byte offsets, while the text itself is read
//! character by character. This module holds the model that connects the two,
//! together with the string operations that the rest of the library is built from.
use vstd::prelude::*;
use vstd::string::*;
use vstd::utf8::*;

verus! {

/// `String::push`: appends one character and changes nothing else.
pub assume_specification[ String::push ](string: &mut String, ch: char)
    ensures
        final(string)@ == old(string)@.push(ch),
;

// ---------------------------------------------------------------------------
// Widths and byte offsets
// ---------------------------------------------------------------------------
/// The number of bytes of the UTF-8 encoding of a character.
pub open spec fn char_width(ch: char) -> nat {
    if (ch as u32) < 0x80 {
        1
    } else if (ch as u32) < 0x800 {
        2
    } else if (ch as u32) < 0x10000 {
        3
    } else {
        4
    }
}

/// The number of bytes of the UTF-8 encoding of a text.
pub open spec fn byte_len(text: Seq<char>) -> nat {
    encode_utf8(text).len()
}

/// The byte offset at which the character with index `index` starts.
pub open spec fn byte_pos(text: Seq<char>, index: int) -> int {
    byte_len(text.take(index)) as int
}

/// Whether a byte offset lies between two characters, or at either end of the text.
pub open spec fn is_boundary(text: Seq<char>, offset: int) -> bool {
    exists|index: int| 0 <= index <= text.len() && #[trigger] byte_pos(text, index) == offset
}

/// The number of characters that end at or before a byte offset: the index of the
/// character that covers the offset, or the number of characters when none does.
pub open spec fn char_index(text: Seq<char>, offset: int) -> int
    decreases text.len(),
{
    if text.len() == 0 || byte_len(text) <= offset {
        text.len() as int
    } else {
        char_index(text.drop_last(), offset)
    }
}

/// The greatest boundary at or before a byte offset.
pub open spec fn floor_boundary(text: Seq<char>, offset: int) -> int {
    byte_pos(text, char_index(text, offset))
}

/// The end of the character that covers a byte offset; the end of the text when the
/// offset lies at or beyond it.
pub open spec fn char_end(text: Seq<char>, offset: int) -> int {
    if char_index(text, offset) < text.len() {
        byte_pos(text, char_index(text, offset) + 1)
    } else {
        byte_len(text) as int
    }
}

/// The least boundary at or after a byte offset; the end of the text when the offset
/// lies beyond it.
pub open spec fn ceil_boundary(text: Seq<char>, offset: int) -> int {
    if floor_boundary(text, offset) == offset {
        offset
    } else {
        char_end(text, offset)
    }
}

pub proof fn lemma_byte_len_push(text: Seq<char>, ch: char)
    ensures
        byte_len(text.push(ch)) == byte_len(text) + char_width(ch),
    decreases text.len(),
{
    if text.len() == 0 {
        assert(text.push(ch).drop_first() =~= Seq::<char>::empty());
        reveal_with_fuel(encode_utf8, 2);
    } else {
        assert(text.push(ch).drop_first() =~= text.drop_first().push(ch));
        lemma_byte_len_push(text.drop_first(), ch);
    }
}

/// The byte length of a concatenation is the sum of the byte lengths.
pub proof fn lemma_byte_len_add(a: Seq<char>, b: Seq<char>)
    ensures
        byte_len(a + b) == byte_len(a) + byte_len(b),
    decreases b.len(),
{
    if b.len() == 0 {
        assert(a + b =~= a);
    } else {
        assert(a + b =~= (a + b.drop_last()).push(b.last()));
        lemma_byte_len_push(a + b.drop_last(), b.last());
        lemma_byte_len_add(a, b.drop_last());
        assert(b =~= b.drop_last().push(b.last()));
        lemma_byte_len_push(b.drop_last(), b.last());
    }
}

pub proof fn lemma_byte_pos_ends(text: Seq<char>)
    ensures
        byte_pos(text, 0) == 0,
        byte_pos(text, text.len() as int) == byte_len(text),
{
    assert(text.take(0) =~= Seq::<char>::empty());
    assert(text.take(text.len() as int) =~= text);
}

pub proof fn lemma_byte_pos_step(text: Seq<char>, index: int)
    requires
        0 <= index < text.len(),
    ensures
        byte_pos(text, index + 1) == byte_pos(text, index) + char_width(text[index]),
{
    assert(text.take(index + 1) =~= text.take(index).push(text[index]));
    lemma_byte_len_push(text.take(index), text[index]);
}

/// Byte offsets of characters grow strictly with the index.
pub proof fn lemma_byte_pos_grows(text: Seq<char>, low: int, high: int)
    requires
        0 <= low <= high <= text.len(),
    ensures
        byte_pos(text, low) + (high - low) <= byte_pos(text, high),
        byte_pos(text, high) <= byte_len(text),
        0 <= byte_pos(text, low),
    decreases text.len() - low,
{
    lemma_byte_pos_ends(text);
    if low < high {
        lemma_byte_pos_step(text, low);
        lemma_byte_pos_grows(text, low + 1, high);
    } else if low < text.len() {
        lemma_byte_pos_step(text, low);
        lemma_byte_pos_grows(text, low + 1, text.len() as int);
    }
}

/// A prefix keeps the byte offsets of the text that it was taken from.
pub proof fn lemma_byte_pos_take(text: Seq<char>, count: int, index: int)
    requires
        0 <= index <= count <= text.len(),
    ensures
        byte_pos(text.take(count), index) == byte_pos(text, index),
{
    assert(text.take(count).take(index) =~= text.take(index));
}

/// The character index of an offset is the one index whose character covers it.
pub proof fn lemma_char_index(text: Seq<char>, offset: int)
    requires
        0 <= offset,
    ensures
        0 <= char_index(text, offset) <= text.len(),
        byte_pos(text, char_index(text, offset)) <= offset,
        char_index(text, offset) < text.len() ==> offset < byte_pos(
            text,
            char_index(text, offset) + 1,
        ),
        char_index(text, offset) == text.len() <==> byte_len(text) <= offset,
    decreases text.len(),
{
    lemma_byte_pos_ends(text);
    if text.len() == 0 || byte_len(text) <= offset {
    } else {
        let head = text.drop_last();
        lemma_char_index(head, offset);
        let index = char_index(head, offset);
        assert(head =~= text.take(text.len() - 1));
        lemma_byte_pos_take(text, text.len() - 1, index);
        if index < head.len() {
            lemma_byte_pos_take(text, text.len() - 1, index + 1);
        }
    }
}

/// An index whose character covers the offset is the character index of the offset.
pub proof fn lemma_char_index_unique(text: Seq<char>, offset: int, index: int)
    requires
        0 <= index <= text.len(),
        byte_pos(text, index) <= offset,
        index < text.len() ==> offset < byte_pos(text, index + 1),
    ensures
        char_index(text, offset) == index,
{
    lemma_byte_pos_grows(text, 0, index);
    lemma_byte_pos_ends(text);
    lemma_char_index(text, offset);
    let found = char_index(text, offset);
    if found < index {
        lemma_byte_pos_grows(text, found + 1, index);
    } else if index < found {
        lemma_byte_pos_grows(text, index + 1, found);
    }
}

/// The start of every character is a boundary that stands for itself.
pub proof fn lemma_char_index_of_pos(text: Seq<char>, index: int)
    requires
        0 <= index <= text.len(),
    ensures
        char_index(text, byte_pos(text, index)) == index,
        is_boundary(text, byte_pos(text, index)),
{
    if index < text.len() {
        lemma_byte_pos_grows(text, index, index + 1);
    }
    lemma_char_index_unique(text, byte_pos(text, index), index);
}

/// `floor_boundary` is the greatest boundary that is not after the offset.
pub proof fn law_floor_boundary(text: Seq<char>, offset: int)
    requires
        0 <= offset,
    ensures
        is_boundary(text, floor_boundary(text, offset)),
        floor_boundary(text, offset) <= offset,
        forall|other: int| #[trigger]
            is_boundary(text, other) && other <= offset ==> other <= floor_boundary(text, offset),
{
    lemma_char_index(text, offset);
    lemma_char_index_of_pos(text, char_index(text, offset));
    assert forall|other: int| #[trigger]
        is_boundary(text, other) && other <= offset implies other <= floor_boundary(
        text,
        offset,
    ) by {
        let index = choose|index: int|
            0 <= index <= text.len() && #[trigger] byte_pos(text, index) == other;
        let found = char_index(text, offset);
        if found < index {
            lemma_byte_pos_grows(text, found + 1, index);
        } else {
            lemma_byte_pos_grows(text, index, found);
        }
    }
}

/// `ceil_boundary` is the least boundary that is not before the offset, for offsets
/// inside the text.
pub proof fn law_ceil_boundary(text: Seq<char>, offset: int)
    requires
        0 <= offset <= byte_len(text),
    ensures
        is_boundary(text, ceil_boundary(text, offset)),
        offset <= ceil_boundary(text, offset) <= byte_len(text),
        forall|other: int| #[trigger]
            is_boundary(text, other) && offset <= other ==> ceil_boundary(text, offset) <= other,
{
    lemma_char_index(text, offset);
    lemma_byte_pos_ends(text);
    let found = char_index(text, offset);
    lemma_char_index_of_pos(text, found);
    if found < text.len() {
        lemma_char_index_of_pos(text, found + 1);
        lemma_byte_pos_grows(text, found + 1, text.len() as int);
    }
    assert forall|other: int| #[trigger]
        is_boundary(text, other) && offset <= other implies ceil_boundary(text, offset)
        <= other by {
        let index = choose|index: int|
            0 <= index <= text.len() && #[trigger] byte_pos(text, index) == other;
        if index <= found {
            lemma_byte_pos_grows(text, index, found);
        } else {
            lemma_byte_pos_grows(text, found + 1, index);
        }
    }
}

/// `char_end` is the least boundary strictly after the offset, for offsets inside the
/// text.
pub proof fn law_char_end(text: Seq<char>, offset: int)
    requires
        0 <= offset < byte_len(text),
    ensures
        is_boundary(text, char_end(text, offset)),
        offset < char_end(text, offset) <= byte_len(text),
        char_end(text, offset) <= floor_boundary(text, offset) + 4,
        forall|other: int| #[trigger]
            is_boundary(text, other) && offset < other ==> char_end(text, offset) <= other,
{
    lemma_char_index(text, offset);
    lemma_byte_pos_ends(text);
    let found = char_index(text, offset);
    lemma_byte_pos_step(text, found);
    lemma_char_index_of_pos(text, found + 1);
    lemma_byte_pos_grows(text, found + 1, text.len() as int);
    assert forall|other: int| #[trigger]
        is_boundary(text, other) && offset < other implies char_end(text, offset) <= other by {
        let index = choose|index: int|
            0 <= index <= text.len() && #[trigger] byte_pos(text, index) == other;
        if index <= found {
            lemma_byte_pos_grows(text, index, found);
        } else {
            lemma_byte_pos_grows(text, found + 1, index);
        }
    }
}

// ---------------------------------------------------------------------------
// Reading texts
// ---------------------------------------------------------------------------
/// The characters of a text.
pub fn to_chars(text: &str) -> (chars: Vec<char>)
    ensures
        chars@ == text@,
{
    let mut chars: Vec<char> = Vec::new();
    for ch in it: text.chars()
        invariant
            chars@ == text@.take(it.index() as int),
            it.seq() == text@,
    {
        chars.push(ch);
    }
    assert(text@.take(text@.len() as int) =~= text@);
    chars
}

/// The text made of the characters from `start` up to `end`.
pub fn to_text(chars: &[char], start: usize, end: usize) -> (text: String)
    requires
        start <= end <= chars@.len(),
    ensures
        text@ == chars@.subrange(start as int, end as int),
{
    let mut text = String::new();
    let mut index: usize = start;
    while index < end
        invariant
            start <= index <= end <= chars@.len(),
            text@ =~= chars@.subrange(start as int, index as int),
        decreases end - index,
    {
        text.push(chars[index]);
        index = index + 1;
    }
    text
}

/// The number of bytes of a text.
pub fn byte_count(text: &str) -> (count: usize)
    ensures
        count == byte_len(text@),
{
    text.as_bytes().len()
}

/// The number of bytes of a character.
pub fn width_of(ch: char) -> (width: usize)
    ensures
        width == char_width(ch),
{
    let code: u32 = ch as u32;
    if code < 0x80 {
        1
    } else if code < 0x800 {
        2
    } else if code < 0x10000 {
        3
    } else {
        4
    }
}

/// The index of the character that covers a byte offset and the offset at which it
/// starts; the number of characters and the length of the text when none does.
pub fn locate_char(chars: &[char], total: usize, offset: usize) -> (found: (usize, usize))
    requires
        total == byte_len(chars@),
    ensures
        found.0 == char_index(chars@, offset as int),
        found.1 == floor_boundary(chars@, offset as int),
{
    let mut index: usize = 0;
    let mut pos: usize = 0;
    proof {
        lemma_byte_pos_ends(chars@);
    }
    while index < chars.len()
        invariant
            index <= chars@.len(),
            pos == byte_pos(chars@, index as int),
            pos <= offset,
            total == byte_len(chars@),
        decreases chars@.len() - index,
    {
        proof {
            lemma_byte_pos_step(chars@, index as int);
            lemma_byte_pos_grows(chars@, index as int + 1, chars@.len() as int);
        }
        let next: usize = pos + width_of(chars[index]);
        if offset < next {
            proof {
                lemma_char_index_unique(chars@, offset as int, index as int);
            }
            return (index, pos);
        }
        pos = next;
        index = index + 1;
    }
    proof {
        lemma_char_index_unique(chars@, offset as int, index as int);
    }
    (index, pos)
}

} // verus!
