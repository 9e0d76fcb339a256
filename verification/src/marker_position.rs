//! Where the anchor of a child branch lies in the displayed lines of its reply.
//!
//! An anchor names a byte of the reply's markdown. The displayed lines are rendered from
//! that markdown, so a place is found by rendering what stands before the anchor.
use crate::anchor;
use crate::line_split::next_char_boundary;
use crate::pending_marker::PendingDirectChildBranchMarker;
use crate::responses;
use crate::responses::normalize_search_source_line;
use crate::strings;
use crate::strings::{is_whitespace, same_text, split_lines, starts_with, trim};
use crate::styled;
use crate::styled::{render_markdown_to_plain_lines, Line};
use crate::text;
use crate::text::{byte_count, locate_char, to_chars, to_text, width_of};
use vstd::prelude::*;
use vstd::string::*;

verus! {

// ---------------------------------------------------------------------------
// Places in the markdown
// ---------------------------------------------------------------------------
/// The byte of the whole text that an anchor names: an offset of a segment, or of the
/// text itself where it has no segments.
pub open spec fn absolute_offset(
    segments: Option<Seq<Seq<char>>>,
    line_index: int,
    byte_offset: int,
) -> Option<int> {
    match segments {
        None => if line_index == 0 {
            Some(byte_offset)
        } else {
            None
        },
        Some(segments) => if line_index < segments.len() && byte_offset <= text::byte_len(
            segments[line_index],
        ) && anchor::absolute_anchor(segments, line_index, byte_offset) <= usize::MAX {
            Some(anchor::absolute_anchor(segments, line_index, byte_offset))
        } else {
            None
        },
    }
}

/// The byte of the whole text that an anchor names. A byte behind all that the machine can
/// count is not named.
pub fn absolute_marker_byte_offset(
    source_segments: Option<&[String]>,
    marker: &PendingDirectChildBranchMarker,
) -> (offset: Option<usize>)
    ensures
        match offset {
            Some(offset) => absolute_offset(
                anchor::opt_slice(source_segments),
                marker.source_line_index as int,
                marker.source_byte_offset as int,
            ) == Some(offset as int),
            None => absolute_offset(
                anchor::opt_slice(source_segments),
                marker.source_line_index as int,
                marker.source_byte_offset as int,
            ) is None,
        },
{
    let source_line_index: usize = marker.source_line_index;
    let source_byte_offset: usize = marker.source_byte_offset;
    let segments = match source_segments {
        Some(segments) => segments,
        None => {
            return if source_line_index == 0 {
                Some(source_byte_offset)
            } else {
                None
            };
        },
    };
    let ghost all = strings::texts(segments@);
    if source_line_index >= segments.len() || source_byte_offset > byte_count(
        segments[source_line_index].as_str(),
    ) {
        return None;
    }
    let mut start: usize = 0;
    let mut index: usize = 0;
    assert(all.take(0) =~= Seq::<Seq<char>>::empty());
    while index < source_line_index
        invariant
            index <= source_line_index < segments@.len(),
            source_line_index == marker.source_line_index,
            source_byte_offset == marker.source_byte_offset,
            all == strings::texts(segments@),
            anchor::opt_slice(source_segments) == Some(all),
            start == text::byte_len(strings::concatenated(all.take(index as int))),
        decreases source_line_index - index,
    {
        proof {
            let next = all.take(index as int + 1);
            assert(next.drop_last() =~= all.take(index as int));
            assert(next.last() == segments@[index as int]@);
            text::lemma_byte_len_add(
                strings::concatenated(all.take(index as int)),
                next.last(),
            );
            lemma_parts_grow(all, index as int + 1, source_line_index as int);
        }
        start = match start.checked_add(byte_count(segments[index].as_str())) {
            Some(start) => start,
            None => return None,
        };
        index = index + 1;
    }
    start.checked_add(source_byte_offset)
}

proof fn lemma_parts_grow(parts: Seq<Seq<char>>, low: int, high: int)
    requires
        0 <= low <= high <= parts.len(),
    ensures
        text::byte_len(strings::concatenated(parts.take(low))) <= text::byte_len(
            strings::concatenated(parts.take(high)),
        ),
    decreases high,
{
    if low < high {
        lemma_parts_grow(parts, low, high - 1);
        let taken = parts.take(high);
        assert(taken.drop_last() =~= parts.take(high - 1));
        text::lemma_byte_len_add(strings::concatenated(parts.take(high - 1)), taken.last());
    }
}

/// The end of what stands up to and including a byte of a text. A newline is not taken in.
pub open spec fn exclusive_end(raw: Seq<char>, offset: int) -> int {
    if text::char_index(raw, offset) < raw.len() && raw[text::char_index(raw, offset)] == '\n' {
        offset
    } else {
        text::char_end(raw, offset)
    }
}

/// The end of what stands up to and including a byte of a text.
pub fn exclusive_marker_byte_offset(raw_chunk: &str, absolute_byte_offset: usize) -> (end: usize)
    ensures
        end == exclusive_end(raw_chunk@, absolute_byte_offset as int),
{
    let chars = to_chars(raw_chunk);
    let total: usize = byte_count(raw_chunk);
    let found = locate_char(&chars, total, absolute_byte_offset);
    proof {
        text::lemma_char_index(raw_chunk@, absolute_byte_offset as int);
    }
    if found.0 >= chars.len() {
        return total;
    }
    if chars[found.0] == '\n' {
        return absolute_byte_offset;
    }
    proof {
        text::lemma_byte_pos_step(raw_chunk@, found.0 as int);
        text::lemma_byte_pos_grows(raw_chunk@, found.0 as int + 1, raw_chunk@.len() as int);
    }
    found.1 + width_of(chars[found.0])
}

/// The first line that reaches up to a byte, and the offset of the byte there. The end of
/// a line belongs to it.
pub open spec fn line_position(lines: Seq<Seq<char>>, offset: int) -> Option<(int, int)>
    decreases lines.len(),
{
    if lines.len() == 0 {
        None
    } else {
        let start = anchor::line_start(lines, lines.len() - 1);
        match line_position(lines.drop_last(), offset) {
            Some(found) => Some(found),
            None => if offset <= start + text::byte_len(lines.last()) {
                Some((lines.len() - 1, offset - start))
            } else {
                None
            },
        }
    }
}

proof fn lemma_line_start_same(lines: Seq<Seq<char>>, count: int, index: int)
    requires
        0 <= index <= count <= lines.len(),
    ensures
        anchor::line_start(lines.take(count), index) == anchor::line_start(lines, index),
    decreases index,
{
    if index > 0 {
        lemma_line_start_same(lines, count, index - 1);
    }
}

/// The line and the offset of a byte name that byte, and every byte up to the end of the
/// last line has them.
pub proof fn law_line_position_names_the_byte(lines: Seq<Seq<char>>, offset: int)
    requires
        0 <= offset,
        lines.len() > 0,
    ensures
        line_position(lines, offset) is Some <==> offset <= anchor::line_start(
            lines,
            lines.len() - 1,
        ) + text::byte_len(lines.last()),
        match line_position(lines, offset) {
            Some((index, inner)) => {
                &&& 0 <= index < lines.len()
                &&& 0 <= inner <= text::byte_len(lines[index])
                &&& anchor::line_start(lines, index) + inner == offset
            },
            None => true,
        },
    decreases lines.len(),
{
    let head = lines.drop_last();
    assert(head =~= lines.take(lines.len() - 1));
    if head.len() > 0 {
        law_line_position_names_the_byte(head, offset);
        lemma_line_start_same(lines, head.len() as int, head.len() - 1);
        if let Some((index, _)) = line_position(head, offset) {
            lemma_line_start_same(lines, head.len() as int, index);
        }
    } else {
        assert(anchor::line_start(lines, 0) == 0);
    }
}

/// The line of a text that holds a byte, and the offset of the byte there.
pub fn raw_line_position_for_absolute_byte_offset(
    raw_chunk: &str,
    absolute_byte_offset: usize,
) -> (position: Option<(usize, usize)>)
    ensures
        match position {
            Some(found) => line_position(
                strings::split_at_newlines(raw_chunk@),
                absolute_byte_offset as int,
            ) == Some((found.0 as int, found.1 as int)),
            None => line_position(
                strings::split_at_newlines(raw_chunk@),
                absolute_byte_offset as int,
            ) is None,
        },
{
    let lines = split_lines(raw_chunk);
    let ghost all = strings::split_at_newlines(raw_chunk@);
    let mut remaining: usize = absolute_byte_offset;
    let mut index: usize = 0;
    assert(all.take(0) =~= Seq::<Seq<char>>::empty());
    assert(strings::texts(lines@).len() == lines@.len());
    while index < lines.len()
        invariant
            index <= lines@.len(),
            all == strings::texts(lines@),
            all == strings::split_at_newlines(raw_chunk@),
            remaining + anchor::line_start(all, index as int) == absolute_byte_offset,
            line_position(all.take(index as int), absolute_byte_offset as int) is None,
        decreases lines@.len() - index,
    {
        let length: usize = byte_count(lines[index].as_str());
        proof {
            let taken = all.take(index as int + 1);
            assert(taken.drop_last() =~= all.take(index as int));
            assert(taken.last() == lines@[index as int]@);
            lemma_line_start_same(all, index as int + 1, index as int);
        }
        if remaining <= length {
            proof {
                lemma_line_position_stays(all, index as int + 1, absolute_byte_offset as int);
            }
            return Some((index, remaining));
        }
        remaining = remaining - length - 1;
        index = index + 1;
    }
    assert(all.take(lines@.len() as int) =~= all);
    None
}

proof fn lemma_line_position_stays(lines: Seq<Seq<char>>, count: int, offset: int)
    requires
        0 <= count <= lines.len(),
        line_position(lines.take(count), offset) is Some,
    ensures
        line_position(lines, offset) == line_position(lines.take(count), offset),
    decreases lines.len(),
{
    if count == lines.len() {
        assert(lines.take(count) =~= lines);
    } else {
        assert(lines.drop_last().take(count) =~= lines.take(count));
        lemma_line_position_stays(lines.drop_last(), count, offset);
    }
}

// ---------------------------------------------------------------------------
// Displayed lines
// ---------------------------------------------------------------------------
/// A line as it is recognized: without emphasis and code marks, and trimmed.
pub open spec fn marker_line_text(line: Seq<char>) -> Seq<char> {
    strings::trimmed(responses::search_line(line))
}

/// The first displayed line that is recognized as a line of the markdown.
pub open spec fn display_line(lines: Seq<Seq<char>>, raw_line: Seq<char>) -> Option<int>
    decreases lines.len(),
{
    if lines.len() == 0 {
        None
    } else {
        match display_line(lines.drop_last(), raw_line) {
            Some(index) => Some(index),
            None => if marker_line_text(lines.last()) == marker_line_text(raw_line) {
                Some(lines.len() - 1)
            } else {
                None
            },
        }
    }
}

/// A line as it is recognized.
pub fn normalize_marker_source_line(line: &str) -> (rest: String)
    ensures
        rest@ == marker_line_text(line@),
{
    let rest = normalize_search_source_line(line);
    trim(rest.as_str())
}

/// The first displayed line that is recognized as a line of the markdown.
pub fn display_line_index_for_raw_line(source_lines: &[String], raw_line: &str) -> (found: Option<
    usize,
>)
    ensures
        match found {
            Some(index) => display_line(strings::texts(source_lines@), raw_line@) == Some(
                index as int,
            ),
            None => display_line(strings::texts(source_lines@), raw_line@) is None,
        },
{
    let ghost all = strings::texts(source_lines@);
    let normalized_raw_line = normalize_marker_source_line(raw_line);
    let mut index: usize = 0;
    assert(all.take(0) =~= Seq::<Seq<char>>::empty());
    while index < source_lines.len()
        invariant
            index <= source_lines@.len(),
            all == strings::texts(source_lines@),
            normalized_raw_line@ == marker_line_text(raw_line@),
            display_line(all.take(index as int), raw_line@) is None,
        decreases source_lines@.len() - index,
    {
        let line = normalize_marker_source_line(source_lines[index].as_str());
        proof {
            let taken = all.take(index as int + 1);
            assert(taken.drop_last() =~= all.take(index as int));
            assert(taken.last() == source_lines@[index as int]@);
        }
        if same_text(line.as_str(), normalized_raw_line.as_str()) {
            proof {
                lemma_display_line_stays(all, index as int + 1, raw_line@);
            }
            return Some(index);
        }
        index = index + 1;
    }
    assert(all.take(source_lines@.len() as int) =~= all);
    None
}

proof fn lemma_display_line_stays(lines: Seq<Seq<char>>, count: int, raw_line: Seq<char>)
    requires
        0 <= count <= lines.len(),
        display_line(lines.take(count), raw_line) is Some,
    ensures
        display_line(lines, raw_line) == display_line(lines.take(count), raw_line),
    decreases lines.len(),
{
    if count == lines.len() {
        assert(lines.take(count) =~= lines);
    } else {
        assert(lines.drop_last().take(count) =~= lines.take(count));
        lemma_display_line_stays(lines.drop_last(), count, raw_line);
    }
}

proof fn lemma_display_line(lines: Seq<Seq<char>>, raw_line: Seq<char>)
    ensures
        match display_line(lines, raw_line) {
            Some(index) => 0 <= index < lines.len(),
            None => true,
        },
    decreases lines.len(),
{
    if lines.len() > 0 {
        lemma_display_line(lines.drop_last(), raw_line);
    }
}

/// The last line of a rendered text; nothing where there is none.
pub open spec fn last_rendered(
    source: Seq<char>,
    model: spec_fn(Seq<char>) -> Seq<styled::LineView>,
) -> Seq<char> {
    let lines = styled::plain_lines(model(source));
    if lines.len() == 0 {
        Seq::<char>::empty()
    } else {
        lines.last()
    }
}

/// A text up to the least boundary at or after an offset.
pub open spec fn text_up_to(source: Seq<char>, offset: int) -> Seq<char> {
    source.take(text::char_index(source, text::ceil_boundary(source, offset)))
}

/// The offset in a displayed line of a byte of the line of the markdown: behind what the
/// text before the byte renders to, where the displayed line starts with that.
pub open spec fn display_offset(
    raw_line: Seq<char>,
    displayed: Seq<char>,
    offset: int,
    model: spec_fn(Seq<char>) -> Seq<styled::LineView>,
) -> Option<int> {
    let rendered = last_rendered(text_up_to(raw_line, offset), model);
    if rendered.is_prefix_of(displayed) {
        Some(text::byte_len(rendered) as int)
    } else {
        None
    }
}

/// A text up to a boundary.
fn head_of(source: &str, end: usize) -> (head: String)
    ensures
        head@ == source@.take(text::char_index(source@, end as int)),
{
    let chars = to_chars(source);
    let index: usize = locate_char(&chars, byte_count(source), end).0;
    proof {
        text::lemma_char_index(source@, end as int);
    }
    let head = to_text(&chars, 0, index);
    assert(head@ =~= source@.take(index as int));
    head
}

/// The offset in a displayed line of a byte of the line of the markdown.
pub fn display_byte_offset_for_raw_line_anchor<F: Fn(&str) -> Vec<Line>>(
    raw_line: &str,
    display_line: &str,
    raw_source_byte_offset: usize,
    append_markdown: &F,
) -> (offset: Option<usize>)
    requires
        styled::is_renderer(*append_markdown),
    ensures
        forall|model: spec_fn(Seq<char>) -> Seq<styled::LineView>| #[trigger]
            styled::renders_as(*append_markdown, model) ==> match offset {
                Some(offset) => display_offset(
                    raw_line@,
                    display_line@,
                    raw_source_byte_offset as int,
                    model,
                ) == Some(offset as int),
                None => display_offset(
                    raw_line@,
                    display_line@,
                    raw_source_byte_offset as int,
                    model,
                ) is None,
            },
{
    let raw_prefix_end: usize = next_char_boundary(raw_line, raw_source_byte_offset);
    let raw_prefix = head_of(raw_line, raw_prefix_end);
    let rendered_prefix_lines = render_markdown_to_plain_lines(
        raw_prefix.as_str(),
        append_markdown,
    );
    let count: usize = rendered_prefix_lines.len();
    let rendered_prefix = if count > 0 {
        rendered_prefix_lines[count - 1].clone()
    } else {
        String::new()
    };
    assert forall|model: spec_fn(Seq<char>) -> Seq<styled::LineView>| #[trigger]
        styled::renders_as(*append_markdown, model) implies rendered_prefix@ == last_rendered(
        text_up_to(raw_line@, raw_source_byte_offset as int),
        model,
    ) by {
        let lines = strings::texts(rendered_prefix_lines@);
        assert(lines.len() == count);
        assert(count > 0 ==> lines.last() == rendered_prefix_lines@[count - 1]@);
        assert(count == 0 ==> rendered_prefix@ =~= Seq::<char>::empty());
    }
    if starts_with(display_line, rendered_prefix.as_str()) {
        Some(byte_count(rendered_prefix.as_str()))
    } else {
        None
    }
}

// ---------------------------------------------------------------------------
// Sentence ends
// ---------------------------------------------------------------------------
/// Whether a character ends a sentence.
pub open spec fn sentence_mark(ch: char) -> bool {
    ch == '.' || ch == '!' || ch == '?'
}

/// The end of the first run of sentence marks at or behind an index; the end of the line
/// where there is none.
pub open spec fn sentence_end(line: Seq<char>, from: int) -> int
    decreases line.len() - from,
{
    if from >= line.len() {
        line.len() as int
    } else if sentence_mark(line[from]) {
        marks_end(line, from)
    } else {
        sentence_end(line, from + 1)
    }
}

/// The end of the run of sentence marks at an index.
pub open spec fn marks_end(line: Seq<char>, from: int) -> int
    decreases line.len() - from,
{
    if from < line.len() && sentence_mark(line[from]) {
        marks_end(line, from + 1)
    } else {
        from
    }
}

/// The number of characters before the place of a marker in a displayed line: a place that
/// ends a sentence stays, and any other moves to the end of its sentence.
pub open spec fn snapped(line: Seq<char>, offset: int) -> int {
    let at = text::char_index(line, text::ceil_boundary(line, offset));
    if at > 0 && sentence_mark(line[at - 1]) && (at == line.len() || strings::whitespace(line[at])) {
        at
    } else {
        sentence_end(line, at)
    }
}

proof fn lemma_ceil_index(line: Seq<char>, offset: int)
    requires
        0 <= offset,
    ensures
        ({
            let at = text::char_index(line, text::ceil_boundary(line, offset));
            &&& 0 <= at <= line.len()
            &&& text::byte_pos(line, at) == text::ceil_boundary(line, offset)
        }),
{
    text::lemma_byte_pos_ends(line);
    if offset <= text::byte_len(line) {
        text::law_ceil_boundary(line, offset);
        let end = text::ceil_boundary(line, offset);
        let index = choose|index: int|
            0 <= index <= line.len() && #[trigger] text::byte_pos(line, index) == end;
        text::lemma_char_index_of_pos(line, index);
    } else {
        text::lemma_char_index(line, offset);
        text::lemma_char_index_of_pos(line, line.len() as int);
    }
}

/// The place of a marker in a displayed line.
pub fn snap_branch_marker_display_offset(display_line: &str, display_byte_offset: usize) -> (offset:
    usize)
    ensures
        offset == text::byte_pos(
            display_line@,
            snapped(display_line@, display_byte_offset as int),
        ),
{
    let chars = to_chars(display_line);
    let total: usize = byte_count(display_line);
    let bounded_offset: usize = next_char_boundary(display_line, display_byte_offset);
    let at: usize = locate_char(&chars, total, bounded_offset).0;
    proof {
        lemma_ceil_index(display_line@, display_byte_offset as int);
        text::lemma_byte_pos_ends(display_line@);
    }
    if at > 0 && is_sentence_mark(chars[at - 1]) && (at == chars.len() || is_whitespace(
        chars[at],
    )) {
        return bounded_offset;
    }
    let mut index: usize = at;
    let mut offset: usize = bounded_offset;
    while index < chars.len() && !is_sentence_mark(chars[index])
        invariant
            at <= index <= chars@.len(),
            total == text::byte_len(chars@),
            offset == text::byte_pos(chars@, index as int),
            sentence_end(chars@, at as int) == sentence_end(chars@, index as int),
        decreases chars@.len() - index,
    {
        proof {
            text::lemma_byte_pos_step(chars@, index as int);
            text::lemma_byte_pos_grows(chars@, index as int + 1, chars@.len() as int);
        }
        offset = offset + width_of(chars[index]);
        index = index + 1;
    }
    if index == chars.len() {
        return total;
    }
    let ghost first = index as int;
    while index < chars.len() && is_sentence_mark(chars[index])
        invariant
            first <= index <= chars@.len(),
            total == text::byte_len(chars@),
            offset == text::byte_pos(chars@, index as int),
            marks_end(chars@, first) == marks_end(chars@, index as int),
        decreases chars@.len() - index,
    {
        proof {
            text::lemma_byte_pos_step(chars@, index as int);
            text::lemma_byte_pos_grows(chars@, index as int + 1, chars@.len() as int);
        }
        offset = offset + width_of(chars[index]);
        index = index + 1;
    }
    offset
}

/// Whether a character ends a sentence.
fn is_sentence_mark(ch: char) -> (yes: bool)
    ensures
        yes == sentence_mark(ch),
{
    ch == '.' || ch == '!' || ch == '?'
}

proof fn lemma_sentence_end(line: Seq<char>, from: int)
    requires
        0 <= from <= line.len(),
    ensures
        from <= sentence_end(line, from) <= line.len(),
        from <= marks_end(line, from) <= line.len(),
    decreases line.len() - from,
{
    if from < line.len() {
        lemma_sentence_end(line, from + 1);
    }
}

/// A marker never moves backwards, and stays in its line.
pub proof fn law_snapping_moves_forward(line: Seq<char>, offset: int)
    requires
        0 <= offset <= text::byte_len(line),
    ensures
        0 <= snapped(line, offset) <= line.len(),
        offset <= text::byte_pos(line, snapped(line, offset)) <= text::byte_len(line),
        snapped(line, offset) < line.len() ==> sentence_mark(line[snapped(line, offset) - 1]),
{
    let at = text::char_index(line, text::ceil_boundary(line, offset));
    lemma_ceil_index(line, offset);
    text::law_ceil_boundary(line, offset);
    lemma_sentence_end(line, at);
    text::lemma_byte_pos_grows(line, at, snapped(line, offset));
    lemma_sentence_end_mark(line, at);
}

proof fn lemma_sentence_end_mark(line: Seq<char>, from: int)
    requires
        0 <= from <= line.len(),
    ensures
        sentence_end(line, from) < line.len() ==> sentence_mark(line[sentence_end(line, from) - 1]),
        marks_end(line, from) > from ==> sentence_mark(line[marks_end(line, from) - 1]),
    decreases line.len() - from,
{
    if from < line.len() {
        lemma_sentence_end(line, from + 1);
        lemma_sentence_end_mark(line, from + 1);
    }
}

// ---------------------------------------------------------------------------
// Markers
// ---------------------------------------------------------------------------
/// The place of a byte of the markdown in the displayed line that is recognized as its
/// line.
pub open spec fn direct_place(
    raw: Seq<char>,
    lines: Seq<Seq<char>>,
    offset: int,
    model: spec_fn(Seq<char>) -> Seq<styled::LineView>,
) -> Option<(int, int)> {
    match line_position(strings::split_at_newlines(raw), offset) {
        None => None,
        Some((raw_index, inner)) => {
            let raw_line = strings::split_at_newlines(raw)[raw_index];
            match display_line(lines, raw_line) {
                None => None,
                Some(index) => match display_offset(raw_line, lines[index], inner, model) {
                    None => None,
                    Some(offset) => Some((index, offset)),
                },
            }
        },
    }
}

/// Whether rendered lines end with a displayed line, or its start, and the displayed lines
/// before it.
pub open spec fn ends_at(rendered: Seq<Seq<char>>, lines: Seq<Seq<char>>, index: int) -> bool {
    &&& 0 <= index < lines.len()
    &&& index < rendered.len()
    &&& rendered.last().is_prefix_of(lines[index])
    &&& lines.take(index) == rendered.subrange(rendered.len() - 1 - index, rendered.len() - 1)
}

/// The last displayed line at which rendered lines end, among the first ones.
pub open spec fn last_end(rendered: Seq<Seq<char>>, lines: Seq<Seq<char>>, count: int) -> Option<
    int,
>
    decreases count,
{
    if count <= 0 {
        None
    } else if ends_at(rendered, lines, count - 1) {
        Some(count - 1)
    } else {
        last_end(rendered, lines, count - 1)
    }
}

/// The place of a byte of the markdown behind what the text up to the byte renders to.
pub open spec fn rendered_place(
    raw: Seq<char>,
    lines: Seq<Seq<char>>,
    offset: int,
    model: spec_fn(Seq<char>) -> Seq<styled::LineView>,
) -> Option<(int, int)> {
    let read = raw.take(text::char_index(raw, exclusive_end(raw, offset)));
    let rendered = styled::plain_lines(model(read));
    match last_end(rendered, lines, lines.len() as int) {
        Some(index) => Some((index, text::byte_len(rendered.last()) as int)),
        None => None,
    }
}

/// The place of an anchor in the displayed lines of its reply.
pub open spec fn marker_place(
    raw: Seq<char>,
    lines: Seq<Seq<char>>,
    segments: Option<Seq<Seq<char>>>,
    line_index: int,
    byte_offset: int,
    model: spec_fn(Seq<char>) -> Seq<styled::LineView>,
) -> Option<(int, int)> {
    match absolute_offset(segments, line_index, byte_offset) {
        None => None,
        Some(offset) => match direct_place(raw, lines, offset, model) {
            Some(place) => Some(place),
            None => rendered_place(raw, lines, offset, model),
        },
    }
}

/// Whether a place is that of a model.
pub open spec fn is_place(place: Option<(usize, usize)>, expected: Option<(int, int)>) -> bool {
    match place {
        Some(place) => expected == Some((place.0 as int, place.1 as int)),
        None => expected is None,
    }
}

/// The place of a byte of the markdown in the displayed line that is recognized as its
/// line.
fn direct_position<F: Fn(&str) -> Vec<Line>>(
    raw_chunk: &str,
    source_lines: &[String],
    absolute_byte_offset: usize,
    append_markdown: &F,
) -> (place: Option<(usize, usize)>)
    requires
        styled::is_renderer(*append_markdown),
    ensures
        forall|model: spec_fn(Seq<char>) -> Seq<styled::LineView>| #[trigger]
            styled::renders_as(*append_markdown, model) ==> is_place(
                place,
                direct_place(
                    raw_chunk@,
                    strings::texts(source_lines@),
                    absolute_byte_offset as int,
                    model,
                ),
            ),
{
    let raw_lines = split_lines(raw_chunk);
    let (raw_source_line_index, raw_source_byte_offset): (usize, usize) =
        match raw_line_position_for_absolute_byte_offset(raw_chunk, absolute_byte_offset) {
        Some(position) => position,
        None => return None,
    };
    proof {
        strings::law_lines_join_to_the_text(raw_chunk@);
        law_line_position_names_the_byte(
            strings::split_at_newlines(raw_chunk@),
            absolute_byte_offset as int,
        );
        assert(strings::texts(raw_lines@).len() == raw_lines@.len());
        assert(strings::texts(raw_lines@)[raw_source_line_index as int]
            == raw_lines@[raw_source_line_index as int]@);
    }
    let raw_line = raw_lines[raw_source_line_index].as_str();
    let index: usize = match display_line_index_for_raw_line(source_lines, raw_line) {
        Some(index) => index,
        None => return None,
    };
    proof {
        lemma_display_line(strings::texts(source_lines@), raw_line@);
        assert(strings::texts(source_lines@)[index as int] == source_lines@[index as int]@);
    }
    match display_byte_offset_for_raw_line_anchor(
        raw_line,
        source_lines[index].as_str(),
        raw_source_byte_offset,
        append_markdown,
    ) {
        Some(offset) => Some((index, offset)),
        None => None,
    }
}

/// Whether rendered lines end with a displayed line, or its start, and the displayed lines
/// before it.
fn rendered_ends_at(rendered: &[String], source_lines: &[String], index: usize) -> (yes: bool)
    requires
        index < source_lines@.len(),
    ensures
        yes == ends_at(strings::texts(rendered@), strings::texts(source_lines@), index as int),
{
    let ghost all = strings::texts(rendered@);
    let ghost lines = strings::texts(source_lines@);
    let count: usize = rendered.len();
    if index >= count {
        return false;
    }
    assert(all.last() == rendered@[count - 1]@);
    assert(lines[index as int] == source_lines@[index as int]@);
    if !starts_with(source_lines[index].as_str(), rendered[count - 1].as_str()) {
        return false;
    }
    let start: usize = count - 1 - index;
    let mut at: usize = 0;
    let ghost part = all.subrange(start as int, count - 1);
    while at < index
        invariant
            at <= index < count == rendered@.len(),
            index < source_lines@.len(),
            start == count - 1 - index,
            all == strings::texts(rendered@),
            lines == strings::texts(source_lines@),
            part == all.subrange(start as int, count - 1),
            forall|i: int| 0 <= i < at ==> lines[i] == part[i],
        decreases index - at,
    {
        assert(lines[at as int] == source_lines@[at as int]@);
        assert(part[at as int] == rendered@[start + at]@);
        if !same_text(source_lines[at].as_str(), rendered[start + at].as_str()) {
            assert(lines.take(index as int)[at as int] != part[at as int]);
            return false;
        }
        at = at + 1;
    }
    assert(lines.take(index as int) =~= part);
    true
}

/// The place of a byte of the markdown behind what the text up to the byte renders to.
fn rendered_position<F: Fn(&str) -> Vec<Line>>(
    raw_chunk: &str,
    source_lines: &[String],
    absolute_byte_offset: usize,
    append_markdown: &F,
) -> (place: Option<(usize, usize)>)
    requires
        styled::is_renderer(*append_markdown),
    ensures
        forall|model: spec_fn(Seq<char>) -> Seq<styled::LineView>| #[trigger]
            styled::renders_as(*append_markdown, model) ==> is_place(
                place,
                rendered_place(
                    raw_chunk@,
                    strings::texts(source_lines@),
                    absolute_byte_offset as int,
                    model,
                ),
            ),
{
    let exclusive_byte_offset: usize = exclusive_marker_byte_offset(
        raw_chunk,
        absolute_byte_offset,
    );
    let read = head_of(raw_chunk, exclusive_byte_offset);
    let rendered = render_markdown_to_plain_lines(read.as_str(), append_markdown);
    let ghost all = strings::texts(rendered@);
    let ghost lines = strings::texts(source_lines@);
    let mut count: usize = source_lines.len();
    while count > 0
        invariant
            count <= source_lines@.len(),
            all == strings::texts(rendered@),
            lines == strings::texts(source_lines@),
            lines.len() == source_lines@.len(),
            forall|model: spec_fn(Seq<char>) -> Seq<styled::LineView>| #[trigger]
                styled::renders_as(*append_markdown, model) ==> {
                    &&& styled::plain_lines(model(read@)) == all
                },
            read@ == raw_chunk@.take(
                text::char_index(
                    raw_chunk@,
                    exclusive_end(raw_chunk@, absolute_byte_offset as int),
                ),
            ),
            last_end(all, lines, lines.len() as int) == last_end(all, lines, count as int),
        decreases count,
    {
        let index: usize = count - 1;
        if rendered_ends_at(&rendered, source_lines, index) {
            let last: usize = rendered.len() - 1;
            assert(all.last() == rendered@[last as int]@);
            return Some((index, byte_count(rendered[last].as_str())));
        }
        count = index;
    }
    None
}

/// The place of an anchor in the displayed lines of its reply.
pub fn display_source_position_for_marker<F: Fn(&str) -> Vec<Line>>(
    raw_chunk: &str,
    source_lines: &[String],
    source_segments: Option<&[String]>,
    marker: &PendingDirectChildBranchMarker,
    append_markdown: &F,
) -> (place: Option<(usize, usize)>)
    requires
        styled::is_renderer(*append_markdown),
    ensures
        forall|model: spec_fn(Seq<char>) -> Seq<styled::LineView>| #[trigger]
            styled::renders_as(*append_markdown, model) ==> is_place(
                place,
                marker_place(
                    raw_chunk@,
                    strings::texts(source_lines@),
                    anchor::opt_slice(source_segments),
                    marker.source_line_index as int,
                    marker.source_byte_offset as int,
                    model,
                ),
            ),
        place matches Some(place) ==> place.0 < source_lines@.len(),
{
    let absolute_byte_offset: usize = match absolute_marker_byte_offset(
        source_segments,
        marker,
    ) {
        Some(offset) => offset,
        None => return None,
    };
    let direct = direct_position(raw_chunk, source_lines, absolute_byte_offset, append_markdown);
    let place = match direct {
        Some(place) => Some(place),
        None => rendered_position(raw_chunk, source_lines, absolute_byte_offset, append_markdown),
    };
    proof {
        let model = choose|model: spec_fn(Seq<char>) -> Seq<styled::LineView>|
            styled::renders_as(*append_markdown, model);
        lemma_place_is_displayed(
            raw_chunk@,
            strings::texts(source_lines@),
            absolute_byte_offset as int,
            model,
        );
    }
    place
}

proof fn lemma_place_is_displayed(
    raw: Seq<char>,
    lines: Seq<Seq<char>>,
    offset: int,
    model: spec_fn(Seq<char>) -> Seq<styled::LineView>,
)
    ensures
        direct_place(raw, lines, offset, model) matches Some(place) ==> 0 <= place.0 < lines.len(),
        rendered_place(raw, lines, offset, model) matches Some(place) ==> 0 <= place.0
            < lines.len(),
{
    if let Some((raw_index, _)) = line_position(strings::split_at_newlines(raw), offset) {
        lemma_display_line(lines, strings::split_at_newlines(raw)[raw_index]);
    }
    let read = raw.take(text::char_index(raw, exclusive_end(raw, offset)));
    lemma_last_end(styled::plain_lines(model(read)), lines, lines.len() as int);
}

proof fn lemma_last_end(rendered: Seq<Seq<char>>, lines: Seq<Seq<char>>, count: int)
    ensures
        last_end(rendered, lines, count) matches Some(index) ==> ends_at(rendered, lines, index),
    decreases count,
{
    if count > 0 && !ends_at(rendered, lines, count - 1) {
        lemma_last_end(rendered, lines, count - 1);
    }
}

/// A place lies in one of the displayed lines.
pub proof fn law_places_are_displayed(
    raw: Seq<char>,
    lines: Seq<Seq<char>>,
    segments: Option<Seq<Seq<char>>>,
    line_index: int,
    byte_offset: int,
    model: spec_fn(Seq<char>) -> Seq<styled::LineView>,
)
    ensures
        marker_place(raw, lines, segments, line_index, byte_offset, model) matches Some(place)
            ==> 0 <= place.0 < lines.len() && 0 <= place.1 <= text::byte_len(lines[place.0]),
{
    if let Some(offset) = absolute_offset(segments, line_index, byte_offset) {
        lemma_place_is_displayed(raw, lines, offset, model);
        if let Some(place) = marker_place(
            raw,
            lines,
            segments,
            line_index,
            byte_offset,
            model,
        ) {
            let line = lines[place.0];
            let start = if direct_place(raw, lines, offset, model) is Some {
                let position = line_position(strings::split_at_newlines(raw), offset)->0;
                last_rendered(
                    text_up_to(strings::split_at_newlines(raw)[position.0], position.1),
                    model,
                )
            } else {
                let read = raw.take(text::char_index(raw, exclusive_end(raw, offset)));
                let rendered = styled::plain_lines(model(read));
                lemma_last_end(rendered, lines, lines.len() as int);
                rendered.last()
            };
            assert(start =~= line.take(start.len() as int));
            text::lemma_byte_pos_grows(line, start.len() as int, line.len() as int);
        }
    }
}

/// The anchor of a byte of the whole text names that byte again.
pub proof fn law_local_anchor_is_undone(segments: Seq<Seq<char>>, offset: int)
    requires
        0 <= offset < text::byte_len(strings::concatenated(segments)),
        offset <= usize::MAX,
    ensures
        match anchor::local_anchor(segments, offset) {
            Some((index, inner)) => absolute_offset(Some(segments), index, inner) == Some(offset),
            None => false,
        },
{
    anchor::law_local_anchor_names_the_byte(segments, offset);
}

/// Whether a character is a dot, an exclamation mark or a question mark.
spec fn ends_sentence(ch: char) -> bool {
    ch == '.' || ch == '!' || ch == '?'
}

proof fn lemma_marks_end_run(line: Seq<char>, from: int)
    requires
        0 <= from <= line.len(),
    ensures
        from <= marks_end(line, from) <= line.len(),
        forall|i: int| from <= i < marks_end(line, from) ==> ends_sentence(#[trigger] line[i]),
        marks_end(line, from) < line.len() ==> !ends_sentence(line[marks_end(line, from)]),
    decreases line.len() - from,
{
    if from < line.len() && sentence_mark(line[from]) {
        lemma_marks_end_run(line, from + 1);
    }
}

/// The start of the first run of sentence marks at or behind an index.
proof fn lemma_sentence_end_run(line: Seq<char>, from: int) -> (start: int)
    requires
        0 <= from <= line.len(),
    ensures
        from <= start <= sentence_end(line, from) <= line.len(),
        forall|i: int| from <= i < start ==> !ends_sentence(#[trigger] line[i]),
        forall|i: int|
            start <= i < sentence_end(line, from) ==> ends_sentence(#[trigger] line[i]),
        start < line.len() ==> start < sentence_end(line, from),
        sentence_end(line, from) < line.len() ==> !ends_sentence(line[sentence_end(line, from)]),
    decreases line.len() - from,
{
    if from >= line.len() {
        from
    } else if sentence_mark(line[from]) {
        lemma_marks_end_run(line, from);
        from
    } else {
        lemma_sentence_end_run(line, from + 1)
    }
}

/// A marker moves to the end of its sentence. From a place between two characters it stays
/// where a dot, an exclamation mark or a question mark stands before it and whitespace or
/// nothing behind it. From everywhere else it moves behind the first run of these three
/// characters: none of them stands between the place and that run, the run is taken in
/// whole, and without one the marker moves to the end of the line. Inside of a character the
/// place behind it counts.
pub proof fn law_markers_move_behind_the_first_sentence_mark(
    line: Seq<char>,
    at: int,
    offset: int,
)
    requires
        0 <= at <= line.len(),
        offset == text::byte_pos(line, at) || (at > 0 && text::byte_pos(line, at - 1) < offset
            < text::byte_pos(line, at)),
    ensures
        ({
            let end = snapped(line, offset);
            let stays = at > 0 && (line[at - 1] == '.' || line[at - 1] == '!' || line[at - 1]
                == '?') && (at == line.len() || strings::whitespace(line[at]));
            &&& at <= end <= line.len()
            &&& stays ==> end == at
            &&& !stays && at < line.len() ==> at < end
            &&& !stays && end < line.len() ==> {
                &&& line[end - 1] == '.' || line[end - 1] == '!' || line[end - 1] == '?'
                &&& line[end] != '.' && line[end] != '!' && line[end] != '?'
            }
            &&& forall|i: int, j: int|
                #![trigger line[i], line[j]]
                at <= i < j < end && (line[i] == '.' || line[i] == '!' || line[i] == '?')
                    ==> line[j] == '.' || line[j] == '!' || line[j] == '?'
        }),
{
    if offset == text::byte_pos(line, at) {
        text::lemma_char_index_of_pos(line, at);
        assert(text::ceil_boundary(line, offset) == offset);
    } else {
        text::lemma_char_index_unique(line, offset, at - 1);
        text::lemma_byte_pos_grows(line, 0, at - 1);
        text::lemma_char_index_of_pos(line, at);
        assert(text::ceil_boundary(line, offset) == text::byte_pos(line, at));
    }
    assert(text::char_index(line, text::ceil_boundary(line, offset)) == at);
    let start = lemma_sentence_end_run(line, at);
    let end = snapped(line, offset);
    assert(end == at || end == sentence_end(line, at));
    assert forall|i: int, j: int|
        #![trigger line[i], line[j]]
        at <= i < j < end && (line[i] == '.' || line[i] == '!' || line[i]
            == '?') implies line[j] == '.' || line[j] == '!' || line[j] == '?' by {
        assert(ends_sentence(line[i]));
        assert(start <= i);
        assert(ends_sentence(line[j]));
    }
    if end == sentence_end(line, at) && at < end < line.len() {
        assert(start < end);
        assert(ends_sentence(line[end - 1]));
    }
}

// ---------------------------------------------------------------------------
// Where a marker is looked for
// ---------------------------------------------------------------------------
/// A place in a piece is counted from the start of the text: behind all the pieces before
/// it. A place behind the end of its piece, and one in a piece that is not there, is none.
/// Without pieces the text is its own first one.
pub proof fn law_places_count_all_pieces_before(
    segments: Seq<Seq<char>>,
    line_index: int,
    byte_offset: int,
)
    requires
        0 <= line_index,
        0 <= byte_offset,
    ensures
        absolute_offset(None, 0, byte_offset) == Some(byte_offset),
        line_index > 0 ==> absolute_offset(None, line_index, byte_offset) is None,
        line_index >= segments.len() ==> absolute_offset(Some(segments), line_index, byte_offset)
            is None,
        line_index < segments.len() && byte_offset > text::byte_len(segments[line_index])
            ==> absolute_offset(Some(segments), line_index, byte_offset) is None,
        line_index < segments.len() && byte_offset <= text::byte_len(segments[line_index])
            && text::byte_len(strings::concatenated(segments.take(line_index))) + byte_offset
            <= usize::MAX ==> absolute_offset(Some(segments), line_index, byte_offset) == Some(
            text::byte_len(strings::concatenated(segments.take(line_index))) + byte_offset,
        ),
{
}

/// The text before a marker ends with the character under it, unless that is a newline,
/// which stays behind.
pub proof fn law_newlines_stay_behind_the_marker(raw: Seq<char>, at: int, offset: int)
    requires
        0 <= at < raw.len(),
        text::byte_pos(raw, at) <= offset < text::byte_pos(raw, at + 1),
    ensures
        raw[at] != '\n' ==> exclusive_end(raw, offset) == text::byte_pos(raw, at + 1),
        raw[at] == '\n' ==> exclusive_end(raw, offset) == offset,
        exclusive_end(raw, text::byte_len(raw) as int) == text::byte_len(raw),
{
    text::lemma_char_index_unique(raw, offset, at);
    text::lemma_byte_pos_ends(raw);
    text::lemma_char_index_of_pos(raw, raw.len() as int);
}

/// A line of the source is displayed as the first line that reads the same without its
/// marks and the whitespace around it.
pub proof fn law_lines_are_found_by_their_text(
    lines: Seq<Seq<char>>,
    raw_line: Seq<char>,
    other: int,
)
    requires
        0 <= other < lines.len(),
    ensures
        ({
            let wanted = strings::trimmed(responses::search_line(raw_line));
            match display_line(lines, raw_line) {
                Some(index) => {
                    &&& 0 <= index < lines.len()
                    &&& strings::trimmed(responses::search_line(lines[index])) == wanted
                    &&& other < index ==> strings::trimmed(responses::search_line(lines[other]))
                        != wanted
                },
                None => strings::trimmed(responses::search_line(lines[other])) != wanted,
            }
        }),
    decreases lines.len(),
{
    let head = lines.drop_last();
    if head.len() > 0 {
        if other < head.len() {
            law_lines_are_found_by_their_text(head, raw_line, other);
            assert(head[other] == lines[other]);
        } else {
            law_lines_are_found_by_their_text(head, raw_line, 0);
        }
    } else {
        assert(display_line(head, raw_line) is None);
    }
}

/// The offset of a marker in its displayed line is the length of what the line displays of
/// the source before it; where that is not how the displayed line starts, there is none.
pub proof fn law_offsets_are_the_displayed_length(
    raw_line: Seq<char>,
    displayed: Seq<char>,
    at: int,
    model: spec_fn(Seq<char>) -> Seq<styled::LineView>,
)
    requires
        0 <= at <= raw_line.len(),
    ensures
        ({
            let lines = model(raw_line.take(at));
            let rendered = if lines.len() == 0 {
                Seq::<char>::empty()
            } else {
                styled::plain(lines.last())
            };
            let offset = display_offset(raw_line, displayed, text::byte_pos(raw_line, at), model);
            &&& rendered.is_prefix_of(displayed) ==> offset == Some(text::byte_len(rendered) as int)
            &&& !rendered.is_prefix_of(displayed) ==> offset is None
        }),
{
    text::lemma_char_index_of_pos(raw_line, at);
    assert(text_up_to(raw_line, text::byte_pos(raw_line, at)) == raw_line.take(at));
}

/// Of all the lines with which the displayed text before a marker can end, it is the last
/// one.
pub proof fn law_last_fitting_line_is_taken(
    rendered: Seq<Seq<char>>,
    lines: Seq<Seq<char>>,
    count: int,
    other: int,
)
    requires
        0 <= other < count,
    ensures
        match last_end(rendered, lines, count) {
            Some(index) => {
                &&& 0 <= index < count
                &&& ends_at(rendered, lines, index)
                &&& index < other ==> !ends_at(rendered, lines, other)
            },
            None => !ends_at(rendered, lines, other),
        },
    decreases count,
{
    if count == 1 {
        assert(last_end(rendered, lines, 0) is None);
    } else if !ends_at(rendered, lines, count - 1) {
        law_last_fitting_line_is_taken(
            rendered,
            lines,
            count - 1,
            if other < count - 1 {
                other
            } else {
                0
            },
        );
    }
}

/// A line ends the displayed text before a marker where it starts with the last line of that
/// text and the lines before it are those before that.
pub proof fn law_fitting_lines_have_the_text_before(
    rendered: Seq<Seq<char>>,
    lines: Seq<Seq<char>>,
    index: int,
)
    ensures
        ends_at(rendered, lines, index) <==> {
            &&& 0 <= index < lines.len()
            &&& index < rendered.len()
            &&& rendered[rendered.len() - 1].is_prefix_of(lines[index])
            &&& forall|i: int|
                0 <= i < index ==> #[trigger] lines[i] == rendered[rendered.len() - 1 - index + i]
        },
{
    if 0 <= index < lines.len() && index < rendered.len() {
        let start = rendered.len() - 1 - index;
        let part = rendered.subrange(start, rendered.len() - 1);
        if lines.take(index) == part {
            assert forall|i: int| 0 <= i < index implies #[trigger] lines[i] == rendered[start
                + i] by {
                assert(lines.take(index)[i] == part[i]);
            }
        }
        if forall|i: int| 0 <= i < index ==> #[trigger] lines[i] == rendered[start + i] {
            assert(lines.take(index) =~= part);
        }
    }
}

/// A marker is placed on the line of its source where that is displayed, and behind the
/// displayed text before it otherwise.
pub proof fn law_markers_are_placed_directly_where_possible(
    raw: Seq<char>,
    lines: Seq<Seq<char>>,
    segments: Option<Seq<Seq<char>>>,
    line_index: int,
    byte_offset: int,
    model: spec_fn(Seq<char>) -> Seq<styled::LineView>,
)
    ensures
        ({
            let place = marker_place(raw, lines, segments, line_index, byte_offset, model);
            match absolute_offset(segments, line_index, byte_offset) {
                None => place is None,
                Some(offset) => {
                    let direct = direct_place(raw, lines, offset, model);
                    &&& direct is Some ==> place == direct
                    &&& direct is None ==> place == rendered_place(raw, lines, offset, model)
                },
            }
        }),
{
}

proof fn lemma_line_position_is_unique(lines: Seq<Seq<char>>, index: int, inner: int)
    requires
        0 <= index < lines.len(),
        0 <= inner <= text::byte_len(lines[index]),
    ensures
        line_position(lines, anchor::line_start(lines, index) + inner) == Some((index, inner)),
{
    let offset = anchor::line_start(lines, index) + inner;
    let last = lines.len() - 1;
    anchor::lemma_line_start_grows(lines, 0, index);
    if index < last {
        anchor::lemma_line_start_grows(lines, index + 1, last);
    }
    law_line_position_names_the_byte(lines, offset);
    let (other, rest) = line_position(lines, offset)->0;
    if other < index {
        anchor::lemma_line_start_grows(lines, other + 1, index);
    } else if other > index {
        anchor::lemma_line_start_grows(lines, index + 1, other);
    }
}

/// A place in a line of the source is displayed in the line that shows that line, behind what
/// is displayed of it before the place; it is not where no line shows it.
pub proof fn law_displayed_lines_hold_their_places(
    raw: Seq<char>,
    lines: Seq<Seq<char>>,
    line: int,
    at: int,
    model: spec_fn(Seq<char>) -> Seq<styled::LineView>,
)
    requires
        0 <= line < strings::split_at_newlines(raw).len(),
        0 <= at <= strings::split_at_newlines(raw)[line].len(),
    ensures
        ({
            let raw_lines = strings::split_at_newlines(raw);
            let inner = text::byte_pos(raw_lines[line], at);
            let place = direct_place(
                raw,
                lines,
                anchor::line_start(raw_lines, line) + inner,
                model,
            );
            match display_line(lines, raw_lines[line]) {
                None => place is None,
                Some(index) => match display_offset(raw_lines[line], lines[index], inner, model) {
                    None => place is None,
                    Some(offset) => place == Some((index, offset)),
                },
            }
        }),
{
    let raw_lines = strings::split_at_newlines(raw);
    text::lemma_byte_pos_ends(raw_lines[line]);
    text::lemma_byte_pos_grows(raw_lines[line], 0, at);
    text::lemma_byte_pos_grows(raw_lines[line], at, raw_lines[line].len() as int);
    lemma_line_position_is_unique(raw_lines, line, text::byte_pos(raw_lines[line], at));
}

/// A place whose line is not displayed as it stands is behind what is displayed of the text
/// up to and with its character, but without a newline under it.
pub proof fn law_other_places_end_the_displayed_text(
    raw: Seq<char>,
    lines: Seq<Seq<char>>,
    at: int,
    model: spec_fn(Seq<char>) -> Seq<styled::LineView>,
)
    requires
        0 <= at < raw.len(),
    ensures
        ({
            let read = if raw[at] == '\n' {
                raw.take(at)
            } else {
                raw.take(at + 1)
            };
            let rendered = styled::plain_lines(model(read));
            let place = rendered_place(raw, lines, text::byte_pos(raw, at), model);
            match last_end(rendered, lines, lines.len() as int) {
                Some(index) => place == Some((index, text::byte_len(rendered.last()) as int)),
                None => place is None,
            }
        }),
{
    let offset = text::byte_pos(raw, at);
    text::lemma_byte_pos_step(raw, at);
    text::lemma_char_index_of_pos(raw, at);
    text::lemma_char_index_of_pos(raw, at + 1);
    assert(text::char_end(raw, offset) == text::byte_pos(raw, at + 1));
}

} // verus!
