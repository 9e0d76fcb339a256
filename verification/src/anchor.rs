//! Read anchors: the byte at which a branch stops reading a reply.
//!
//! A reply is stored as one text or as segments of it. An anchor names a segment and a
//! byte offset there; the byte belongs to the last character that was read.
use crate::protocol::ThreadForkSnapshot;
use crate::strings;
use crate::strings::split_lines;
use crate::structure::previous_char_boundary;
use crate::text;
use crate::text::byte_count;
use vstd::prelude::*;
use vstd::string::*;

verus! {

// ---------------------------------------------------------------------------
// Lines and segments in bytes
// ---------------------------------------------------------------------------
/// The byte offset at which a line starts, where each line before it ends with a
/// newline.
pub open spec fn line_start(lines: Seq<Seq<char>>, index: int) -> int
    decreases index,
{
    if index <= 0 {
        0
    } else {
        line_start(lines, index - 1) + text::byte_len(lines[index - 1]) + 1
    }
}

/// The byte of the last character of a line of a text, as the offset of its start.
pub open spec fn line_end_anchor(
    source: Seq<char>,
    lines: Seq<Seq<char>>,
    index: int,
) -> Option<int> {
    if 0 <= index < lines.len() && lines[index].len() > 0 {
        let last = line_start(lines, index) + text::byte_len(lines[index]) - 1;
        if last < text::byte_len(source) {
            Some(text::floor_boundary(source, last))
        } else {
            None
        }
    } else {
        None
    }
}

/// The segment that holds a byte of the whole text, and the offset of the byte there.
pub open spec fn local_anchor(segments: Seq<Seq<char>>, anchor: int) -> Option<(int, int)>
    decreases segments.len(),
{
    if segments.len() == 0 {
        None
    } else {
        let start = text::byte_len(strings::concatenated(segments.drop_last()));
        match local_anchor(segments.drop_last(), anchor) {
            Some(found) => Some(found),
            None => if anchor < start + text::byte_len(segments.last()) {
                Some((segments.len() - 1, anchor - start))
            } else {
                None
            },
        }
    }
}

/// The byte of the whole text that an offset in a segment names.
pub open spec fn absolute_anchor(segments: Seq<Seq<char>>, index: int, offset: int) -> int {
    text::byte_len(strings::concatenated(segments.take(index))) + offset
}

/// Every byte of the segments has a local anchor, which names that byte.
pub proof fn law_local_anchor_names_the_byte(segments: Seq<Seq<char>>, anchor: int)
    requires
        0 <= anchor,
    ensures
        local_anchor(segments, anchor) is Some <==> anchor < text::byte_len(
            strings::concatenated(segments),
        ),
        match local_anchor(segments, anchor) {
            Some(found) => {
                &&& 0 <= found.0 < segments.len()
                &&& 0 <= found.1 < text::byte_len(segments[found.0])
                &&& absolute_anchor(segments, found.0, found.1) == anchor
            },
            None => true,
        },
    decreases segments.len(),
{
    if segments.len() > 0 {
        let head = segments.drop_last();
        law_local_anchor_names_the_byte(head, anchor);
        text::lemma_byte_len_add(strings::concatenated(head), segments.last());
        match local_anchor(head, anchor) {
            Some(found) => {
                assert(segments.take(found.0) =~= head.take(found.0));
            },
            None => {
                assert(segments.take(segments.len() - 1) =~= head);
            },
        }
    }
}

/// The segment that holds a byte of the whole text, and the offset of the byte there.
pub fn segment_local_anchor(source_segments: &[String], absolute_anchor: usize) -> (found: Option<
    (usize, usize),
>)
    ensures
        match found {
            Some(found) => local_anchor(strings::texts(source_segments@), absolute_anchor as int)
                == Some((found.0 as int, found.1 as int)),
            None => local_anchor(strings::texts(source_segments@), absolute_anchor as int) is None,
        },
{
    let ghost all = strings::texts(source_segments@);
    let mut remaining: usize = absolute_anchor;
    let mut segment_index: usize = 0;
    assert(all.take(0) =~= Seq::<Seq<char>>::empty());
    while segment_index < source_segments.len()
        invariant
            segment_index <= source_segments@.len(),
            all == strings::texts(source_segments@),
            remaining + text::byte_len(strings::concatenated(all.take(segment_index as int)))
                == absolute_anchor,
            local_anchor(all.take(segment_index as int), absolute_anchor as int) is None,
        decreases source_segments@.len() - segment_index,
    {
        let length: usize = byte_count(source_segments[segment_index].as_str());
        proof {
            let next = all.take(segment_index as int + 1);
            assert(next.drop_last() =~= all.take(segment_index as int));
            assert(next.last() == source_segments@[segment_index as int]@);
            text::lemma_byte_len_add(
                strings::concatenated(all.take(segment_index as int)),
                next.last(),
            );
        }
        if remaining < length {
            proof {
                lemma_local_anchor_stays(all, segment_index as int + 1, absolute_anchor as int);
            }
            return Some((segment_index, remaining));
        }
        remaining = remaining - length;
        segment_index = segment_index + 1;
    }
    assert(all.take(source_segments@.len() as int) =~= all);
    None
}

proof fn lemma_local_anchor_stays(segments: Seq<Seq<char>>, count: int, anchor: int)
    requires
        0 <= count <= segments.len(),
        local_anchor(segments.take(count), anchor) is Some,
    ensures
        local_anchor(segments, anchor) == local_anchor(segments.take(count), anchor),
    decreases segments.len(),
{
    if count == segments.len() {
        assert(segments.take(count) =~= segments);
    } else {
        assert(segments.drop_last().take(count) =~= segments.take(count));
        lemma_local_anchor_stays(segments.drop_last(), count, anchor);
    }
}

/// The byte of the last character of a line of a text.
pub fn inclusive_line_end_anchor(
    source_text: &str,
    source_lines: &[String],
    line_index: usize,
) -> (anchor: Option<usize>)
    requires
        line_index < source_lines@.len() ==> line_start(
            strings::texts(source_lines@),
            line_index as int,
        ) + text::byte_len(source_lines@[line_index as int]@) <= usize::MAX,
    ensures
        match anchor {
            Some(anchor) => line_end_anchor(
                source_text@,
                strings::texts(source_lines@),
                line_index as int,
            ) == Some(anchor as int),
            None => line_end_anchor(
                source_text@,
                strings::texts(source_lines@),
                line_index as int,
            ) is None,
        },
{
    let ghost lines = strings::texts(source_lines@);
    if line_index >= source_lines.len() {
        return None;
    }
    let mut start: usize = 0;
    let mut index: usize = 0;
    while index < line_index
        invariant
            index <= line_index < source_lines@.len(),
            lines == strings::texts(source_lines@),
            line_start(lines, line_index as int) <= usize::MAX,
            start == line_start(lines, index as int),
        decreases line_index - index,
    {
        proof {
            lemma_line_start_grows(lines, index as int + 1, line_index as int);
        }
        start = start + byte_count(source_lines[index].as_str()) + 1;
        index = index + 1;
    }
    let line = source_lines[line_index].as_str();
    if line.is_empty() {
        return None;
    }
    proof {
        text::lemma_byte_pos_ends(line@);
        text::lemma_byte_pos_grows(line@, 0, line@.len() as int);
    }
    let last: usize = start + byte_count(line) - 1;
    if last < byte_count(source_text) {
        Some(previous_char_boundary(source_text, last))
    } else {
        None
    }
}

pub proof fn lemma_line_start_grows(lines: Seq<Seq<char>>, low: int, high: int)
    requires
        0 <= low <= high <= lines.len(),
    ensures
        0 <= line_start(lines, low) <= line_start(lines, high),
    decreases high,
{
    if low < high {
        lemma_line_start_grows(lines, low, high - 1);
    } else if low > 0 {
        lemma_line_start_grows(lines, low - 1, high - 1);
    }
}

// ---------------------------------------------------------------------------
// Lines of a text
// ---------------------------------------------------------------------------
/// The text up to and including one of its lines.
pub open spec fn through_line(source: Seq<char>, index: int) -> Seq<char> {
    strings::joined(strings::split_at_newlines(source).take(index + 1), seq!['\n'])
}

proof fn lemma_joined_prefix(parts: Seq<Seq<char>>, count: int)
    requires
        0 < count <= parts.len(),
    ensures
        strings::joined(parts.take(count), seq!['\n']).is_prefix_of(
            strings::joined(parts, seq!['\n']),
        ),
        text::byte_len(strings::joined(parts.take(count), seq!['\n'])) == line_start(
            parts,
            count - 1,
        ) + text::byte_len(parts[count - 1]),
    decreases parts.len(),
{
    let whole = strings::joined(parts, seq!['\n']);
    let part = strings::joined(parts.take(count), seq!['\n']);
    if count < parts.len() {
        lemma_joined_prefix(parts.drop_last(), count);
        lemma_line_start_same(parts, parts.drop_last(), count - 1);
        assert(parts.drop_last().take(count) =~= parts.take(count));
        let head = strings::joined(parts.drop_last(), seq!['\n']);
        assert(whole.take(part.len() as int) =~= head.take(part.len() as int));
    } else {
        assert(parts.take(count) =~= parts);
        assert(whole.take(part.len() as int) =~= whole);
        if count > 1 {
            let head = parts.drop_last();
            lemma_joined_prefix(head, count - 1);
            assert(head.take(count - 1) =~= head);
            lemma_line_start_same(parts, head, count - 1);
            let start = strings::joined(head, seq!['\n']);
            text::lemma_byte_len_add(start + seq!['\n'], parts.last());
            text::lemma_byte_len_add(start, seq!['\n']);
            text::lemma_byte_len_push(Seq::<char>::empty(), '\n');
            assert(Seq::<char>::empty().push('\n') =~= seq!['\n']);
        }
    }
}

proof fn lemma_line_start_same(a: Seq<Seq<char>>, b: Seq<Seq<char>>, index: int)
    requires
        0 <= index <= a.len(),
        index <= b.len(),
        forall|i: int| 0 <= i < index ==> a[i] == b[i],
    ensures
        line_start(a, index) == line_start(b, index),
    decreases index,
{
    if index > 0 {
        lemma_line_start_same(a, b, index - 1);
    }
}

/// The text through a line is the start of the text, and ends where the line ends.
pub proof fn law_text_through_a_line(source: Seq<char>, index: int)
    requires
        0 <= index < strings::split_at_newlines(source).len(),
    ensures
        through_line(source, index).is_prefix_of(source),
        text::byte_len(through_line(source, index)) == line_start(
            strings::split_at_newlines(source),
            index,
        ) + text::byte_len(strings::split_at_newlines(source)[index]),
        text::byte_len(through_line(source, index)) <= text::byte_len(source),
        strings::split_at_newlines(source)[index].is_suffix_of(through_line(source, index)),
{
    strings::law_lines_join_to_the_text(source);
    let lines = strings::split_at_newlines(source);
    lemma_joined_prefix(lines, index + 1);
    let part = through_line(source, index);
    text::lemma_byte_pos_grows(source, part.len() as int, source.len() as int);
    let taken = lines.take(index + 1);
    assert(taken.last() == lines[index]);
    assert(part.skip(part.len() - lines[index].len()) =~= lines[index]);
}

// ---------------------------------------------------------------------------
// Snapshots
// ---------------------------------------------------------------------------
/// A line index moved back to the last line of a text, where it lies behind it.
pub open spec fn clamped_line(source: Seq<char>, index: int) -> int {
    let count = strings::split_at_newlines(source).len();
    if index < count {
        index
    } else {
        count - 1
    }
}

/// The byte of the last character of a line of a text, which may not be empty.
pub open spec fn raw_anchor(source: Seq<char>, index: int) -> Option<int> {
    line_end_anchor(source, strings::split_at_newlines(source), clamped_line(source, index))
}

/// The anchor of a byte of the whole text. Where no segment holds the byte, it may be
/// taken to lie in a first and only segment.
pub open spec fn segment_anchor(
    segments: Option<Seq<Seq<char>>>,
    anchor: int,
    single_segment: bool,
) -> Option<(int, int)> {
    let found = match segments {
        Some(segments) => local_anchor(segments, anchor),
        None => None,
    };
    match found {
        Some(found) => Some(found),
        None => if single_segment {
            Some((0, anchor))
        } else {
            None
        },
    }
}

/// The fork point at the end of a line of a reply.
pub open spec fn snapshot_at_line(
    source: Seq<char>,
    segments: Option<Seq<Seq<char>>>,
    message_index: int,
    line_index: int,
    is_latest: bool,
    single_segment: bool,
) -> Option<ThreadForkSnapshot> {
    match raw_anchor(source, line_index) {
        None => None,
        Some(anchor) => match segment_anchor(segments, anchor, is_latest || single_segment) {
            None => None,
            Some((segment, offset)) => if segment > u32::MAX || offset > u32::MAX {
                None
            } else if is_latest {
                Some(
                    ThreadForkSnapshot::LatestAssistantReadAnchor {
                        source_line_index: segment as u32,
                        source_byte_offset: offset as u32,
                    },
                )
            } else if message_index > u32::MAX {
                None
            } else {
                Some(
                    ThreadForkSnapshot::AssistantReadAnchor {
                        assistant_message_index: message_index as u32,
                        source_line_index: segment as u32,
                        source_byte_offset: offset as u32,
                    },
                )
            },
        },
    }
}

/// The views of an optional slice of strings.
pub open spec fn opt_slice(strings: Option<&[String]>) -> Option<Seq<Seq<char>>> {
    match strings {
        Some(strings) => Some(strings::texts(strings@)),
        None => None,
    }
}

/// A number as 32 bits, where it fits.
fn narrow(number: usize) -> (narrowed: Option<u32>)
    ensures
        match narrowed {
            Some(narrowed) => narrowed == number,
            None => number > u32::MAX,
        },
{
    if number <= u32::MAX as usize {
        Some(number as u32)
    } else {
        None
    }
}

/// The fork point at the end of a line of a reply.
pub fn snapshot_from_display_line_index(
    source_text: &str,
    source_segments: Option<&[String]>,
    assistant_message_index: usize,
    display_line_index: usize,
    is_latest_response: bool,
    allow_single_segment_fallback: bool,
) -> (snapshot: Option<ThreadForkSnapshot>)
    ensures
        snapshot == snapshot_at_line(
            source_text@,
            opt_slice(source_segments),
            assistant_message_index as int,
            display_line_index as int,
            is_latest_response,
            allow_single_segment_fallback,
        ),
{
    let source_lines = split_lines(source_text);
    proof {
        strings::law_lines_join_to_the_text(source_text@);
        assert(strings::texts(source_lines@).len() == source_lines@.len());
    }
    let source_line_index: usize = if display_line_index < source_lines.len() {
        display_line_index
    } else {
        source_lines.len() - 1
    };
    let total: usize = byte_count(source_text);
    proof {
        law_text_through_a_line(source_text@, source_line_index as int);
        assert(strings::texts(source_lines@)[source_line_index as int]
            == source_lines@[source_line_index as int]@);
    }
    let raw_anchor = match inclusive_line_end_anchor(
        source_text,
        &source_lines,
        source_line_index,
    ) {
        Some(anchor) => anchor,
        None => return None,
    };
    let local = match source_segments {
        Some(segments) => segment_local_anchor(segments, raw_anchor),
        None => None,
    };
    let (segment, offset): (usize, usize) = match local {
        Some(found) => found,
        None => if is_latest_response || allow_single_segment_fallback {
            (0, raw_anchor)
        } else {
            return None;
        },
    };
    let source_line_index: u32 = match narrow(segment) {
        Some(number) => number,
        None => return None,
    };
    let source_byte_offset: u32 = match narrow(offset) {
        Some(number) => number,
        None => return None,
    };
    if is_latest_response {
        Some(ThreadForkSnapshot::LatestAssistantReadAnchor { source_line_index, source_byte_offset })
    } else {
        match narrow(assistant_message_index) {
            Some(assistant_message_index) => Some(
                ThreadForkSnapshot::AssistantReadAnchor {
                    assistant_message_index,
                    source_line_index,
                    source_byte_offset,
                },
            ),
            None => None,
        }
    }
}

/// A fork point that names its message by its index, so that it stays valid when
/// further messages follow.
pub open spec fn origin_of(message_index: int, snapshot: ThreadForkSnapshot) -> ThreadForkSnapshot {
    match snapshot {
        ThreadForkSnapshot::LatestAssistantReadAnchor { source_line_index, source_byte_offset } => {
            ThreadForkSnapshot::AssistantReadAnchor {
                assistant_message_index: if message_index <= u32::MAX {
                    message_index as u32
                } else {
                    u32::MAX
                },
                source_line_index,
                source_byte_offset,
            }
        },
        other => other,
    }
}

/// A fork point that names its message by its index.
pub fn origin_snapshot_for_response(
    assistant_message_index: usize,
    snapshot: &ThreadForkSnapshot,
) -> (origin: ThreadForkSnapshot)
    ensures
        origin == origin_of(assistant_message_index as int, *snapshot),
{
    match *snapshot {
        ThreadForkSnapshot::LatestAssistantReadAnchor { source_line_index, source_byte_offset } => {
            let assistant_message_index: u32 = match narrow(assistant_message_index) {
                Some(number) => number,
                None => u32::MAX,
            };
            ThreadForkSnapshot::AssistantReadAnchor {
                assistant_message_index,
                source_line_index,
                source_byte_offset,
            }
        },
        other => other,
    }
}

/// An anchor that no stored piece holds counts in the text as a whole, but only where that
/// was asked for.
pub proof fn law_anchors_without_pieces_count_in_the_text(
    segments: Option<Seq<Seq<char>>>,
    anchor: int,
)
    ensures
        segments is None || local_anchor(segments->0, anchor) is None ==> {
            &&& segment_anchor(segments, anchor, true) == Some((0int, anchor))
            &&& segment_anchor(segments, anchor, false) is None
        },
        segments is Some && local_anchor(segments->0, anchor) is Some ==> {
            &&& segment_anchor(segments, anchor, true) == local_anchor(segments->0, anchor)
            &&& segment_anchor(segments, anchor, false) == local_anchor(segments->0, anchor)
        },
{
}

/// Where a branch came from names the message, and the very place of the fork point in it.
pub proof fn law_origins_keep_the_place(message_index: int, line: u32, offset: u32, index: u32)
    requires
        0 <= message_index <= u32::MAX,
    ensures
        origin_of(
            message_index,
            ThreadForkSnapshot::LatestAssistantReadAnchor {
                source_line_index: line,
                source_byte_offset: offset,
            },
        ) == (ThreadForkSnapshot::AssistantReadAnchor {
            assistant_message_index: message_index as u32,
            source_line_index: line,
            source_byte_offset: offset,
        }),
        origin_of(
            message_index,
            ThreadForkSnapshot::AssistantReadAnchor {
                assistant_message_index: index,
                source_line_index: line,
                source_byte_offset: offset,
            },
        ) == (ThreadForkSnapshot::AssistantReadAnchor {
            assistant_message_index: index,
            source_line_index: line,
            source_byte_offset: offset,
        }),
{
}

/// A line behind the last one stands for the last one.
pub proof fn law_lines_behind_the_end_are_the_last(source: Seq<char>, index: int)
    requires
        index >= strings::split_at_newlines(source).len(),
    ensures
        raw_anchor(source, index) == raw_anchor(
            source,
            strings::split_at_newlines(source).len() - 1,
        ),
{
}

/// A fork point is the anchor of its line, told as the place in its piece. The one of the
/// latest message tells no message, and any other tells its own. There is none where the line
/// has no anchor, where no piece holds it, and where a number does not fit.
pub proof fn law_fork_points_tell_the_anchor(
    source: Seq<char>,
    segments: Option<Seq<Seq<char>>>,
    message_index: int,
    line_index: int,
    is_latest: bool,
    single_segment: bool,
)
    requires
        0 <= message_index,
    ensures
        ({
            let point = snapshot_at_line(
                source,
                segments,
                message_index,
                line_index,
                is_latest,
                single_segment,
            );
            let place = segment_anchor(
                segments,
                raw_anchor(source, line_index)->0,
                is_latest || single_segment,
            );
            let known = raw_anchor(source, line_index) is Some && place is Some;
            &&& !known ==> point is None
            &&& known ==> (place matches Some((piece, offset)) ==> {
                let fits = piece <= 0xffff_ffff && offset <= 0xffff_ffff && (is_latest
                    || message_index <= 0xffff_ffff);
                &&& !fits ==> point is None
                &&& fits && is_latest ==> point == Some(
                    ThreadForkSnapshot::LatestAssistantReadAnchor {
                        source_line_index: piece as u32,
                        source_byte_offset: offset as u32,
                    },
                )
                &&& fits && !is_latest ==> point == Some(
                    ThreadForkSnapshot::AssistantReadAnchor {
                        assistant_message_index: message_index as u32,
                        source_line_index: piece as u32,
                        source_byte_offset: offset as u32,
                    },
                )
            })
        }),
{
}

} // verus!
