//! What a branch reads: the laws that connect locating a snippet with cutting the rollout.
//!
//! A branch reads its reply up to and including the paragraph or list item in which the
//! snippet starts, and nothing behind it.
use crate::anchor;
use crate::branch_locator;
use crate::history_cell;
use crate::marker_position;
use crate::normalized;
use crate::protocol::{ThreadForkSnapshot, Turn};
use crate::read_point;
use crate::responses;
use crate::rollout;
use crate::snippet;
use crate::snippet::BranchSnippetError;
use crate::strings;
use crate::structure;
use crate::styled;
use crate::text;
use vstd::prelude::*;

verus! {

// ---------------------------------------------------------------------------
// Snippets
// ---------------------------------------------------------------------------
proof fn lemma_blank_pieces(source: Seq<char>, separator: spec_fn(char) -> bool)
    requires
        strings::blank(source),
    ensures
        normalized::blank_lines(strings::pieces(source, separator)),
    decreases source.len(),
{
    let parts = strings::pieces(source, separator);
    if source.len() > 0 {
        let head = source.drop_last();
        assert forall|i: int| 0 <= i < head.len() implies strings::whitespace(
            #[trigger] head[i],
        ) by {
            assert(head[i] == source[i]);
        }
        lemma_blank_pieces(head, separator);
        strings::lemma_pieces(head, separator);
        let old_parts = strings::pieces(head, separator);
        assert(strings::whitespace(source[source.len() - 1]));
        assert forall|i: int| 0 <= i < parts.len() implies strings::blank(#[trigger] parts[i]) by {
            if i < old_parts.len() {
                assert(strings::blank(old_parts[i]));
            }
            if separator(source.last()) {
                assert(i < old_parts.len() ==> parts[i] == old_parts[i]);
            } else if i < old_parts.len() - 1 {
                assert(parts[i] == old_parts[i]);
            } else {
                let part = parts[i];
                assert(part == old_parts.last().push(source.last()));
                assert forall|j: int| 0 <= j < part.len() implies strings::whitespace(
                    #[trigger] part[j],
                ) by {
                    if j < old_parts.last().len() {
                        assert(part[j] == old_parts.last()[j]);
                    }
                }
            }
        }
    }
}

proof fn lemma_blank_line(line: Seq<char>)
    requires
        strings::blank(line),
    ensures
        strings::blank(strings::without_carriage_return(line)),
        snippet::without_bullet(line) == line,
        strings::trimmed(line).len() == 0,
{
    strings::law_blank_is_trimmed_to_nothing(line);
    let rest = strings::without_carriage_return(line);
    assert forall|i: int| 0 <= i < rest.len() implies strings::whitespace(#[trigger] rest[i]) by {
        assert(rest[i] == line[i]);
    }
    lemma_blank_unindented(line);
}

proof fn lemma_blank_unindented(line: Seq<char>)
    requires
        strings::blank(line),
    ensures
        strings::blank(snippet::unindented(line)),
        snippet::unindented(line).len() > 0 ==> snippet::unindented(line)[0] != '\u{2022}',
    decreases line.len(),
{
    if line.len() > 0 {
        assert(strings::whitespace(line[0]));
        if line[0] == ' ' || line[0] == '\t' {
            let rest = line.skip(1);
            assert forall|i: int| 0 <= i < rest.len() implies strings::whitespace(
                #[trigger] rest[i],
            ) by {
                assert(rest[i] == line[i + 1]);
            }
            lemma_blank_unindented(rest);
        }
    }
}

proof fn lemma_blank_readings(source: Seq<char>)
    requires
        strings::blank(source),
    ensures
        normalized::blank_lines(snippet::bullet_free_lines(source)),
        normalized::blank_lines(snippet::trimmed_bullet_free_lines(source)),
{
    let parts = strings::split_at_newlines(source);
    lemma_blank_pieces(source, strings::newline());
    strings::lemma_pieces(source, strings::newline());
    let lines = strings::text_lines(source);
    assert forall|i: int| 0 <= i < lines.len() implies strings::blank(#[trigger] lines[i]) by {
        assert(strings::blank(parts[i]));
        lemma_blank_line(parts[i]);
    }
    let plain = snippet::bullet_free_lines(source);
    let trimmed = snippet::trimmed_bullet_free_lines(source);
    assert forall|i: int| 0 <= i < plain.len() implies strings::blank(#[trigger] plain[i]) by {
        lemma_blank_line(lines[i]);
    }
    assert forall|i: int| 0 <= i < trimmed.len() implies strings::blank(#[trigger] trimmed[i]) by {
        lemma_blank_line(lines[i]);
    }
}

/// A snippet is empty exactly when it holds nothing but whitespace: then all its readings
/// are blank, and otherwise the first one is not.
pub proof fn law_only_blank_snippets_are_empty(source: Seq<char>)
    ensures
        branch_locator::all_blank(snippet::candidates_of(source)) <==> strings::blank(source),
{
    let whole = seq![source];
    let first = normalized::normal_text(whole);
    let candidates = snippet::candidates_of(source);
    normalized::law_only_blank_lines_leave_nothing(whole);
    assert(normalized::blank_lines(whole) <==> strings::blank(source)) by {
        assert(whole[0] == source);
    }
    if strings::blank(source) {
        lemma_blank_readings(source);
        normalized::law_only_blank_lines_leave_nothing(snippet::bullet_free_lines(source));
        normalized::law_only_blank_lines_leave_nothing(snippet::trimmed_bullet_free_lines(source));
        strings::law_blank_is_trimmed_to_nothing(source);
        assert(snippet::unquoted(source) is None);
    } else {
        let empty = Seq::<Seq<char>>::empty();
        let one = snippet::with_candidate(empty, first);
        assert(!empty.contains(first));
        assert(one =~= seq![first]);
        assert(candidates[0] == first);
        assert(!strings::blank(candidates[0]));
    }
}

// ---------------------------------------------------------------------------
// Anchors
// ---------------------------------------------------------------------------
proof fn lemma_concatenated_split(parts: Seq<Seq<char>>, index: int)
    requires
        0 <= index < parts.len(),
    ensures
        (strings::concatenated(parts.take(index)) + parts[index]).is_prefix_of(
            strings::concatenated(parts),
        ),
    decreases parts.len(),
{
    let all = strings::concatenated(parts);
    let start = strings::concatenated(parts.take(index)) + parts[index];
    if index == parts.len() - 1 {
        assert(parts.take(index) =~= parts.drop_last());
        assert(all.take(start.len() as int) =~= start);
    } else {
        lemma_concatenated_split(parts.drop_last(), index);
        assert(parts.drop_last().take(index) =~= parts.take(index));
        let head = strings::concatenated(parts.drop_last());
        assert(all.take(start.len() as int) =~= head.take(start.len() as int));
    }
}

/// The text that an anchor reads of the segments of a reply.
pub open spec fn read_segments(segments: Seq<Seq<char>>, index: int, offset: int) -> Seq<char> {
    strings::concatenated(segments.take(index)) + read_point::read_text(segments[index], offset)
}

/// The last character of a line that is not empty is the one before the end of the text
/// through that line.
proof fn lemma_raw_anchor(source: Seq<char>, line: int)
    requires
        0 <= line < strings::split_at_newlines(source).len(),
        strings::split_at_newlines(source)[line].len() > 0,
    ensures
        ({
            let count = anchor::through_line(source, line).len() as int;
            &&& 0 < count <= source.len()
            &&& anchor::through_line(source, line) == source.take(count)
            &&& anchor::raw_anchor(source, line) == Some(text::byte_pos(source, count - 1))
        }),
{
    let part = anchor::through_line(source, line);
    anchor::law_text_through_a_line(source, line);
    let count = part.len() as int;
    let last = text::byte_len(part) - 1;
    assert(part =~= source.take(count));
    text::lemma_byte_pos_step(source, count - 1);
    text::lemma_byte_pos_grows(source, count, source.len() as int);
    text::lemma_char_index_unique(source, last, count - 1);
}

/// The anchor of a character reads everything up to and including that character.
proof fn lemma_anchor_reads_through(source: Seq<char>, segments: Seq<Seq<char>>, last: int)
    requires
        strings::concatenated(segments) == source,
        0 <= last < source.len(),
    ensures
        match anchor::local_anchor(segments, text::byte_pos(source, last)) {
            Some((index, offset)) => {
                &&& 0 <= index < segments.len()
                &&& 0 <= offset < text::byte_len(segments[index])
                &&& read_segments(segments, index, offset) == source.take(last + 1)
            },
            None => false,
        },
{
    let at = text::byte_pos(source, last);
    text::lemma_byte_pos_grows(source, 0, last);
    text::lemma_byte_pos_grows(source, last, source.len() as int);
    text::lemma_byte_pos_ends(source);
    anchor::law_local_anchor_names_the_byte(segments, at);
    let found = anchor::local_anchor(segments, at)->0;
    let head = strings::concatenated(segments.take(found.0));
    lemma_concatenated_split(segments, found.0);
    lemma_covered_inside(source, head, segments[found.0], found.1, last);
    assert(read_segments(segments, found.0, found.1) =~= source.take(last + 1));
}

/// A character that starts at a byte of a segment is the character of the segment that
/// covers this byte.
proof fn lemma_covered_inside(
    source: Seq<char>,
    head: Seq<char>,
    segment: Seq<char>,
    offset: int,
    last: int,
)
    requires
        (head + segment).is_prefix_of(source),
        0 <= last < source.len(),
        0 <= offset < text::byte_len(segment),
        text::byte_pos(source, last) == text::byte_len(head) + offset,
    ensures
        0 <= text::char_index(segment, offset) < segment.len(),
        head.len() + text::char_index(segment, offset) == last,
        head + segment.take(text::char_index(segment, offset) + 1) == source.take(last + 1),
{
    let inner = text::char_index(segment, offset);
    let start = head + segment;
    text::lemma_char_index(segment, offset);
    assert(start =~= source.take(start.len() as int));
    lemma_byte_pos_behind(source, head, segment, inner);
    lemma_byte_pos_behind(source, head, segment, inner + 1);
    text::lemma_char_index_unique(source, text::byte_pos(source, last), head.len() + inner);
    text::lemma_char_index_of_pos(source, last);
    assert(head + segment.take(inner + 1) =~= source.take(last + 1)) by {
        assert forall|i: int| 0 <= i < last + 1 implies #[trigger] source[i] == (head
            + segment.take(inner + 1))[i] by {
            assert(source.take(start.len() as int)[i] == start[i]);
        }
    }
}

proof fn lemma_byte_pos_behind(
    source: Seq<char>,
    head: Seq<char>,
    segment: Seq<char>,
    index: int,
)
    requires
        (head + segment).is_prefix_of(source),
        0 <= index <= segment.len(),
    ensures
        text::byte_pos(source, head.len() + index) == text::byte_len(head) + text::byte_pos(
            segment,
            index,
        ),
{
    let start = head + segment;
    assert(start =~= source.take(start.len() as int));
    assert(source.take(head.len() + index) =~= head + segment.take(index)) by {
        assert forall|i: int| 0 <= i < head.len() + index implies #[trigger] source[i] == (head
            + segment.take(index))[i] by {
            assert(source.take(start.len() as int)[i] == start[i]);
        }
    }
    text::lemma_byte_len_add(head, segment.take(index));
}

/// The anchor of the end of a line reads the text through that line: the line itself, all
/// before it, and nothing behind it.
pub proof fn law_line_anchor_reads_through_the_line(
    source: Seq<char>,
    segments: Seq<Seq<char>>,
    line: int,
)
    requires
        strings::concatenated(segments) == source,
        0 <= line < strings::split_at_newlines(source).len(),
        strings::split_at_newlines(source)[line].len() > 0,
    ensures
        anchor::raw_anchor(source, line) is Some,
        match anchor::local_anchor(segments, anchor::raw_anchor(source, line)->0) {
            Some((index, offset)) => {
                &&& 0 <= index < segments.len()
                &&& 0 <= offset < text::byte_len(segments[index])
                &&& read_segments(segments, index, offset) == anchor::through_line(source, line)
            },
            None => false,
        },
{
    lemma_raw_anchor(source, line);
    lemma_anchor_reads_through(source, segments, anchor::through_line(source, line).len() - 1);
}

/// The segments in which a reply is stored: the whole text, where none are known.
pub open spec fn stored_segments(
    source: Seq<char>,
    segments: Option<Seq<Seq<char>>>,
) -> Seq<Seq<char>> {
    match segments {
        Some(segments) => segments,
        None => seq![source],
    }
}

/// The place that a fork point names.
pub open spec fn anchor_of(snapshot: ThreadForkSnapshot) -> Option<(int, int)> {
    match snapshot {
        ThreadForkSnapshot::Interrupted => None,
        ThreadForkSnapshot::AssistantReadAnchor { source_line_index, source_byte_offset, .. } => {
            Some((source_line_index as int, source_byte_offset as int))
        },
        ThreadForkSnapshot::LatestAssistantReadAnchor { source_line_index, source_byte_offset } => {
            Some((source_line_index as int, source_byte_offset as int))
        },
    }
}

proof fn lemma_snapshot_anchor(
    source: Seq<char>,
    segments: Option<Seq<Seq<char>>>,
    message_index: int,
    line: int,
    is_latest: bool,
    single_segment: bool,
)
    requires
        strings::concatenated(stored_segments(source, segments)) == source,
        0 <= message_index,
        0 <= line < strings::split_at_newlines(source).len(),
        strings::split_at_newlines(source)[line].len() > 0,
    ensures
        match anchor::snapshot_at_line(
            source,
            segments,
            message_index,
            line,
            is_latest,
            single_segment,
        ) {
            Some(snapshot) => {
                &&& anchor_of(snapshot) == anchor::local_anchor(
                    stored_segments(source, segments),
                    anchor::raw_anchor(source, line)->0,
                )
                &&& is_latest ==> snapshot is LatestAssistantReadAnchor
                &&& !is_latest ==> snapshot is AssistantReadAnchor
                    && snapshot->assistant_message_index == message_index
            },
            None => {
                ||| segments is None && !is_latest && !single_segment
                ||| text::byte_len(source) > u32::MAX
                ||| stored_segments(source, segments).len() > u32::MAX
                ||| message_index > u32::MAX
            },
        },
{
    let stored = stored_segments(source, segments);
    law_line_anchor_reads_through_the_line(source, stored, line);
    let at = anchor::raw_anchor(source, line)->0;
    let found = anchor::local_anchor(stored, at)->0;
    lemma_floor_is_not_negative(source, line);
    anchor::law_local_anchor_names_the_byte(stored, at);
    if segments is None {
        assert(stored[0] == source);
        assert(stored.take(0) =~= Seq::<Seq<char>>::empty());
        assert(found == (0int, at));
    }
}

proof fn lemma_floor_is_not_negative(source: Seq<char>, line: int)
    ensures
        anchor::raw_anchor(source, line) is Some ==> 0 <= anchor::raw_anchor(source, line)->0,
{
}

// ---------------------------------------------------------------------------
// Selections
// ---------------------------------------------------------------------------
proof fn lemma_search_line_of_nothing(line: Seq<char>)
    requires
        line.len() == 0,
    ensures
        responses::search_line(line).len() == 0,
{
    reveal(Seq::filter);
    assert(strings::without_pairs(line, '*').len() == 0);
    assert(strings::without_pairs(strings::without_pairs(line, '*'), '_').len() == 0);
}

/// The line in which a match starts lies in its selected structure, and the last line of
/// the structure is a line of the source that is not empty.
pub proof fn law_selection_holds_the_match(source: Seq<char>, start: int)
    requires
        0 <= start < normalized::normal_text(responses::search_lines(source)).len(),
    ensures
        ({
            let lines = responses::search_lines(source);
            let selected = branch_locator::selected_lines(lines, start);
            &&& 0 <= selected.0 <= normalized::normal_marks(lines)[start].line <= selected.1
            &&& selected.1 < strings::split_at_newlines(source).len()
            &&& strings::split_at_newlines(source)[selected.1].len() > 0
        }),
{
    let lines = responses::search_lines(source);
    let selected = branch_locator::selected_lines(lines, start);
    let line = normalized::normal_marks(lines)[start].line;
    normalized::law_positions_lie_in_visible_lines(lines, start);
    structure::law_structure_holds_the_line(lines, line);
    assert(structure::visible_line(lines, selected.1));
    let own = strings::split_at_newlines(source)[selected.1];
    assert(lines[selected.1] == responses::search_line(own));
    if own.len() == 0 {
        lemma_search_line_of_nothing(own);
    }
}

/// A snippet that one response with known markdown holds once has an anchor, unless the
/// place cannot be named in the numbers of a fork point.
pub proof fn law_single_match_has_an_anchor(
    response: responses::ResponseView,
    is_latest: bool,
    latest: Option<Seq<char>>,
    candidates: Seq<Seq<char>>,
)
    requires
        responses::raw_markdown(response, latest, is_latest) is Some,
        ({
            let source = responses::raw_markdown(response, latest, is_latest)->0;
            let stored = stored_segments(source, response.source_segments);
            &&& strings::concatenated(stored) == source
            &&& text::byte_len(source) <= u32::MAX
            &&& stored.len() <= u32::MAX
            &&& 0 <= response.index <= u32::MAX
        }),
        response.source_segments is Some || is_latest || response.single_segment,
    ensures
        match snippet::first_single_match(
            normalized::normal_text(responses::lines_to_search(response, latest, is_latest)),
            candidates,
        ) {
            Ok(_) => branch_locator::outcome(response, is_latest, latest, candidates) matches Ok(
                Some(_),
            ),
            Err(_) => branch_locator::outcome(response, is_latest, latest, candidates) != Err::<
                Option<branch_locator::TargetView>,
                BranchSnippetError,
            >(BranchSnippetError::NoAnchor),
        },
{
    let source = responses::raw_markdown(response, latest, is_latest)->0;
    let lines = responses::search_lines(source);
    let found = snippet::first_single_match(normalized::normal_text(lines), candidates);
    branch_locator::lemma_match_is_visible(normalized::normal_text(lines), candidates);
    branch_locator::lemma_match_errors(normalized::normal_text(lines), candidates);
    if let Ok((start, _)) = found {
        law_selection_holds_the_match(source, start);
        lemma_snapshot_anchor(
            source,
            response.source_segments,
            response.index,
            branch_locator::selected_lines(lines, start).1,
            is_latest,
            response.single_segment,
        );
    }
}

// ---------------------------------------------------------------------------
// Branches
// ---------------------------------------------------------------------------
/// The history of a branch that starts at a fork point, where it lies inside a reply.
pub open spec fn branch_history(
    items: Seq<rollout::EntryView>,
    snapshot: ThreadForkSnapshot,
) -> Option<Result<Seq<rollout::RecordView>, Seq<char>>> {
    match snapshot {
        ThreadForkSnapshot::Interrupted => None,
        ThreadForkSnapshot::AssistantReadAnchor {
            assistant_message_index,
            source_line_index,
            source_byte_offset,
        } => Some(
            read_point::read_rollout(
                items,
                assistant_message_index as int,
                source_line_index as int,
                source_byte_offset as int,
            ),
        ),
        ThreadForkSnapshot::LatestAssistantReadAnchor { source_line_index, source_byte_offset } => {
            Some(
                read_point::read_rollout_latest(
                    items,
                    source_line_index as int,
                    source_byte_offset as int,
                ),
            )
        },
    }
}

/// Whether a rollout records a response, at a position, as the message of the assistant
/// with its index and with its segments as output texts.
pub open spec fn records_response(
    items: Seq<rollout::EntryView>,
    position: int,
    index: int,
    segments: Seq<Seq<char>>,
) -> bool {
    let positions = rollout::marked_positions(items, rollout::assistant_messages());
    &&& 0 <= index < positions.len()
    &&& positions[index] == position
    &&& items[position].record matches rollout::RecordView::ResponseItem(item)
    &&& item matches rollout::ItemView::Message { role, content, .. }
    &&& role == "assistant"@
    &&& read_point::outputs(content) == segments
}

/// Whether a history is that of a branch which reads a text of the record at a position:
/// the records before it as they are, the message with that text as its output, and the
/// note that the rest was not read.
pub open spec fn reads_only(
    history: Seq<rollout::RecordView>,
    items: Seq<rollout::EntryView>,
    position: int,
    read: Seq<char>,
) -> bool {
    &&& history.len() == position + 2
    &&& history.take(position) == rollout::records(items).take(position)
    &&& history[position] matches rollout::RecordView::ResponseItem(item)
    &&& item matches rollout::ItemView::Message { role, content, .. }
    &&& role == "assistant"@
    &&& strings::concatenated(read_point::outputs(content)) == read
    &&& history[position + 1] == rollout::RecordView::ResponseItem(read_point::branch_note())
}

/// Whether a branch that starts at a fork point reads, of the response that is recorded at
/// a position, everything up to the end of the paragraph or list item in which the snippet
/// starts, and nothing behind it.
pub open spec fn reads_through_the_selection(
    snapshot: ThreadForkSnapshot,
    response: responses::ResponseView,
    is_latest: bool,
    latest: Option<Seq<char>>,
    candidates: Seq<Seq<char>>,
    items: Seq<rollout::EntryView>,
    position: int,
) -> bool {
    let source = responses::raw_markdown(response, latest, is_latest)->0;
    let lines = responses::search_lines(source);
    &&& responses::raw_markdown(response, latest, is_latest) is Some
    &&& snippet::first_single_match(normalized::normal_text(lines), candidates) matches Ok(
        (start, _),
    )
    &&& branch_history(items, snapshot) matches Some(Ok(history))
    &&& reads_only(
        history,
        items,
        position,
        anchor::through_line(source, branch_locator::selected_lines(lines, start).1),
    )
}

/// A branch from a snippet reads the conversation up to its reply, the reply up to and
/// including the paragraph or list item in which the snippet starts, and nothing behind
/// it.
pub proof fn law_branch_reads_through_the_selection(
    response: responses::ResponseView,
    is_latest: bool,
    latest: Option<Seq<char>>,
    candidates: Seq<Seq<char>>,
    items: Seq<rollout::EntryView>,
    position: int,
)
    requires
        branch_locator::outcome(response, is_latest, latest, candidates) matches Ok(Some(_)),
        ({
            let source = responses::raw_markdown(response, latest, is_latest)->0;
            let stored = stored_segments(source, response.source_segments);
            let count = rollout::marked_positions(items, rollout::assistant_messages()).len();
            &&& strings::concatenated(stored) == source
            &&& records_response(items, position, response.index, stored)
            &&& is_latest ==> response.index == count - 1
        }),
    ensures
        reads_through_the_selection(
            branch_locator::outcome(response, is_latest, latest, candidates)->Ok_0->0.snapshot,
            response,
            is_latest,
            latest,
            candidates,
            items,
            position,
        ),
{
    let source = responses::raw_markdown(response, latest, is_latest)->0;
    let stored = stored_segments(source, response.source_segments);
    let lines = responses::search_lines(source);
    let found = snippet::first_single_match(normalized::normal_text(lines), candidates);
    let start = found->Ok_0.0;
    let end = branch_locator::selected_lines(lines, start).1;
    branch_locator::lemma_match_is_visible(normalized::normal_text(lines), candidates);
    law_selection_holds_the_match(source, start);
    law_line_anchor_reads_through_the_line(source, stored, end);
    lemma_snapshot_anchor(
        source,
        response.source_segments,
        response.index,
        end,
        is_latest,
        response.single_segment,
    );
    rollout::law_marked_positions(items, rollout::assistant_messages());
    let at = anchor::local_anchor(stored, anchor::raw_anchor(source, end)->0)->0;
    let item = items[position].record->ResponseItem_0;
    let content = item->content;
    read_point::law_read_message_keeps_the_read_text(content, at.0, at.1);
    let kept = read_point::read_content(content, at.0, at.1)->0;
    let outputs = read_point::outputs(kept);
    assert(outputs.drop_last() =~= stored.take(at.0));
    assert(strings::concatenated(outputs) == read_segments(stored, at.0, at.1));
    let snapshot = branch_locator::outcome(response, is_latest, latest, candidates)->Ok_0->0.snapshot;
    let history = branch_history(items, snapshot)->0->Ok_0;
    assert(history.take(position) =~= rollout::records(items).take(position));
}

/// Whether a rollout records the responses of a conversation: each is a message of the
/// assistant with its segments as output texts, and there are no other such messages.
pub open spec fn records_conversation(
    items: Seq<rollout::EntryView>,
    found: Seq<responses::ResponseView>,
    latest: Option<Seq<char>>,
) -> bool {
    let positions = rollout::marked_positions(items, rollout::assistant_messages());
    &&& positions.len() == found.len()
    &&& forall|i: int|
        0 <= i < found.len() ==> {
            let source = responses::raw_markdown(#[trigger] found[i], latest, i + 1 == found.len());
            source matches Some(source) ==> {
                let stored = stored_segments(source, found[i].source_segments);
                &&& strings::concatenated(stored) == source
                &&& records_response(items, positions[i], i, stored)
            }
        }
}

/// Where a snippet of a conversation can be located, one response holds it, and the branch
/// reads the conversation up to that response, the response up to and including the
/// paragraph or list item in which the snippet starts, and nothing behind it.
pub proof fn law_located_branch_reads_through_the_selection(
    cells: Seq<history_cell::CellView>,
    turns: Option<Seq<Turn>>,
    latest: Option<Seq<char>>,
    snippet: Seq<char>,
    model: spec_fn(Seq<char>) -> Seq<styled::LineView>,
    items: Seq<rollout::EntryView>,
)
    requires
        branch_locator::located(cells, turns, latest, snippet, model) is Ok,
        records_conversation(
            items,
            responses::conversation_responses(cells, turns, latest, model),
            latest,
        ),
    ensures
        ({
            let found = responses::conversation_responses(cells, turns, latest, model);
            let positions = rollout::marked_positions(items, rollout::assistant_messages());
            let target = branch_locator::located(cells, turns, latest, snippet, model)->Ok_0;
            exists|i: int|
                0 <= i < found.len() && reads_through_the_selection(
                    target.snapshot,
                    #[trigger] found[i],
                    i + 1 == found.len(),
                    latest,
                    snippet::candidates_of(snippet),
                    items,
                    positions[i],
                )
        }),
{
    let found = responses::conversation_responses(cells, turns, latest, model);
    let positions = rollout::marked_positions(items, rollout::assistant_messages());
    let candidates = snippet::candidates_of(snippet);
    let target = branch_locator::located(cells, turns, latest, snippet, model)->Ok_0;
    let outcomes = branch_locator::outcomes(found, latest, candidates);
    branch_locator::law_decided_target_is_the_only_one(outcomes);
    let i = choose|i: int|
        0 <= i < outcomes.len() && #[trigger] outcomes[i] == Ok::<
            Option<branch_locator::TargetView>,
            BranchSnippetError,
        >(Some(target)) && forall|j: int|
            0 <= j < outcomes.len() && j != i ==> !branch_locator::holds_snippet(
                #[trigger] outcomes[j],
            );
    let is_latest = i + 1 == found.len();
    assert(branch_locator::outcome(found[i], is_latest, latest, candidates) == outcomes[i]);
    responses::law_responses_are_numbered(cells, turns, latest, model, i);
    law_branch_reads_through_the_selection(
        found[i],
        is_latest,
        latest,
        candidates,
        items,
        positions[i],
    );
}

/// The marker of a branch names the last character that the branch reads: the fork point
/// that is kept of it leads back to the end of the selection.
pub proof fn law_marker_names_the_last_read_character(
    response: responses::ResponseView,
    is_latest: bool,
    latest: Option<Seq<char>>,
    candidates: Seq<Seq<char>>,
)
    requires
        branch_locator::outcome(response, is_latest, latest, candidates) matches Ok(Some(_)),
        0 <= response.index,
        ({
            let source = responses::raw_markdown(response, latest, is_latest)->0;
            &&& strings::concatenated(stored_segments(source, response.source_segments)) == source
            &&& text::byte_len(source) <= usize::MAX
        }),
    ensures
        ({
            let source = responses::raw_markdown(response, latest, is_latest)->0;
            let lines = responses::search_lines(source);
            let start = snippet::first_single_match(
                normalized::normal_text(lines),
                candidates,
            )->Ok_0.0;
            let target = branch_locator::outcome(response, is_latest, latest, candidates)->Ok_0->0;
            &&& anchor_of(target.origin_snapshot) matches Some((index, offset))
            &&& marker_position::absolute_offset(response.source_segments, index, offset)
                == anchor::raw_anchor(source, branch_locator::selected_lines(lines, start).1)
        }),
{
    let source = responses::raw_markdown(response, latest, is_latest)->0;
    let stored = stored_segments(source, response.source_segments);
    let lines = responses::search_lines(source);
    let found = snippet::first_single_match(normalized::normal_text(lines), candidates);
    let start = found->Ok_0.0;
    let end = branch_locator::selected_lines(lines, start).1;
    branch_locator::lemma_match_is_visible(normalized::normal_text(lines), candidates);
    law_selection_holds_the_match(source, start);
    law_line_anchor_reads_through_the_line(source, stored, end);
    lemma_snapshot_anchor(
        source,
        response.source_segments,
        response.index,
        end,
        is_latest,
        response.single_segment,
    );
    let at = anchor::raw_anchor(source, end)->0;
    lemma_anchor_lies_in_the_text(source, end);
    anchor::law_local_anchor_names_the_byte(stored, at);
    if response.source_segments is None {
        assert(stored[0] == source);
        assert(stored.take(0) =~= Seq::<Seq<char>>::empty());
    }
}

proof fn lemma_anchor_lies_in_the_text(source: Seq<char>, line: int)
    ensures
        anchor::raw_anchor(source, line) matches Some(at) ==> 0 <= at < text::byte_len(source),
{
    if let Some(at) = anchor::raw_anchor(source, line) {
        let lines = strings::split_at_newlines(source);
        let index = anchor::clamped_line(source, line);
        let last = anchor::line_start(lines, index) + text::byte_len(lines[index]) - 1;
        anchor::law_text_through_a_line(source, index);
        let own = lines[index];
        text::lemma_byte_pos_ends(own);
        text::lemma_byte_pos_grows(own, 0, own.len() as int);
        anchor::lemma_line_start_grows(lines, 0, index);
        text::lemma_char_index(source, last);
    }
}

/// The anchor of the latest response counts in the markdown of the running session,
/// wherever that is not blank: it reads that markdown through the line at which the
/// selection ends, whatever text the response itself stores or displays.
pub proof fn law_latest_anchor_counts_in_the_session_markdown(
    response: responses::ResponseView,
    markdown: Seq<char>,
    candidates: Seq<Seq<char>>,
)
    requires
        !strings::blank(markdown),
        response.source_segments is Some ==> strings::concatenated(response.source_segments->0)
            == markdown,
        0 <= response.index,
    ensures
        match branch_locator::outcome(response, true, Some(markdown), candidates) {
            Ok(Some(target)) => {
                let lines = responses::search_lines(markdown);
                let stored = match response.source_segments {
                    Some(segments) => segments,
                    None => seq![markdown],
                };
                &&& target.snapshot matches ThreadForkSnapshot::LatestAssistantReadAnchor {
                    source_line_index,
                    source_byte_offset,
                }
                &&& source_line_index < stored.len()
                &&& source_byte_offset < text::byte_len(stored[source_line_index as int])
                &&& snippet::first_single_match(
                    normalized::normal_text(lines),
                    candidates,
                ) matches Ok((start, _))
                &&& strings::concatenated(stored.take(source_line_index as int))
                    + read_point::read_text(
                    stored[source_line_index as int],
                    source_byte_offset as int,
                ) == anchor::through_line(
                    markdown,
                    branch_locator::selected_lines(lines, start).1,
                )
            },
            _ => true,
        },
{
    responses::law_latest_markdown_comes_first(response, None, markdown);
    let lines = responses::search_lines(markdown);
    if let Ok(Some(_)) = branch_locator::outcome(response, true, Some(markdown), candidates) {
        let found = snippet::first_single_match(normalized::normal_text(lines), candidates);
        let start = found->Ok_0.0;
        let end = branch_locator::selected_lines(lines, start).1;
        let stored = stored_segments(markdown, response.source_segments);
        branch_locator::lemma_match_is_visible(normalized::normal_text(lines), candidates);
        law_selection_holds_the_match(markdown, start);
        if response.source_segments is None {
            assert(stored.drop_last() =~= Seq::<Seq<char>>::empty());
            reveal_with_fuel(strings::concatenated, 2);
            assert(strings::concatenated(stored) =~= markdown);
        }
        law_line_anchor_reads_through_the_line(markdown, stored, end);
        lemma_snapshot_anchor(
            markdown,
            response.source_segments,
            response.index,
            end,
            true,
            response.single_segment,
        );
    }
}

/// Whatever the latest response stores or displays, the same markdown of the running session
/// gives the same result, unless it is blank.
pub proof fn law_latest_result_ignores_the_stored_text(
    response: responses::ResponseView,
    other: responses::ResponseView,
    markdown: Seq<char>,
    candidates: Seq<Seq<char>>,
)
    requires
        !strings::blank(markdown),
        other.index == response.index,
        other.source_segments == response.source_segments,
    ensures
        branch_locator::outcome(other, true, Some(markdown), candidates)
            == branch_locator::outcome(response, true, Some(markdown), candidates),
{
    responses::law_latest_markdown_comes_first(response, None, markdown);
    responses::law_latest_markdown_comes_first(other, None, markdown);
}

/// A snippet of nothing but whitespace is refused as empty, whatever the conversation holds.
/// Any other snippet is refused where there is no response, and is looked for in every
/// response otherwise.
pub proof fn law_refused_snippets(
    cells: Seq<history_cell::CellView>,
    turns: Option<Seq<Turn>>,
    latest: Option<Seq<char>>,
    snippet: Seq<char>,
    model: spec_fn(Seq<char>) -> Seq<styled::LineView>,
)
    ensures
        ({
            let found = responses::conversation_responses(cells, turns, latest, model);
            let result = branch_locator::located(cells, turns, latest, snippet, model);
            &&& strings::blank(snippet) <==> result == Err::<
                branch_locator::TargetView,
                BranchSnippetError,
            >(BranchSnippetError::EmptySnippet)
            &&& !strings::blank(snippet) && found.len() == 0 <==> result == Err::<
                branch_locator::TargetView,
                BranchSnippetError,
            >(BranchSnippetError::NoAssistantResponse)
            &&& !strings::blank(snippet) && found.len() > 0 ==> result == branch_locator::decided(
                Seq::new(
                    found.len(),
                    |i: int|
                        branch_locator::outcome(
                            found[i],
                            i == found.len() - 1,
                            latest,
                            snippet::candidates_of(snippet),
                        ),
                ),
            )
        }),
{
    law_only_blank_snippets_are_empty(snippet);
    let found = responses::conversation_responses(cells, turns, latest, model);
    let candidates = snippet::candidates_of(snippet);
    assert(branch_locator::outcomes(found, latest, candidates) =~= Seq::new(
        found.len(),
        |i: int| branch_locator::outcome(found[i], i == found.len() - 1, latest, candidates),
    ));
}

} // verus!
